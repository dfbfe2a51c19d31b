//! Best solve times: a map from puzzle name to milliseconds, with the text
//! form in which it is kept between runs (one `name<TAB>ms` line each, in
//! name order).
use vstd::prelude::*;

use crate::text::{
    chars_of, decimal, is_digit, lemma_decimal_value, lemma_lex_order, lemma_split_append,
    lemma_split_push_delim, lex_less, lex_lt, parse_u64, parse_u64_spec, push_char, push_chars,
    push_decimal_u64, slice_chars, split_chars, split_on,
};

verus! {

/// The value of key `k` in a list of entries (the last entry for it).
pub open spec fn lookup(es: Seq<(Seq<char>, u64)>, k: Seq<char>) -> Option<u64>
    decreases es.len(),
{
    if es.len() == 0 {
        None
    } else if es.last().0 == k {
        Some(es.last().1)
    } else {
        lookup(es.drop_last(), k)
    }
}

/// The keys of the entries are in strictly increasing order.
pub open spec fn sorted_keys(es: Seq<(Seq<char>, u64)>) -> bool {
    forall|i: int, j: int| 0 <= i < j < es.len() ==> lex_lt(#[trigger] es[i].0, #[trigger] es[j].0)
}

/// The map that a list of entries describes.
pub open spec fn entries_map(es: Seq<(Seq<char>, u64)>) -> Map<Seq<char>, u64> {
    Map::new(|k: Seq<char>| lookup(es, k) is Some, |k: Seq<char>| lookup(es, k)->0)
}

/// In a sorted list, a key has a value exactly when some entry holds it.
proof fn lemma_lookup_sorted(es: Seq<(Seq<char>, u64)>, k: Seq<char>)
    requires
        sorted_keys(es),
    ensures
        lookup(es, k) is Some <==> exists|i: int| 0 <= i < es.len() && #[trigger] es[i].0 == k,
        forall|i: int| 0 <= i < es.len() && #[trigger] es[i].0 == k ==> lookup(es, k) == Some(es[i].1),
    decreases es.len(),
{
    if es.len() > 0 {
        let init = es.drop_last();
        assert forall|i: int, j: int| 0 <= i < j < init.len() implies lex_lt(
            #[trigger] init[i].0,
            #[trigger] init[j].0,
        ) by {
            assert(init[i] == es[i]);
            assert(init[j] == es[j]);
        }
        lemma_lookup_sorted(init, k);
        let n = es.len() - 1;
        assert forall|i: int| 0 <= i < es.len() && #[trigger] es[i].0 == k implies lookup(es, k) == Some(
            es[i].1,
        ) by {
            if i < n {
                assert(init[i] == es[i]);
                if es.last().0 == k {
                    assert(lex_lt(es[i].0, es[n].0));
                    lemma_lex_order(k, k, k);
                }
            }
        }
        if lookup(es, k) is Some {
            if es.last().0 == k {
                assert(es[n].0 == k);
            } else {
                let i = choose|i: int| 0 <= i < init.len() && #[trigger] init[i].0 == k;
                assert(es[i] == init[i]);
            }
        }
        if exists|i: int| 0 <= i < es.len() && #[trigger] es[i].0 == k {
            let i = choose|i: int| 0 <= i < es.len() && #[trigger] es[i].0 == k;
            if i < n {
                assert(init[i] == es[i]);
            }
        }
    }
}

/// In a sorted list, each entry has a key of its own, so the map has as many
/// keys as the list has entries.
proof fn lemma_entries_count(es: Seq<(Seq<char>, u64)>)
    requires
        sorted_keys(es),
    ensures
        entries_map(es).dom().finite(),
        entries_map(es).dom().len() == es.len(),
    decreases es.len(),
{
    if es.len() == 0 {
        assert(entries_map(es).dom() =~= Set::<Seq<char>>::empty());
    } else {
        let init = es.drop_last();
        assert forall|i: int, j: int| 0 <= i < j < init.len() implies lex_lt(
            #[trigger] init[i].0,
            #[trigger] init[j].0,
        ) by {
            assert(init[i] == es[i]);
            assert(init[j] == es[j]);
        }
        lemma_entries_count(init);
        let k = es.last().0;
        assert(entries_map(es).dom() =~= entries_map(init).dom().insert(k));
        lemma_lookup_sorted(init, k);
        if lookup(init, k) is Some {
            let i = choose|i: int| 0 <= i < init.len() && #[trigger] init[i].0 == k;
            assert(init[i] == es[i]);
            assert(lex_lt(es[i].0, es[es.len() - 1].0));
            lemma_lex_order(k, k, k);
        }
        assert(!entries_map(init).dom().contains(k));
    }
}

/// The best time, in milliseconds, of each puzzle that has been solved.
pub struct BestTimes {
    entries: Vec<(String, u64)>,
}

impl BestTimes {
    /// The entries, in increasing order of name.
    pub closed spec fn entries(&self) -> Seq<(Seq<char>, u64)> {
        self.entries@.map_values(|e: (String, u64)| (e.0@, e.1))
    }

    #[verifier::type_invariant]
    spec fn inv(&self) -> bool {
        sorted_keys(self.entries())
    }

    /// No best time yet.
    pub fn new() -> (t: BestTimes)
        ensures
            t@ == Map::<Seq<char>, u64>::empty(),
            t.entries() == Seq::<(Seq<char>, u64)>::empty(),
    {
        let t = BestTimes { entries: Vec::new() };
        proof {
            assert(t.entries() =~= Seq::<(Seq<char>, u64)>::empty());
            assert(entries_map(t.entries()) =~= Map::<Seq<char>, u64>::empty());
        }
        t
    }

    /// The number of puzzles with a best time.
    pub fn len(&self) -> (n: usize)
        ensures
            n == self.entries().len(),
            self@.dom().finite(),
            n == self@.dom().len(),
    {
        proof {
            use_type_invariant(self);
            lemma_entries_count(self.entries());
        }
        self.entries.len()
    }

    /// The best time of the puzzle named `name`, if any.
    pub fn get(&self, name: &str) -> (r: Option<u64>)
        ensures
            r == (if self@.contains_key(name@) {
                Some(self@[name@])
            } else {
                None
            }),
    {
        proof {
            use_type_invariant(self);
        }
        let ghost es = self.entries();
        let mut i: usize = 0;
        while i < self.entries.len()
            invariant
                i <= self.entries@.len(),
                es == self.entries(),
                sorted_keys(es),
                forall|q: int| 0 <= q < i ==> #[trigger] es[q].0 != name@,
            decreases self.entries@.len() - i,
        {
            if self.entries[i].0 == name.to_owned() {
                proof {
                    assert(es[i as int].0 == name@);
                    lemma_lookup_sorted(es, name@);
                }
                return Some(self.entries[i].1);
            }
            i = i + 1;
        }
        proof {
            lemma_lookup_sorted(es, name@);
        }
        None
    }

    /// Whether the puzzle named `name` has a best time.
    pub fn contains(&self, name: &str) -> (r: bool)
        ensures
            r == self@.contains_key(name@),
    {
        self.get(name).is_some()
    }

    /// Sets the best time of the puzzle named `name`.
    pub fn insert(&mut self, name: &str, ms: u64)
        ensures
            final(self)@ == old(self)@.insert(name@, ms),
    {
        proof {
            use_type_invariant(&*self);
        }
        let ghost es = self.entries();
        let key = chars_of(name);
        let mut i: usize = 0;
        let mut found = false;
        while i < self.entries.len() && !found
            invariant
                i <= self.entries@.len(),
                es == self.entries(),
                sorted_keys(es),
                key@ == name@,
                forall|q: int| 0 <= q < i ==> lex_lt(#[trigger] es[q].0, name@),
                found ==> i < es.len() && !lex_lt(es[i as int].0, name@),
            decreases self.entries@.len() - i + (if found {
                0int
            } else {
                1int
            }),
        {
            let other = chars_of(self.entries[i].0.as_str());
            if lex_less(other.as_slice(), key.as_slice()) {
                i = i + 1;
            } else {
                found = true;
            }
        }
        let same = found && self.entries[i].0 == name.to_owned();
        let entry = (String::from_str(name), ms);
        let ghost ne = (name@, ms);
        let mut list: Vec<(String, u64)> = Vec::new();
        std::mem::swap(&mut list, &mut self.entries);
        if same {
            list.set(i, entry);
        } else {
            list.insert(i, entry);
        }
        let ghost es2 = list@.map_values(|e: (String, u64)| (e.0@, e.1));
        proof {
            if same {
                assert(es2 =~= es.update(i as int, ne));
            } else {
                assert(es2 =~= es.insert(i as int, ne));
            }
            assert forall|a: int, b: int| 0 <= a < b < es2.len() implies lex_lt(
                #[trigger] es2[a].0,
                #[trigger] es2[b].0,
            ) by {
                let k = i as int;
                if found {
                    lemma_lex_order(name@, es[k].0, es[k].0);
                }
                if same {
                    if a == k {
                        assert(es[b].0 == es2[b].0);
                        assert(lex_lt(es[k].0, es[b].0));
                    } else if b == k {
                        assert(es[a].0 == es2[a].0);
                    }
                } else {
                    if a < k && b == k {
                    } else if a < k && b > k {
                        assert(es2[b] == es[b - 1]);
                        if found {
                            lemma_lex_order(es[a].0, name@, es[k].0);
                            lemma_lex_order(es[a].0, es[k].0, es[b - 1].0);
                        }
                    } else if a == k {
                        assert(es2[b] == es[b - 1]);
                        lemma_lex_order(name@, es[k].0, es[b - 1].0);
                        if b - 1 > k {
                            assert(lex_lt(es[k].0, es[b - 1].0));
                        }
                    } else if a > k {
                        assert(es2[a] == es[a - 1]);
                        assert(es2[b] == es[b - 1]);
                    }
                }
            }
            if !same {
                assert forall|q: int| 0 <= q < es.len() implies #[trigger] es[q].0 != name@ by {
                    lemma_lex_order(name@, name@, name@);
                    if q > i {
                        let k = i as int;
                        assert(lex_lt(es[k].0, es[q].0));
                        lemma_lex_order(name@, es[k].0, es[q].0);
                    }
                }
            }
            lemma_insert_map(es, es2, name@, ms, i as int, same);
        }
        self.entries = list;
    }

    /// The best times that a text in the text form records; lines that do
    /// not read as an entry are passed over.
    pub fn parse(text: &str) -> (t: BestTimes)
        ensures
            t@ == times_of_lines(text_lines(text@)),
    {
        let chars = chars_of(text);
        let pieces = split_chars(chars.as_slice(), '\n');
        let ghost ps = split_on(text@, '\n');
        let ghost lines = text_lines(text@);
        let mut t = BestTimes::new();
        let mut i: usize = 0;
        proof {
            assert(lines.take(0) =~= Seq::<Seq<char>>::empty());
        }
        while i < pieces.len()
            invariant
                i <= pieces@.len(),
                ps == split_on(text@, '\n'),
                lines == text_lines(text@),
                pieces@.len() == ps.len(),
                forall|q: int| 0 <= q < pieces@.len() ==> #[trigger] pieces@[q]@ == ps[q],
                t@ == times_of_lines(lines.take(i as int)),
            decreases pieces@.len() - i,
        {
            let piece = pieces[i].as_slice();
            let line = if i + 1 < pieces.len() {
                drop_cr(piece)
            } else {
                slice_chars(piece, 0, piece.len())
            };
            proof {
                assert(pieces@[i as int]@ == ps[i as int]);
                assert(piece@.subrange(0, piece@.len() as int) =~= piece@);
                assert(line@ == lines[i as int]);
                assert(lines.take(i + 1).drop_last() =~= lines.take(i as int));
            }
            match read_line(line.as_slice()) {
                Some(e) => {
                    t.insert(e.0.as_str(), e.1);
                },
                None => {},
            }
            i = i + 1;
        }
        proof {
            assert(lines.take(lines.len() as int) =~= lines);
        }
        t
    }

    /// The text form: one `name<TAB>ms` line per entry, in name order.
    pub fn format(&self) -> (text: String)
        ensures
            text@ == format_entries(self.entries()),
            sorted_keys(self.entries()),
            self@ == entries_map(self.entries()),
    {
        proof {
            use_type_invariant(self);
        }
        let mut out = String::new();
        let mut i: usize = 0;
        proof {
            assert(self.entries().take(0) =~= Seq::<(Seq<char>, u64)>::empty());
        }
        while i < self.entries.len()
            invariant
                i <= self.entries@.len(),
                out@ == format_entries(self.entries().take(i as int)),
            decreases self.entries@.len() - i,
        {
            let name = chars_of(self.entries[i].0.as_str());
            push_chars(&mut out, name.as_slice());
            push_char(&mut out, '\t');
            push_decimal_u64(&mut out, self.entries[i].1);
            push_char(&mut out, '\n');
            proof {
                let t = self.entries().take(i + 1);
                assert(t.drop_last() =~= self.entries().take(i as int));
                assert(t.last() == self.entries()[i as int]);
            }
            i = i + 1;
        }
        proof {
            assert(self.entries().take(self.entries@.len() as int) =~= self.entries());
        }
        out
    }
}

/// A line without the carriage return that ends it, if it ends with one.
fn drop_cr(line: &[char]) -> (r: Vec<char>)
    ensures
        r@ == strip_cr(line@),
{
    let n = line.len();
    if n > 0 && line[n - 1] == '\r' {
        let r = slice_chars(line, 0, n - 1);
        proof {
            assert(r@ =~= line@.drop_last());
        }
        r
    } else {
        let r = slice_chars(line, 0, n);
        proof {
            assert(r@ =~= line@);
        }
        r
    }
}

/// The entry of one line, as `line_entry` describes it.
fn read_line(line: &[char]) -> (r: Option<(String, u64)>)
    ensures
        r matches Some(e) ==> line_entry(line@) == Some((e.0@, e.1)),
        r is None ==> line_entry(line@) is None,
{
    let mut k: usize = 0;
    while k < line.len() && line[k] != '\t'
        invariant
            k <= line@.len(),
            forall|q: int| 0 <= q < k ==> line@[q] != '\t',
        decreases line@.len() - k,
    {
        k = k + 1;
    }
    if k == line.len() {
        proof {
            if exists|j: int| is_first_tab(line@, j) {
                let j = choose|j: int| is_first_tab(line@, j);
                assert(line@[j] == '\t');
            }
        }
        return None;
    }
    proof {
        assert(is_first_tab(line@, k as int));
        let j = choose|j: int| is_first_tab(line@, j);
        if j < k {
            assert(line@[j] == '\t');
        }
        if j > k {
            assert(line@[k as int] == '\t');
        }
        assert(j == k);
    }
    let rest = slice_chars(line, k + 1, line.len());
    match parse_u64(rest.as_slice()) {
        Some(ms) => {
            let name_chars = slice_chars(line, 0, k);
            let mut name = String::new();
            push_chars(&mut name, name_chars.as_slice());
            proof {
                assert(name@ =~= name_chars@);
            }
            Some((name, ms))
        },
        None => None,
    }
}

impl View for BestTimes {
    type V = Map<Seq<char>, u64>;

    open spec fn view(&self) -> Map<Seq<char>, u64> {
        entries_map(self.entries())
    }
}

proof fn lemma_insert_map(
    es: Seq<(Seq<char>, u64)>,
    es2: Seq<(Seq<char>, u64)>,
    k: Seq<char>,
    v: u64,
    i: int,
    same: bool,
)
    requires
        sorted_keys(es),
        sorted_keys(es2),
        0 <= i <= es.len(),
        same ==> i < es.len() && es[i].0 == k && es2 == es.update(i, (k, v)),
        !same ==> es2 == es.insert(i, (k, v)),
        !same ==> forall|q: int| 0 <= q < es.len() ==> #[trigger] es[q].0 != k,
    ensures
        entries_map(es2) == entries_map(es).insert(k, v),
{
    assert forall|key: Seq<char>| #[trigger] lookup(es2, key) == (if key == k {
        Some(v)
    } else {
        lookup(es, key)
    }) by {
        lemma_lookup_sorted(es, key);
        lemma_lookup_sorted(es2, key);
        if key == k {
            assert(es2[i].0 == k);
        } else {
            if lookup(es, key) is Some {
                let j = choose|j: int| 0 <= j < es.len() && #[trigger] es[j].0 == key;
                if same {
                    assert(es2[j] == es[j]);
                } else if j < i {
                    assert(es2[j] == es[j]);
                } else {
                    assert(es2[j + 1] == es[j]);
                }
            }
            if lookup(es2, key) is Some {
                let j = choose|j: int| 0 <= j < es2.len() && #[trigger] es2[j].0 == key;
                if same {
                    assert(es2[j] == es[j]);
                } else if j < i {
                    assert(es2[j] == es[j]);
                } else if j > i {
                    assert(es2[j] == es[j - 1]);
                }
            }
        }
    }
    assert(entries_map(es2) =~= entries_map(es).insert(k, v));
}

/// The line of one entry: the name, a tab and the time in decimal.
pub open spec fn entry_line(e: (Seq<char>, u64)) -> Seq<char> {
    e.0 + seq!['\t'] + decimal(e.1 as nat)
}

/// The text of a list of entries: the line of each, ended by a newline.
pub open spec fn format_entries(es: Seq<(Seq<char>, u64)>) -> Seq<char>
    decreases es.len(),
{
    if es.len() == 0 {
        seq![]
    } else {
        format_entries(es.drop_last()) + entry_line(es.last()) + seq!['\n']
    }
}

/// A line without the carriage return that ends it, if it ends with one.
pub open spec fn strip_cr(line: Seq<char>) -> Seq<char> {
    if line.len() > 0 && line.last() == '\r' {
        line.drop_last()
    } else {
        line
    }
}

/// The lines of a text as `str::lines` cuts them: the pieces between the
/// newlines, each but the last without one closing carriage return.  (The
/// last piece is empty when the text ends with a newline; an empty line
/// stands for no entry.)
pub open spec fn text_lines(text: Seq<char>) -> Seq<Seq<char>> {
    let ps = split_on(text, '\n');
    Seq::new(ps.len(), |i: int| if i + 1 < ps.len() { strip_cr(ps[i]) } else { ps[i] })
}

/// `k` is the position of the first tab of `line`.
pub open spec fn is_first_tab(line: Seq<char>, k: int) -> bool {
    &&& 0 <= k < line.len()
    &&& line[k] == '\t'
    &&& forall|q: int| 0 <= q < k ==> line[q] != '\t'
}

/// The entry that a line stands for: the text before its first tab as the
/// name, and the time that the rest reads as; none where the line has no tab
/// or the rest is not a `u64`.
pub open spec fn line_entry(line: Seq<char>) -> Option<(Seq<char>, u64)> {
    if exists|k: int| is_first_tab(line, k) {
        let k = choose|k: int| is_first_tab(line, k);
        match parse_u64_spec(line.subrange(k + 1, line.len() as int)) {
            Some(ms) => Some((line.subrange(0, k), ms)),
            None => None,
        }
    } else {
        None
    }
}

/// The best times that a list of lines records: each line with an entry
/// sets the time of its name, later lines over earlier ones.
pub open spec fn times_of_lines(lines: Seq<Seq<char>>) -> Map<Seq<char>, u64>
    decreases lines.len(),
{
    if lines.len() == 0 {
        Map::empty()
    } else {
        let m = times_of_lines(lines.drop_last());
        match line_entry(lines.last()) {
            Some(e) => m.insert(e.0, e.1),
            None => m,
        }
    }
}

/// A name that the text form keeps apart from the rest of its line.
pub open spec fn plain_name(name: Seq<char>) -> bool {
    forall|i: int| 0 <= i < name.len() ==> #[trigger] name[i] != '\t' && name[i] != '\n'
}

proof fn lemma_entry_line(e: (Seq<char>, u64))
    requires
        plain_name(e.0),
    ensures
        line_entry(entry_line(e)) == Some(e),
        forall|i: int| 0 <= i < entry_line(e).len() ==> #[trigger] entry_line(e)[i] != '\n',
        entry_line(e).len() > 0 && entry_line(e).last() != '\r',
{
    let l = entry_line(e);
    let k = e.0.len() as int;
    let d = decimal(e.1 as nat);
    lemma_decimal_value(e.1 as nat);
    assert(l[k] == '\t');
    assert forall|q: int| 0 <= q < k implies l[q] != '\t' by {
        assert(l[q] == e.0[q]);
    }
    assert(is_first_tab(l, k));
    let j = choose|j: int| is_first_tab(l, j);
    if j < k {
        assert(l[j] == e.0[j]);
    }
    assert(j == k);
    assert(l.subrange(k + 1, l.len() as int) =~= d);
    assert(l.subrange(0, k) =~= e.0);
    assert forall|i: int| 0 <= i < l.len() implies #[trigger] l[i] != '\n' by {
        if i < k {
            assert(l[i] == e.0[i]);
        } else if i > k {
            assert(l[i] == d[i - k - 1]);
        }
    }
    assert(l.last() == d.last());
    assert(is_digit(d[d.len() - 1]));
}

/// The lines of a list of entries.
pub open spec fn entry_lines(es: Seq<(Seq<char>, u64)>) -> Seq<Seq<char>> {
    es.map_values(|e: (Seq<char>, u64)| entry_line(e))
}

proof fn lemma_split_format(es: Seq<(Seq<char>, u64)>)
    requires
        forall|i: int| 0 <= i < es.len() ==> plain_name(#[trigger] es[i].0),
    ensures
        split_on(format_entries(es), '\n') == entry_lines(es).push(
            Seq::<char>::empty(),
        ),
    decreases es.len(),
{
    let lines = entry_lines(es);
    if es.len() == 0 {
        assert(split_on(format_entries(es), '\n') =~= lines.push(Seq::<char>::empty()));
    } else {
        let init = es.drop_last();
        assert forall|i: int| 0 <= i < init.len() implies plain_name(#[trigger] init[i].0) by {
            assert(init[i] == es[i]);
        }
        lemma_split_format(init);
        let e = es.last();
        assert(plain_name(es[es.len() - 1].0));
        lemma_entry_line(e);
        let f0 = format_entries(init);
        lemma_split_append(f0, entry_line(e), '\n');
        lemma_split_push_delim(f0 + entry_line(e), '\n');
        assert(format_entries(es) =~= (f0 + entry_line(e)).push('\n'));
        assert(split_on(f0, '\n') == entry_lines(init).push(Seq::<char>::empty()));
        let lines0 = entry_lines(init);
        assert(lines =~= lines0.push(entry_line(e)));
        assert(Seq::<char>::empty() + entry_line(e) =~= entry_line(e));
        assert(lines0.push(Seq::<char>::empty()).update(lines0.len() as int, entry_line(e))
            =~= lines0.push(entry_line(e)));
    }
}

proof fn lemma_times_of_entry_lines(es: Seq<(Seq<char>, u64)>)
    requires
        forall|i: int| 0 <= i < es.len() ==> plain_name(#[trigger] es[i].0),
    ensures
        times_of_lines(entry_lines(es)) == entries_map(es),
    decreases es.len(),
{
    let lines = entry_lines(es);
    if es.len() == 0 {
        assert(entries_map(es) =~= Map::<Seq<char>, u64>::empty());
    } else {
        let init = es.drop_last();
        assert forall|i: int| 0 <= i < init.len() implies plain_name(#[trigger] init[i].0) by {
            assert(init[i] == es[i]);
        }
        lemma_times_of_entry_lines(init);
        assert(plain_name(es[es.len() - 1].0));
        lemma_entry_line(es.last());
        assert(lines.drop_last() =~= entry_lines(init));
        assert(entries_map(es) =~= entries_map(init).insert(es.last().0, es.last().1));
    }
}

/// Reading back the text form of a list of entries gives the map that they
/// describe, as long as no name holds a tab or a newline.
pub proof fn lemma_format_then_parse(es: Seq<(Seq<char>, u64)>)
    requires
        forall|i: int| 0 <= i < es.len() ==> plain_name(#[trigger] es[i].0),
    ensures
        times_of_lines(text_lines(format_entries(es))) == entries_map(es),
{
    lemma_split_format(es);
    lemma_times_of_entry_lines(es);
    let lines = entry_lines(es);
    let tl = text_lines(format_entries(es));
    assert forall|i: int| 0 <= i < lines.len() implies #[trigger] tl[i] == lines[i] by {
        lemma_entry_line(es[i]);
    }
    assert(tl.drop_last() =~= lines);
    assert(line_entry(tl.last()) is None) by {
        assert(tl.last() =~= Seq::<char>::empty());
        if exists|k: int| is_first_tab(tl.last(), k) {
            let k = choose|k: int| is_first_tab(tl.last(), k);
        }
    }
}

} // verus!
