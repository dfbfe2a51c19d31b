use vstd::prelude::*;

verus! {

broadcast use vstd::string::group_string_axioms;

/// The characters of a string, in order.
pub fn chars_of(s: &str) -> (v: Vec<char>)
    ensures
        v@ == s@,
{
    let mut v: Vec<char> = Vec::new();
    for c in it: s.chars()
        invariant
            v@ == it.seq().take(it.index() as int),
            it.seq() == s@,
    {
        v.push(c);
    }
    v
}

/// `String::push` of std: appends one character to the string.
#[verifier::external_body]
pub(crate) fn push_char(s: &mut String, c: char)
    ensures
        final(s)@ == old(s)@.push(c),
{
    s.push(c)
}

/// Appends the characters of `v` to the string.
pub fn push_chars(s: &mut String, v: &[char])
    ensures
        final(s)@ == old(s)@ + v@,
{
    let ghost s0 = s@;
    let mut i: usize = 0;
    while i < v.len()
        invariant
            i <= v@.len(),
            s@ == s0 + v@.subrange(0, i as int),
        decreases v@.len() - i,
    {
        push_char(s, v[i]);
        proof {
            assert(s@ =~= s0 + v@.subrange(0, i + 1));
        }
        i = i + 1;
    }
    proof {
        assert(v@.subrange(0, v@.len() as int) =~= v@);
    }
}

/// The decimal digit character for `d` (taken modulo nothing: `d` is 0 to 9).
pub open spec fn digit_char(d: int) -> char {
    if d == 0 {
        '0'
    } else if d == 1 {
        '1'
    } else if d == 2 {
        '2'
    } else if d == 3 {
        '3'
    } else if d == 4 {
        '4'
    } else if d == 5 {
        '5'
    } else if d == 6 {
        '6'
    } else if d == 7 {
        '7'
    } else if d == 8 {
        '8'
    } else {
        '9'
    }
}

/// A decimal digit.
pub open spec fn is_digit(c: char) -> bool {
    c == '0' || c == '1' || c == '2' || c == '3' || c == '4' || c == '5' || c == '6' || c == '7'
        || c == '8' || c == '9'
}

/// The value of a decimal digit.
pub open spec fn digit_val(c: char) -> int {
    if c == '0' {
        0
    } else if c == '1' {
        1
    } else if c == '2' {
        2
    } else if c == '3' {
        3
    } else if c == '4' {
        4
    } else if c == '5' {
        5
    } else if c == '6' {
        6
    } else if c == '7' {
        7
    } else if c == '8' {
        8
    } else {
        9
    }
}

/// The decimal representation of `n`, without leading zeros.
pub open spec fn decimal(n: nat) -> Seq<char>
    decreases n,
{
    if n < 10 {
        seq![digit_char(n as int)]
    } else {
        decimal(n / 10).push(digit_char((n % 10) as int))
    }
}

/// The number that a string of decimal digits denotes.
pub open spec fn digits_value(s: Seq<char>) -> int
    decreases s.len(),
{
    if s.len() == 0 {
        0
    } else {
        digits_value(s.drop_last()) * 10 + digit_val(s.last())
    }
}

/// Every character of `s` is a decimal digit.
pub open spec fn all_digits(s: Seq<char>) -> bool {
    forall|i: int| 0 <= i < s.len() ==> #[trigger] is_digit(s[i])
}

/// What `str::parse::<usize>` gives: an optional `+` sign, then one or
/// more decimal digits whose value fits in `usize`.
pub open spec fn parse_usize_spec(s: Seq<char>) -> Option<usize> {
    let d = if s.len() > 0 && s[0] == '+' {
        s.drop_first()
    } else {
        s
    };
    if d.len() > 0 && all_digits(d) && digits_value(d) <= usize::MAX {
        Some(digits_value(d) as usize)
    } else {
        None
    }
}

fn digit_of(d: usize) -> (c: char)
    requires
        d < 10,
    ensures
        c == digit_char(d as int),
{
    if d == 0 {
        '0'
    } else if d == 1 {
        '1'
    } else if d == 2 {
        '2'
    } else if d == 3 {
        '3'
    } else if d == 4 {
        '4'
    } else if d == 5 {
        '5'
    } else if d == 6 {
        '6'
    } else if d == 7 {
        '7'
    } else if d == 8 {
        '8'
    } else {
        '9'
    }
}

/// Appends the decimal representation of `n`.
pub fn push_decimal(s: &mut String, n: usize)
    ensures
        final(s)@ == old(s)@ + decimal(n as nat),
    decreases n,
{
    if n >= 10 {
        push_decimal(s, n / 10);
    }
    push_char(s, digit_of(n % 10));
    proof {
        if n >= 10 {
            assert(decimal(n as nat) == decimal((n / 10) as nat).push(digit_char((n % 10) as int)));
        }
    }
}

proof fn lemma_digit_roundtrip(d: int)
    requires
        0 <= d < 10,
    ensures
        is_digit(digit_char(d)),
        digit_val(digit_char(d)) == d,
{
}

/// Reading back a decimal representation gives the number.
pub proof fn lemma_decimal_value(n: nat)
    ensures
        decimal(n).len() > 0,
        all_digits(decimal(n)),
        digits_value(decimal(n)) == n,
        decimal(n)[0] != '+',
        forall|i: int| 0 <= i < decimal(n).len() ==> #[trigger] decimal(n)[i] != ',' && decimal(n)[i]
            != '\n',
    decreases n,
{
    if n < 10 {
        lemma_digit_roundtrip(n as int);
        assert(decimal(n).drop_last() =~= Seq::<char>::empty());
        assert(digits_value(Seq::<char>::empty()) == 0);
        assert(digits_value(decimal(n)) == digits_value(decimal(n).drop_last()) * 10 + digit_val(
            decimal(n).last(),
        ));
    } else {
        lemma_decimal_value(n / 10);
        lemma_digit_roundtrip((n % 10) as int);
        let d = decimal(n);
        assert(d.drop_last() =~= decimal(n / 10));
        assert(d.last() == digit_char((n % 10) as int));
        assert((n / 10) * 10 + n % 10 == n) by (nonlinear_arith);
        assert(digits_value(d) == digits_value(d.drop_last()) * 10 + digit_val(d.last()));
        assert forall|i: int| 0 <= i < d.len() implies #[trigger] is_digit(d[i]) by {
            if i < d.len() - 1 {
                assert(d[i] == decimal(n / 10)[i]);
            }
        }
        assert forall|i: int| 0 <= i < d.len() implies #[trigger] d[i] != ',' && d[i] != '\n' by {
            if i < d.len() - 1 {
                assert(d[i] == decimal(n / 10)[i]);
            }
        }
    }
}

/// `str::parse::<usize>` of std, on the characters `s`.
pub fn parse_usize(s: &[char]) -> (r: Option<usize>)
    ensures
        r == parse_usize_spec(s@),
{
    let n = s.len();
    let start: usize = if n > 0 && s[0] == '+' {
        1
    } else {
        0
    };
    let ghost d = if s@.len() > 0 && s@[0] == '+' {
        s@.drop_first()
    } else {
        s@
    };
    proof {
        assert(d =~= s@.subrange(start as int, n as int));
    }
    if start == n {
        return None;
    }
    let mut v: usize = 0;
    let mut i: usize = start;
    while i < n
        invariant
            start <= i <= n,
            n == s@.len(),
            d == s@.subrange(start as int, n as int),
            d == (if s@.len() > 0 && s@[0] == '+' {
                s@.drop_first()
            } else {
                s@
            }),
            all_digits(d.take(i - start)),
            v == digits_value(d.take(i - start)),
        decreases n - i,
    {
        let c = s[i];
        let dv: usize = if c == '0' {
            0
        } else if c == '1' {
            1
        } else if c == '2' {
            2
        } else if c == '3' {
            3
        } else if c == '4' {
            4
        } else if c == '5' {
            5
        } else if c == '6' {
            6
        } else if c == '7' {
            7
        } else if c == '8' {
            8
        } else if c == '9' {
            9
        } else {
            proof {
                assert(d[i - start] == c);
                assert(!is_digit(d[i - start]));
            }
            return None;
        };
        proof {
            assert(d.take(i - start + 1).drop_last() =~= d.take(i - start));
            assert(d.take(i - start + 1).last() == c);
            assert forall|q: int| 0 <= q < i - start + 1 implies #[trigger] is_digit(
                d.take(i - start + 1)[q],
            ) by {
                if q < i - start {
                    assert(d.take(i - start + 1)[q] == d.take(i - start)[q]);
                }
            }
        }
        if v > (usize::MAX - dv) / 10 {
            proof {
                assert(digits_value(d.take(i - start + 1)) > usize::MAX) by (nonlinear_arith)
                    requires
                        digits_value(d.take(i - start + 1)) == v * 10 + dv,
                        v > (usize::MAX - dv) / 10,
                        dv < 10,
                ;
                lemma_digits_mono(d, i - start + 1);
            }
            return None;
        }
        proof {
            assert(v * 10 + dv <= usize::MAX) by (nonlinear_arith)
                requires
                    v <= (usize::MAX - dv) / 10,
                    dv < 10,
            ;
        }
        v = v * 10 + dv;
        i = i + 1;
    }
    proof {
        assert(d.take(n - start) =~= d);
    }
    Some(v)
}

/// Among all-digit strings, a longer prefix has at least the value of a
/// shorter one.
proof fn lemma_digits_mono(d: Seq<char>, k: int)
    requires
        0 <= k <= d.len(),
    ensures
        all_digits(d) ==> digits_value(d) >= digits_value(d.take(k)),
    decreases d.len() - k,
{
    if k < d.len() && all_digits(d) {
        lemma_digits_mono(d, k + 1);
        assert(d.take(k + 1).drop_last() =~= d.take(k));
        assert(is_digit(d[k]));
        assert(digits_value(d.take(k)) >= 0) by {
            lemma_digits_nonneg(d.take(k));
        }
    } else if k == d.len() {
        assert(d.take(k) =~= d);
    }
}

proof fn lemma_digits_nonneg(d: Seq<char>)
    ensures
        digits_value(d) >= 0,
    decreases d.len(),
{
    if d.len() > 0 {
        lemma_digits_nonneg(d.drop_last());
    }
}


/// The characters with the Unicode `White_Space` property, which
/// `char::is_whitespace` accepts and `str::trim` removes.
pub open spec fn is_ws(c: char) -> bool {
    ||| c == '\t' || c == '\n' || c == '\u{0B}' || c == '\u{0C}' || c == '\r' || c == ' '
    ||| c == '\u{85}' || c == '\u{A0}' || c == '\u{1680}'
    ||| c == '\u{2000}' || c == '\u{2001}' || c == '\u{2002}' || c == '\u{2003}' || c == '\u{2004}'
    ||| c == '\u{2005}' || c == '\u{2006}' || c == '\u{2007}' || c == '\u{2008}' || c == '\u{2009}'
    ||| c == '\u{200A}' || c == '\u{2028}' || c == '\u{2029}' || c == '\u{202F}' || c == '\u{205F}'
    ||| c == '\u{3000}'
}

/// The characters that a trim removes: white space, or the double quote.
pub open spec fn strip_char(c: char, quotes: bool) -> bool {
    if quotes {
        c == '"'
    } else {
        is_ws(c)
    }
}

/// `s` without its leading stripped characters.
pub open spec fn trim_start(s: Seq<char>, quotes: bool) -> Seq<char>
    decreases s.len(),
{
    if s.len() > 0 && strip_char(s[0], quotes) {
        trim_start(s.drop_first(), quotes)
    } else {
        s
    }
}

/// `s` without its trailing stripped characters.
pub open spec fn trim_end(s: Seq<char>, quotes: bool) -> Seq<char>
    decreases s.len(),
{
    if s.len() > 0 && strip_char(s.last(), quotes) {
        trim_end(s.drop_last(), quotes)
    } else {
        s
    }
}

/// `str::trim` (white space) or `str::trim_matches('"')` (quotes).
pub open spec fn trim(s: Seq<char>, quotes: bool) -> Seq<char> {
    trim_end(trim_start(s, quotes), quotes)
}

fn strips(c: char, quotes: bool) -> (r: bool)
    ensures
        r == strip_char(c, quotes),
{
    if quotes {
        c == '"'
    } else {
        c == '\t' || c == '\n' || c == '\u{0B}' || c == '\u{0C}' || c == '\r' || c == ' ' || c
            == '\u{85}' || c == '\u{A0}' || c == '\u{1680}' || c == '\u{2000}' || c == '\u{2001}'
            || c == '\u{2002}' || c == '\u{2003}' || c == '\u{2004}' || c == '\u{2005}' || c
            == '\u{2006}' || c == '\u{2007}' || c == '\u{2008}' || c == '\u{2009}' || c == '\u{200A}'
            || c == '\u{2028}' || c == '\u{2029}' || c == '\u{202F}' || c == '\u{205F}' || c
            == '\u{3000}'
    }
}

/// The characters `s[a..b]` as a vector.
pub fn slice_chars(s: &[char], a: usize, b: usize) -> (v: Vec<char>)
    requires
        a <= b <= s@.len(),
    ensures
        v@ == s@.subrange(a as int, b as int),
{
    let mut v: Vec<char> = Vec::new();
    let mut i = a;
    while i < b
        invariant
            a <= i <= b <= s@.len(),
            v@ == s@.subrange(a as int, i as int),
        decreases b - i,
    {
        v.push(s[i]);
        proof {
            assert(v@ =~= s@.subrange(a as int, i + 1));
        }
        i = i + 1;
    }
    v
}

/// `s` with the stripped characters removed from both ends.
pub fn trim_chars(s: &[char], quotes: bool) -> (v: Vec<char>)
    ensures
        v@ == trim(s@, quotes),
{
    let n = s.len();
    let mut a: usize = 0;
    proof {
        assert(s@.subrange(0, n as int) =~= s@);
    }
    while a < n && strips(s[a], quotes)
        invariant
            a <= n,
            n == s@.len(),
            trim_start(s@, quotes) == trim_start(s@.subrange(a as int, n as int), quotes),
        decreases n - a,
    {
        proof {
            assert(s@.subrange(a as int, n as int).drop_first() =~= s@.subrange(a + 1, n as int));
        }
        a = a + 1;
    }
    proof {
        if a == n {
            assert(s@.subrange(a as int, n as int) =~= Seq::<char>::empty());
        }
    }
    let mut b: usize = n;
    while b > a && strips(s[b - 1], quotes)
        invariant
            a <= b <= n,
            n == s@.len(),
            trim_start(s@, quotes) == s@.subrange(a as int, n as int),
            trim_end(s@.subrange(a as int, n as int), quotes) == trim_end(
                s@.subrange(a as int, b as int),
                quotes,
            ),
        decreases b - a,
    {
        proof {
            assert(s@.subrange(a as int, b as int).drop_last() =~= s@.subrange(a as int, b - 1));
        }
        b = b - 1;
    }
    slice_chars(s, a, b)
}

/// The pieces of `s` between the occurrences of `d` (as `str::split`).
pub open spec fn split_on(s: Seq<char>, d: char) -> Seq<Seq<char>>
    decreases s.len(),
{
    if s.len() == 0 {
        seq![Seq::<char>::empty()]
    } else {
        let prev = split_on(s.drop_last(), d);
        if s.last() == d {
            prev.push(Seq::<char>::empty())
        } else {
            prev.update(prev.len() - 1, prev.last().push(s.last()))
        }
    }
}

/// Splitting gives at least one piece.
pub proof fn lemma_split_nonempty(s: Seq<char>, d: char)
    ensures
        split_on(s, d).len() > 0,
    decreases s.len(),
{
    if s.len() > 0 {
        lemma_split_nonempty(s.drop_last(), d);
    }
}

/// `str::split` on one character: the pieces of `s` between the `d`s.
pub fn split_chars(s: &[char], d: char) -> (pieces: Vec<Vec<char>>)
    ensures
        pieces@.len() == split_on(s@, d).len(),
        forall|i: int| 0 <= i < pieces@.len() ==> #[trigger] pieces@[i]@ == split_on(s@, d)[i],
{
    let mut done: Vec<Vec<char>> = Vec::new();
    let mut cur: Vec<char> = Vec::new();
    let mut i: usize = 0;
    proof {
        assert(s@.take(0) =~= Seq::<char>::empty());
    }
    while i < s.len()
        invariant
            i <= s@.len(),
            split_on(s@.take(i as int), d).len() == done@.len() + 1,
            forall|q: int| 0 <= q < done@.len() ==> #[trigger] done@[q]@ == split_on(s@.take(i as int), d)[q],
            cur@ == split_on(s@.take(i as int), d).last(),
        decreases s@.len() - i,
    {
        proof {
            assert(s@.take(i + 1).drop_last() =~= s@.take(i as int));
            lemma_split_nonempty(s@.take(i as int), d);
        }
        if s[i] == d {
            done.push(cur);
            cur = Vec::new();
        } else {
            cur.push(s[i]);
        }
        i = i + 1;
    }
    proof {
        assert(s@.take(s@.len() as int) =~= s@);
    }
    done.push(cur);
    done
}


/// A delimiter at the end starts a new, empty piece.
pub proof fn lemma_split_push_delim(s: Seq<char>, d: char)
    ensures
        split_on(s.push(d), d) == split_on(s, d).push(Seq::<char>::empty()),
{
    assert(s.push(d).drop_last() =~= s);
}

/// Appending text without the delimiter extends the last piece.
pub proof fn lemma_split_append(s: Seq<char>, t: Seq<char>, d: char)
    requires
        forall|i: int| 0 <= i < t.len() ==> #[trigger] t[i] != d,
    ensures
        split_on(s + t, d) == split_on(s, d).update(
            split_on(s, d).len() - 1,
            split_on(s, d).last() + t,
        ),
    decreases t.len(),
{
    lemma_split_nonempty(s, d);
    let sp = split_on(s, d);
    if t.len() == 0 {
        assert(s + t =~= s);
        assert(sp.last() + t =~= sp.last());
        assert(sp.update(sp.len() - 1, sp.last()) =~= sp);
    } else {
        let t2 = t.drop_last();
        assert forall|i: int| 0 <= i < t2.len() implies #[trigger] t2[i] != d by {
            assert(t2[i] == t[i]);
        }
        lemma_split_append(s, t2, d);
        assert((s + t).drop_last() =~= s + t2);
        assert((s + t).last() == t.last());
        assert(t.last() != d);
        let sp2 = split_on(s + t2, d);
        assert(sp2 == sp.update(sp.len() - 1, sp.last() + t2));
        assert(sp2.last() == sp.last() + t2);
        assert((sp.last() + t2).push(t.last()) =~= sp.last() + t);
        assert(sp2.update(sp2.len() - 1, sp2.last().push(t.last())) =~= sp.update(
            sp.len() - 1,
            sp.last() + t,
        ));
    }
}

/// Text after a delimiter splits on its own: the pieces of `u + v`, where
/// `u` ends with the delimiter, are those of `u` but its last, empty one,
/// then those of `v`.
pub proof fn lemma_split_after_delim(u: Seq<char>, v: Seq<char>, d: char)
    requires
        u.len() > 0,
        u.last() == d,
    ensures
        split_on(u + v, d) == split_on(u, d).drop_last() + split_on(v, d),
    decreases v.len(),
{
    let su = split_on(u, d);
    assert(u.drop_last().push(d) =~= u);
    if v.len() == 0 {
        assert(u + v =~= u);
        assert(su.drop_last() + split_on(v, d) =~= su);
    } else {
        let v2 = v.drop_last();
        lemma_split_after_delim(u, v2, d);
        assert((u + v).drop_last() =~= u + v2);
        assert((u + v).last() == v.last());
        lemma_split_nonempty(v2, d);
        let a = su.drop_last();
        let b = split_on(v2, d);
        if v.last() == d {
            assert((a + b).push(Seq::<char>::empty()) =~= a + b.push(Seq::<char>::empty()));
        } else {
            assert((a + b).update((a + b).len() - 1, (a + b).last().push(v.last())) =~= a + b.update(
                b.len() - 1,
                b.last().push(v.last()),
            ));
        }
    }
}

/// `trim` leaves alone a string that neither starts nor ends with a
/// stripped character.
pub proof fn lemma_trim_noop(s: Seq<char>, quotes: bool)
    requires
        s.len() > 0 ==> !strip_char(s[0], quotes) && !strip_char(s.last(), quotes),
    ensures
        trim(s, quotes) == s,
{
}


/// What `str::parse::<u64>` gives: an optional `+` sign, then one or more
/// decimal digits whose value fits in `u64`.
pub open spec fn parse_u64_spec(s: Seq<char>) -> Option<u64> {
    let d = if s.len() > 0 && s[0] == '+' {
        s.drop_first()
    } else {
        s
    };
    if d.len() > 0 && all_digits(d) && digits_value(d) <= u64::MAX {
        Some(digits_value(d) as u64)
    } else {
        None
    }
}

/// `str::parse::<u64>` of std, on the characters `s`.
pub fn parse_u64(s: &[char]) -> (r: Option<u64>)
    ensures
        r == parse_u64_spec(s@),
{
    let n = s.len();
    let start: usize = if n > 0 && s[0] == '+' {
        1
    } else {
        0
    };
    let ghost d = if s@.len() > 0 && s@[0] == '+' {
        s@.drop_first()
    } else {
        s@
    };
    proof {
        assert(d =~= s@.subrange(start as int, n as int));
    }
    if start == n {
        return None;
    }
    let mut v: u64 = 0;
    let mut i: usize = start;
    while i < n
        invariant
            start <= i <= n,
            n == s@.len(),
            d == s@.subrange(start as int, n as int),
            d == (if s@.len() > 0 && s@[0] == '+' {
                s@.drop_first()
            } else {
                s@
            }),
            all_digits(d.take(i - start)),
            v == digits_value(d.take(i - start)),
        decreases n - i,
    {
        let c = s[i];
        let dv: u64 = if c == '0' {
            0
        } else if c == '1' {
            1
        } else if c == '2' {
            2
        } else if c == '3' {
            3
        } else if c == '4' {
            4
        } else if c == '5' {
            5
        } else if c == '6' {
            6
        } else if c == '7' {
            7
        } else if c == '8' {
            8
        } else if c == '9' {
            9
        } else {
            proof {
                assert(d[i - start] == c);
                assert(!is_digit(d[i - start]));
            }
            return None;
        };
        proof {
            assert(d.take(i - start + 1).drop_last() =~= d.take(i - start));
            assert(d.take(i - start + 1).last() == c);
            assert forall|q: int| 0 <= q < i - start + 1 implies #[trigger] is_digit(
                d.take(i - start + 1)[q],
            ) by {
                if q < i - start {
                    assert(d.take(i - start + 1)[q] == d.take(i - start)[q]);
                }
            }
        }
        if v > (u64::MAX - dv) / 10 {
            proof {
                assert(digits_value(d.take(i - start + 1)) > u64::MAX) by (nonlinear_arith)
                    requires
                        digits_value(d.take(i - start + 1)) == v * 10 + dv,
                        v > (u64::MAX - dv) / 10,
                        dv < 10,
                ;
                lemma_digits_mono(d, i - start + 1);
            }
            return None;
        }
        proof {
            assert(v * 10 + dv <= u64::MAX) by (nonlinear_arith)
                requires
                    v <= (u64::MAX - dv) / 10,
                    dv < 10,
            ;
        }
        v = v * 10 + dv;
        i = i + 1;
    }
    proof {
        assert(d.take(n - start) =~= d);
    }
    Some(v)
}

/// Appends the decimal representation of `n`.
pub fn push_decimal_u64(s: &mut String, n: u64)
    ensures
        final(s)@ == old(s)@ + decimal(n as nat),
    decreases n,
{
    if n >= 10 {
        push_decimal_u64(s, n / 10);
    }
    push_char(s, digit_of((n % 10) as usize));
    proof {
        if n >= 10 {
            assert(decimal(n as nat) == decimal((n / 10) as nat).push(digit_char((n % 10) as int)));
        }
    }
}

/// Lexicographic order of strings by code point, which is the byte order
/// of their UTF-8 encodings (the order of `str`).
pub open spec fn lex_lt(a: Seq<char>, b: Seq<char>) -> bool
    decreases a.len(),
{
    if a.len() == 0 {
        b.len() > 0
    } else if b.len() == 0 {
        false
    } else if a[0] != b[0] {
        (a[0] as int) < (b[0] as int)
    } else {
        lex_lt(a.drop_first(), b.drop_first())
    }
}

proof fn lemma_lex_irrefl(a: Seq<char>)
    ensures
        !lex_lt(a, a),
    decreases a.len(),
{
    if a.len() > 0 {
        lemma_lex_irrefl(a.drop_first());
    }
}

proof fn lemma_lex_total(a: Seq<char>, b: Seq<char>)
    ensures
        a != b ==> lex_lt(a, b) || lex_lt(b, a),
        lex_lt(a, b) ==> !lex_lt(b, a),
    decreases a.len(),
{
    if a.len() > 0 && b.len() > 0 {
        if a[0] != b[0] {
            assert((a[0] as int) != (b[0] as int));
        }
        lemma_lex_total(a.drop_first(), b.drop_first());
        if a[0] == b[0] && a.drop_first() == b.drop_first() {
            assert(a.len() == b.len());
            assert forall|i: int| 0 <= i < a.len() implies a[i] == b[i] by {
                if i > 0 {
                    assert(a[i] == a.drop_first()[i - 1]);
                    assert(b[i] == b.drop_first()[i - 1]);
                }
            }
            assert(a =~= b);
        }
    }
    if a.len() == 0 && b.len() == 0 {
        assert(a =~= b);
    }
}

proof fn lemma_lex_trans(a: Seq<char>, b: Seq<char>, c: Seq<char>)
    ensures
        lex_lt(a, b) && lex_lt(b, c) ==> lex_lt(a, c),
    decreases a.len(),
{
    if a.len() > 0 && b.len() > 0 && c.len() > 0 {
        lemma_lex_trans(a.drop_first(), b.drop_first(), c.drop_first());
    }
}

/// `lex_lt` is a strict total order.
pub proof fn lemma_lex_order(a: Seq<char>, b: Seq<char>, c: Seq<char>)
    ensures
        !lex_lt(a, a),
        lex_lt(a, b) ==> !lex_lt(b, a),
        a != b ==> lex_lt(a, b) || lex_lt(b, a),
        lex_lt(a, b) && lex_lt(b, c) ==> lex_lt(a, c),
{
    lemma_lex_irrefl(a);
    lemma_lex_total(a, b);
    lemma_lex_trans(a, b, c);
}

/// Whether `a` comes before `b` in the order of `str`.
pub fn lex_less(a: &[char], b: &[char]) -> (r: bool)
    ensures
        r == lex_lt(a@, b@),
{
    let mut i: usize = 0;
    proof {
        assert(a@.skip(0) =~= a@);
        assert(b@.skip(0) =~= b@);
    }
    while i < a.len() && i < b.len() && a[i] == b[i]
        invariant
            i <= a@.len(),
            i <= b@.len(),
            lex_lt(a@, b@) == lex_lt(a@.skip(i as int), b@.skip(i as int)),
        decreases a@.len() - i,
    {
        proof {
            assert(a@.skip(i as int).drop_first() =~= a@.skip(i + 1));
            assert(b@.skip(i as int).drop_first() =~= b@.skip(i + 1));
        }
        i = i + 1;
    }
    proof {
        if i < a.len() && i < b.len() {
            assert(a@.skip(i as int)[0] == a@[i as int]);
            assert(b@.skip(i as int)[0] == b@[i as int]);
        }
    }
    if i == a.len() {
        i < b.len()
    } else if i == b.len() {
        false
    } else {
        a[i] < b[i]
    }
}

} // verus!
