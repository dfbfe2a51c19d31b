//! The `.non` text format of nonograms: a `title` line, a `rows` section
//! and a `columns` section of comma-separated clues, and an optional `goal`
//! section with one line of `0`/`1` cells per row.
use vstd::prelude::*;

use crate::puzzle::{bool_rows, clue_rows, Puzzle, PuzzleView};
use crate::text::{
    chars_of, decimal, is_digit, lemma_decimal_value, lemma_split_append, lemma_split_nonempty,
    lemma_split_after_delim, lemma_split_push_delim, lemma_trim_noop, parse_usize, parse_usize_spec, push_chars,
    push_decimal, split_chars, split_on, strip_char, trim, trim_chars, trim_end, trim_start, is_ws,
};

verus! {

broadcast use vstd::string::group_string_axioms;

/// The section of a `.non` file that the following lines belong to.
#[derive(Clone, Copy, PartialEq, Eq, Structural)]
pub enum Section {
    Header,
    Rows,
    Columns,
    Goal,
}

/// What has been read of a `.non` file so far.
pub struct ParseState {
    pub name: Seq<char>,
    pub rows: Seq<Seq<usize>>,
    pub cols: Seq<Seq<usize>>,
    pub goal: Seq<Seq<bool>>,
    pub section: Section,
}

/// The keyword of the title line.
pub open spec fn kw_title() -> Seq<char> {
    seq!['t', 'i', 't', 'l', 'e']
}

/// The keyword that opens the row clues.
pub open spec fn kw_rows() -> Seq<char> {
    seq!['r', 'o', 'w', 's']
}

/// The keyword that opens the column clues.
pub open spec fn kw_columns() -> Seq<char> {
    seq!['c', 'o', 'l', 'u', 'm', 'n', 's']
}

/// The keyword that opens the picture.
pub open spec fn kw_goal() -> Seq<char> {
    seq!['g', 'o', 'a', 'l']
}

/// The error for a clue piece that is not a number.
pub open spec fn msg_invalid_clue(tok: Seq<char>) -> Seq<char> {
    "Invalid clue value: '"@ + tok + "'"@
}

/// The error for a picture line without a `0` or `1`.
pub open spec fn msg_invalid_goal_row(line: Seq<char>) -> Seq<char> {
    "Empty or invalid goal row: '"@ + line + "'"@
}

/// The error for a file without row clues.
pub open spec fn msg_no_rows() -> Seq<char> {
    "No row clues found in puzzle file"@
}

/// The error for a file without column clues.
pub open spec fn msg_no_columns() -> Seq<char> {
    "No column clues found in puzzle file"@
}

/// The error for a picture with another number of rows than the clues.
pub open spec fn msg_goal_rows(goal: nat, rows: nat) -> Seq<char> {
    "Goal has "@ + decimal(goal) + " rows but puzzle has "@ + decimal(rows) + " rows"@
}

/// The error for a picture row of another width than the clues.
pub open spec fn msg_goal_row_len(i: nat, len: nat, cols: nat) -> Seq<char> {
    "Goal row "@ + decimal(i) + " has "@ + decimal(len) + " cells but puzzle has "@ + decimal(cols)
        + " columns"@
}

/// The clue values of the comma-separated pieces `ps`, each trimmed, or the
/// error for the first piece that is not a number.
pub open spec fn clue_values(ps: Seq<Seq<char>>) -> Result<Seq<usize>, Seq<char>>
    decreases ps.len(),
{
    if ps.len() == 0 {
        Ok(seq![])
    } else {
        match clue_values(ps.drop_last()) {
            Err(e) => Err(e),
            Ok(v) => match parse_usize_spec(trim(ps.last(), false)) {
                Some(x) => Ok(v.push(x)),
                None => Err(msg_invalid_clue(trim(ps.last(), false))),
            },
        }
    }
}

/// A line of a clue section: numbers separated by commas.
pub open spec fn clue_line(t: Seq<char>) -> Result<Seq<usize>, Seq<char>> {
    clue_values(split_on(t, ','))
}

/// The cells of a goal line: its `0` and `1` characters, other ones ignored.
pub open spec fn goal_bits(t: Seq<char>) -> Seq<bool>
    decreases t.len(),
{
    if t.len() == 0 {
        seq![]
    } else if t.last() == '0' || t.last() == '1' {
        goal_bits(t.drop_last()).push(t.last() == '1')
    } else {
        goal_bits(t.drop_last())
    }
}

/// The state before the first line: no name but `Untitled`, no clue, no
/// picture, in the header.
pub open spec fn parse_init() -> ParseState {
    ParseState {
        name: "Untitled"@,
        rows: seq![],
        cols: seq![],
        goal: seq![],
        section: Section::Header,
    }
}

/// Reading one line. Lines are trimmed; empty lines and `#` comments are
/// skipped; `title` sets the name (trimmed, then stripped of quotes);
/// `rows`, `columns` and `goal` open a section; other header lines are
/// ignored.
pub open spec fn parse_step(st: ParseState, raw: Seq<char>) -> Result<ParseState, Seq<char>> {
    let t = trim(raw, false);
    if t.len() == 0 || t[0] == '#' {
        Ok(st)
    } else if t.len() >= 5 && t.take(5) == kw_title() {
        Ok(ParseState { name: trim(trim(t.skip(5), false), true), ..st })
    } else if t == kw_rows() {
        Ok(ParseState { section: Section::Rows, ..st })
    } else if t == kw_columns() {
        Ok(ParseState { section: Section::Columns, ..st })
    } else if t == kw_goal() {
        Ok(ParseState { section: Section::Goal, ..st })
    } else {
        match st.section {
            Section::Header => Ok(st),
            Section::Rows => match clue_line(t) {
                Ok(c) => Ok(ParseState { rows: st.rows.push(c), ..st }),
                Err(e) => Err(e),
            },
            Section::Columns => match clue_line(t) {
                Ok(c) => Ok(ParseState { cols: st.cols.push(c), ..st }),
                Err(e) => Err(e),
            },
            Section::Goal => if goal_bits(t).len() == 0 {
                Err(msg_invalid_goal_row(t))
            } else {
                Ok(ParseState { goal: st.goal.push(goal_bits(t)), ..st })
            },
        }
    }
}

/// Reading lines in order from a state, stopping at the first error.
pub open spec fn parse_lines(r: Result<ParseState, Seq<char>>, lines: Seq<Seq<char>>) -> Result<
    ParseState,
    Seq<char>,
>
    decreases lines.len(),
{
    if lines.len() == 0 {
        r
    } else {
        match r {
            Err(e) => Err(e),
            Ok(st) => parse_lines(parse_step(st, lines[0]), lines.drop_first()),
        }
    }
}

/// The first goal row, from `i` on, whose length is not `cols`.
pub open spec fn first_bad_row(goal: Seq<Seq<bool>>, cols: nat, i: int) -> Option<int>
    decreases goal.len() - i,
{
    if i < 0 || i >= goal.len() {
        None
    } else if goal[i].len() != cols {
        Some(i)
    } else {
        first_bad_row(goal, cols, i + 1)
    }
}

/// The puzzle that the whole file describes, once all lines are read.
pub open spec fn parse_finish(st: ParseState) -> Result<PuzzleView, Seq<char>> {
    let rows = st.rows.len();
    let cols = st.cols.len();
    if rows == 0 {
        Err(msg_no_rows())
    } else if cols == 0 {
        Err(msg_no_columns())
    } else if st.goal.len() > 0 && st.goal.len() != rows {
        Err(msg_goal_rows(st.goal.len(), rows))
    } else if st.goal.len() > 0 && first_bad_row(st.goal, cols, 0) is Some {
        let i = first_bad_row(st.goal, cols, 0)->0;
        Err(msg_goal_row_len(i as nat, st.goal[i].len(), cols))
    } else {
        Ok(
            PuzzleView {
                name: st.name,
                rows,
                cols,
                solution: if st.goal.len() > 0 {
                    Some(st.goal)
                } else {
                    None
                },
                row_clues: st.rows,
                col_clues: st.cols,
            },
        )
    }
}

/// The result of reading a whole `.non` text, line by line.
pub open spec fn parse_non_spec(input: Seq<char>) -> Result<PuzzleView, Seq<char>> {
    match parse_lines(Ok(parse_init()), split_on(input, '\n')) {
        Err(e) => Err(e),
        Ok(st) => parse_finish(st),
    }
}

proof fn lemma_parse_lines_push(r: Result<ParseState, Seq<char>>, a: Seq<Seq<char>>, l: Seq<char>)
    ensures
        parse_lines(r, a.push(l)) == match parse_lines(r, a) {
            Err(e) => Err(e),
            Ok(st) => parse_step(st, l),
        },
    decreases a.len(),
{
    if a.len() == 0 {
        assert(a.push(l).drop_first() =~= Seq::<Seq<char>>::empty());
        assert(a.push(l)[0] == l);
        match r {
            Err(e) => {},
            Ok(st) => {
                assert(parse_lines(parse_step(st, l), Seq::<Seq<char>>::empty()) == parse_step(st, l));
            },
        }
    } else {
        assert(a.push(l).drop_first() =~= a.drop_first().push(l));
        match r {
            Err(e) => {},
            Ok(st) => {
                lemma_parse_lines_push(parse_step(st, a[0]), a.drop_first(), l);
            },
        }
    }
}

/// Reading a sequence of lines in two parts.
pub proof fn lemma_parse_lines_concat(
    r: Result<ParseState, Seq<char>>,
    a: Seq<Seq<char>>,
    b: Seq<Seq<char>>,
)
    ensures
        parse_lines(r, a + b) == parse_lines(parse_lines(r, a), b),
    decreases a.len(),
{
    if a.len() == 0 {
        assert(a + b =~= b);
    } else {
        assert((a + b).drop_first() =~= a.drop_first() + b);
        match r {
            Err(e) => {
                lemma_parse_lines_err(e, b);
            },
            Ok(st) => {
                lemma_parse_lines_concat(parse_step(st, a[0]), a.drop_first(), b);
            },
        }
    }
}

/// A comment line, one whose trimmed text starts with `#`, is passed over
/// whatever section is open: reading it leaves the state as it was.
pub proof fn lemma_comment_line_skipped(st: ParseState, l: Seq<char>)
    requires
        trim(l, false).len() > 0,
        trim(l, false)[0] == '#',
    ensures
        parse_step(st, l) == Ok::<ParseState, Seq<char>>(st),
{
}

/// Putting a comment line anywhere among the lines of a `.non` text does not
/// change what they read to.
pub proof fn lemma_comment_line_anywhere(
    r: Result<ParseState, Seq<char>>,
    a: Seq<Seq<char>>,
    l: Seq<char>,
    b: Seq<Seq<char>>,
)
    requires
        trim(l, false).len() > 0,
        trim(l, false)[0] == '#',
    ensures
        parse_lines(r, a + seq![l] + b) == parse_lines(r, a + b),
{
    lemma_parse_lines_concat(r, a + seq![l], b);
    lemma_parse_lines_concat(r, a, seq![l]);
    lemma_parse_lines_concat(r, a, b);
    match parse_lines(r, a) {
        Err(e) => {
            assert(parse_lines(Err::<ParseState, Seq<char>>(e), seq![l]) == Err::<ParseState, Seq<char>>(e));
        },
        Ok(st) => {
            lemma_comment_line_skipped(st, l);
            assert(seq![l].drop_first() =~= Seq::<Seq<char>>::empty());
            assert(parse_lines(Ok::<ParseState, Seq<char>>(st), seq![l]) == parse_lines(
                parse_step(st, l),
                Seq::<Seq<char>>::empty(),
            ));
        },
    }
}

/// Putting a comment line into a `.non` text, at the start of any line,
/// does not change what the text reads to.
pub proof fn lemma_comment_in_text(x: Seq<char>, l: Seq<char>, y: Seq<char>)
    requires
        x.len() == 0 || x.last() == '\n',
        forall|i: int| 0 <= i < l.len() ==> #[trigger] l[i] != '\n',
        trim(l, false).len() > 0,
        trim(l, false)[0] == '#',
    ensures
        parse_non_spec(x + l + seq!['\n'] + y) == parse_non_spec(x + y),
{
    let d = '\n';
    let sx = split_on(x, d);
    lemma_split_nonempty(x, d);
    assert(sx.last() =~= Seq::<char>::empty()) by {
        if x.len() > 0 {
            assert(sx == split_on(x.drop_last(), d).push(Seq::<char>::empty()));
        }
    }
    lemma_split_append(x, l, d);
    assert(Seq::<char>::empty() + l =~= l);
    assert(split_on(x + l, d) =~= sx.drop_last().push(l));
    lemma_split_push_delim(x + l, d);
    let u = x + l + seq![d];
    assert((x + l).push(d) =~= u);
    lemma_split_after_delim(u, y, d);
    assert(split_on(u, d).drop_last() =~= sx.drop_last().push(l));
    assert(split_on(u + y, d) =~= sx.drop_last() + seq![l] + split_on(y, d));
    if x.len() == 0 {
        assert(x + y =~= y);
        assert(sx.drop_last() =~= Seq::<Seq<char>>::empty());
        assert(split_on(x + y, d) =~= sx.drop_last() + split_on(y, d));
    } else {
        lemma_split_after_delim(x, y, d);
    }
    lemma_comment_line_anywhere(Ok(parse_init()), sx.drop_last(), l, split_on(y, d));
}

proof fn lemma_parse_lines_err(e: Seq<char>, b: Seq<Seq<char>>)
    ensures
        parse_lines(Err(e), b) == Err::<ParseState, Seq<char>>(e),
{
}

fn word_eq(t: &[char], w: &[char]) -> (r: bool)
    ensures
        r == (t@ == w@),
{
    if t.len() != w.len() {
        return false;
    }
    let mut i: usize = 0;
    while i < t.len()
        invariant
            i <= t@.len(),
            t@.len() == w@.len(),
            forall|q: int| 0 <= q < i ==> t@[q] == w@[q],
        decreases t@.len() - i,
    {
        if t[i] != w[i] {
            proof {
                assert(t@[i as int] != w@[i as int]);
            }
            return false;
        }
        i = i + 1;
    }
    proof {
        assert(t@ =~= w@);
    }
    true
}

/// The clue values of one line of a clue section.
fn parse_clue_line(line: &[char]) -> (r: Result<Vec<usize>, String>)
    ensures
        match r {
            Ok(v) => clue_line(line@) == Ok::<Seq<usize>, Seq<char>>(v@),
            Err(e) => clue_line(line@) == Err::<Seq<usize>, Seq<char>>(e@),
        },
{
    let pieces = split_chars(line, ',');
    let ghost ps = split_on(line@, ',');
    let mut out: Vec<usize> = Vec::new();
    let mut i: usize = 0;
    proof {
        assert(ps.take(0) =~= Seq::<Seq<char>>::empty());
    }
    while i < pieces.len()
        invariant
            i <= pieces@.len(),
            ps == split_on(line@, ','),
            pieces@.len() == ps.len(),
            forall|q: int| 0 <= q < pieces@.len() ==> #[trigger] pieces@[q]@ == ps[q],
            clue_values(ps.take(i as int)) == Ok::<Seq<usize>, Seq<char>>(out@),
        decreases pieces@.len() - i,
    {
        let tok = trim_chars(pieces[i].as_slice(), false);
        proof {
            assert(ps.take(i + 1).drop_last() =~= ps.take(i as int));
            assert(ps.take(i + 1).last() == ps[i as int]);
        }
        match parse_usize(tok.as_slice()) {
            Some(x) => {
                out.push(x);
            },
            None => {
                let mut e = String::from_str("Invalid clue value: '");
                push_chars(&mut e, tok.as_slice());
                e.append("'");
                proof {
                    assert(trim(ps[i as int], false) == tok@);
                    assert(clue_values(ps.take(i + 1)) == Err::<Seq<usize>, Seq<char>>(
                        msg_invalid_clue(tok@),
                    ));
                    lemma_clue_values_err(ps, i as int + 1);
                }
                return Err(e);
            },
        }
        i = i + 1;
    }
    proof {
        assert(ps.take(ps.len() as int) =~= ps);
    }
    Ok(out)
}

/// An error in a prefix of the pieces is the error of all of them.
proof fn lemma_clue_values_err(ps: Seq<Seq<char>>, k: int)
    requires
        0 <= k <= ps.len(),
        clue_values(ps.take(k)) is Err,
    ensures
        clue_values(ps) == clue_values(ps.take(k)),
    decreases ps.len() - k,
{
    if k < ps.len() {
        assert(ps.take(k + 1).drop_last() =~= ps.take(k));
        lemma_clue_values_err(ps, k + 1);
    } else {
        assert(ps.take(k) =~= ps);
    }
}

fn goal_line_bits(t: &[char]) -> (v: Vec<bool>)
    ensures
        v@ == goal_bits(t@),
{
    let mut v: Vec<bool> = Vec::new();
    let mut i: usize = 0;
    proof {
        assert(t@.take(0) =~= Seq::<char>::empty());
    }
    while i < t.len()
        invariant
            i <= t@.len(),
            v@ == goal_bits(t@.take(i as int)),
        decreases t@.len() - i,
    {
        proof {
            assert(t@.take(i + 1).drop_last() =~= t@.take(i as int));
            assert(t@.take(i + 1).last() == t@[i as int]);
        }
        let c = t[i];
        if c == '0' || c == '1' {
            v.push(c == '1');
        }
        i = i + 1;
    }
    proof {
        assert(t@.take(t@.len() as int) =~= t@);
    }
    v
}


/// The reading state that the values of a reading loop stand for.
pub open spec fn state_of(
    name: Seq<char>,
    rc: Seq<Vec<usize>>,
    cc: Seq<Vec<usize>>,
    goal: Seq<Vec<bool>>,
    section: Section,
) -> ParseState {
    ParseState { name, rows: clue_rows(rc), cols: clue_rows(cc), goal: bool_rows(goal), section }
}

proof fn lemma_first_bad_skip(goal: Seq<Seq<bool>>, cols: nat, i: int)
    requires
        0 <= i <= goal.len(),
        forall|q: int| 0 <= q < i ==> #[trigger] goal[q].len() == cols,
    ensures
        first_bad_row(goal, cols, 0) == first_bad_row(goal, cols, i),
    decreases i,
{
    if i > 0 {
        lemma_first_bad_skip(goal, cols, i - 1);
    }
}

/// Reads a puzzle in the `.non` format. Errors name the first problem:
/// a clue that is not a number, a goal line without cells, a missing row or
/// column section, or a goal whose size differs from the clues'.
pub fn parse_non(input: &str) -> (r: Result<Puzzle, String>)
    ensures
        match r {
            Ok(p) => parse_non_spec(input@) == Ok::<PuzzleView, Seq<char>>(p@),
            Err(e) => parse_non_spec(input@) == Err::<PuzzleView, Seq<char>>(e@),
        },
{
    let chars = chars_of(input);
    let lines = split_chars(chars.as_slice(), '\n');
    let ghost ls = split_on(input@, '\n');
    let kw_t = vec!['t', 'i', 't', 'l', 'e'];
    let kw_r = vec!['r', 'o', 'w', 's'];
    let kw_c = vec!['c', 'o', 'l', 'u', 'm', 'n', 's'];
    let kw_g = vec!['g', 'o', 'a', 'l'];
    proof {
        assert(kw_t@ =~= kw_title());
        assert(kw_r@ =~= kw_rows());
        assert(kw_c@ =~= kw_columns());
        assert(kw_g@ =~= kw_goal());
    }
    let mut name: Vec<char> = chars_of("Untitled");
    let mut row_clues: Vec<Vec<usize>> = Vec::new();
    let mut col_clues: Vec<Vec<usize>> = Vec::new();
    let mut goal: Vec<Vec<bool>> = Vec::new();
    let mut section = Section::Header;
    let mut i: usize = 0;
    proof {
        assert(ls.take(0) =~= Seq::<Seq<char>>::empty());
        assert(clue_rows(row_clues@) =~= Seq::<Seq<usize>>::empty());
        assert(clue_rows(col_clues@) =~= Seq::<Seq<usize>>::empty());
        assert(bool_rows(goal@) =~= Seq::<Seq<bool>>::empty());
    }
    while i < lines.len()
        invariant
            i <= lines@.len(),
            ls == split_on(input@, '\n'),
            lines@.len() == ls.len(),
            forall|q: int| 0 <= q < lines@.len() ==> #[trigger] lines@[q]@ == ls[q],
            kw_t@ == kw_title(),
            kw_r@ == kw_rows(),
            kw_c@ == kw_columns(),
            kw_g@ == kw_goal(),
            parse_lines(Ok(parse_init()), ls.take(i as int)) == Ok::<ParseState, Seq<char>>(
                state_of(name@, row_clues@, col_clues@, goal@, section),
            ),
        decreases lines@.len() - i,
    {
        let ghost st = state_of(name@, row_clues@, col_clues@, goal@, section);
        let ghost raw = ls[i as int];
        proof {
            assert(ls.take(i + 1) =~= ls.take(i as int).push(raw));
            lemma_parse_lines_push(Ok(parse_init()), ls.take(i as int), raw);
        }
        let t = trim_chars(lines[i].as_slice(), false);
        let head = if t.len() >= 5 {
            slice_chars_prefix(&t, 5)
        } else {
            Vec::new()
        };
        if t.len() == 0 || t[0] == '#' {
        } else if t.len() >= 5 && word_eq(head.as_slice(), kw_t.as_slice()) {
            let rest = crate::text::slice_chars(t.as_slice(), 5, t.len());
            let r1 = trim_chars(rest.as_slice(), false);
            name = trim_chars(r1.as_slice(), true);
            proof {
                assert(rest@ =~= t@.skip(5));
            }
        } else if word_eq(t.as_slice(), kw_r.as_slice()) {
            section = Section::Rows;
        } else if word_eq(t.as_slice(), kw_c.as_slice()) {
            section = Section::Columns;
        } else if word_eq(t.as_slice(), kw_g.as_slice()) {
            section = Section::Goal;
        } else {
            match section {
                Section::Header => {},
                Section::Rows => {
                    match parse_clue_line(t.as_slice()) {
                        Ok(c) => {
                            row_clues.push(c);
                            proof {
                                assert(clue_rows(row_clues@) =~= st.rows.push(c@));
                            }
                        },
                        Err(e) => {
                            proof {
                                lemma_parse_lines_concat(
                                    Ok(parse_init()),
                                    ls.take(i + 1),
                                    ls.skip(i + 1),
                                );
                                lemma_parse_lines_err(e@, ls.skip(i + 1));
                                assert(ls.take(i + 1) + ls.skip(i + 1) =~= ls);
                            }
                            return Err(e);
                        },
                    }
                },
                Section::Columns => {
                    match parse_clue_line(t.as_slice()) {
                        Ok(c) => {
                            col_clues.push(c);
                            proof {
                                assert(clue_rows(col_clues@) =~= st.cols.push(c@));
                            }
                        },
                        Err(e) => {
                            proof {
                                lemma_parse_lines_concat(
                                    Ok(parse_init()),
                                    ls.take(i + 1),
                                    ls.skip(i + 1),
                                );
                                lemma_parse_lines_err(e@, ls.skip(i + 1));
                                assert(ls.take(i + 1) + ls.skip(i + 1) =~= ls);
                            }
                            return Err(e);
                        },
                    }
                },
                Section::Goal => {
                    let row = goal_line_bits(t.as_slice());
                    if row.len() == 0 {
                        let mut e = String::from_str("Empty or invalid goal row: '");
                        push_chars(&mut e, t.as_slice());
                        e.append("'");
                        proof {
                            lemma_parse_lines_concat(Ok(parse_init()), ls.take(i + 1), ls.skip(i + 1));
                            lemma_parse_lines_err(e@, ls.skip(i + 1));
                            assert(ls.take(i + 1) + ls.skip(i + 1) =~= ls);
                        }
                        return Err(e);
                    }
                    goal.push(row);
                    proof {
                        assert(bool_rows(goal@) =~= st.goal.push(row@));
                    }
                },
            }
        }
        i = i + 1;
    }
    proof {
        assert(ls.take(ls.len() as int) =~= ls);
    }
    let ghost st = state_of(name@, row_clues@, col_clues@, goal@, section);
    let rows = row_clues.len();
    let cols = col_clues.len();
    if rows == 0 {
        return Err(String::from_str("No row clues found in puzzle file"));
    }
    if cols == 0 {
        return Err(String::from_str("No column clues found in puzzle file"));
    }
    if goal.len() > 0 {
        if goal.len() != rows {
            let mut e = String::from_str("Goal has ");
            push_decimal(&mut e, goal.len());
            e.append(" rows but puzzle has ");
            push_decimal(&mut e, rows);
            e.append(" rows");
            return Err(e);
        }
        let mut g: usize = 0;
        while g < goal.len()
            invariant
                g <= goal@.len(),
                st.goal == bool_rows(goal@),
                cols == st.cols.len(),
                rows == st.rows.len(),
                cols > 0,
                rows > 0,
                goal@.len() == rows,
                ls == split_on(input@, '\n'),
                parse_lines(Ok(parse_init()), ls) == Ok::<ParseState, Seq<char>>(st),
                forall|q: int| 0 <= q < g ==> #[trigger] st.goal[q].len() == cols,
            decreases goal@.len() - g,
        {
            if goal[g].len() != cols {
                let mut e = String::from_str("Goal row ");
                push_decimal(&mut e, g);
                e.append(" has ");
                push_decimal(&mut e, goal[g].len());
                e.append(" cells but puzzle has ");
                push_decimal(&mut e, cols);
                e.append(" columns");
                proof {
                    lemma_first_bad_skip(st.goal, cols as nat, g as int);
                    assert(st.goal[g as int] == goal@[g as int]@);
                }
                return Err(e);
            }
            g = g + 1;
        }
        proof {
            lemma_first_bad_skip(st.goal, cols as nat, g as int);
        }
    }
    let mut name_s = String::new();
    push_chars(&mut name_s, name.as_slice());
    let solution = if goal.len() > 0 {
        Some(goal)
    } else {
        None
    };
    let p = Puzzle { name: name_s, rows, cols, solution, row_clues, col_clues };
    proof {
        assert(p@.name =~= st.name);
    }
    Ok(p)
}

/// The first `k` characters of `t` as a vector.
fn slice_chars_prefix(t: &Vec<char>, k: usize) -> (v: Vec<char>)
    requires
        k <= t@.len(),
    ensures
        v@ == t@.take(k as int),
{
    crate::text::slice_chars(t.as_slice(), 0, k)
}


/// A clue written as its numbers separated by commas.
pub open spec fn join_commas(cl: Seq<usize>) -> Seq<char>
    decreases cl.len(),
{
    if cl.len() == 0 {
        seq![]
    } else if cl.len() == 1 {
        decimal(cl[0] as nat)
    } else {
        join_commas(cl.drop_last()) + seq![','] + decimal(cl.last() as nat)
    }
}

/// A goal row written as `1` for a filled cell and `0` for a blank one.
pub open spec fn bits_line(row: Seq<bool>) -> Seq<char> {
    row.map_values(|b: bool| if b { '1' } else { '0' })
}

/// The title line: `title` and the name in quotes.
pub open spec fn title_line(name: Seq<char>) -> Seq<char> {
    kw_title() + seq![' ', '"'] + name + seq!['"']
}

/// The lines of a list of clues.
pub open spec fn clue_lines(cls: Seq<Seq<usize>>) -> Seq<Seq<char>> {
    cls.map_values(|cl: Seq<usize>| join_commas(cl))
}

/// The lines of a picture.
pub open spec fn goal_lines(sol: Seq<Seq<bool>>) -> Seq<Seq<char>> {
    sol.map_values(|row: Seq<bool>| bits_line(row))
}

/// The lines of the `.non` text of a puzzle: the title, a blank line,
/// `rows` and one clue per line, a blank line, `columns` and the column
/// clues, then, when the picture is known, a blank line, `goal` and one
/// line per row.
pub open spec fn write_lines(p: PuzzleView) -> Seq<Seq<char>> {
    seq![title_line(p.name), seq![], kw_rows()] + clue_lines(p.row_clues) + seq![
        seq![],
        kw_columns(),
    ] + clue_lines(p.col_clues) + match p.solution {
        Some(sol) => seq![seq![], kw_goal()] + goal_lines(sol),
        None => seq![],
    }
}

/// Lines joined into a text, each one ended by a newline.
pub open spec fn join_lines(ls: Seq<Seq<char>>) -> Seq<char>
    decreases ls.len(),
{
    if ls.len() == 0 {
        seq![]
    } else {
        join_lines(ls.drop_last()) + ls.last() + seq!['\n']
    }
}

/// The `.non` text of a puzzle, each line ended by a newline.
pub open spec fn write_non_spec(p: PuzzleView) -> Seq<char> {
    join_lines(write_lines(p))
}

fn push_line(out: &mut String, line: &[char], Ghost(ls): Ghost<Seq<Seq<char>>>)
    requires
        old(out)@ == join_lines(ls),
    ensures
        final(out)@ == join_lines(ls.push(line@)),
{
    push_chars(out, line);
    crate::text::push_char(out, '\n');
    proof {
        assert(ls.push(line@).drop_last() =~= ls);
    }
}

fn push_commas(out: &mut String, cl: &Vec<usize>)
    ensures
        final(out)@ == old(out)@ + join_commas(cl@),
{
    let ghost o = out@;
    let mut i: usize = 0;
    proof {
        assert(cl@.take(0) =~= Seq::<usize>::empty());
        assert(o + join_commas(cl@.take(0)) =~= o);
    }
    while i < cl.len()
        invariant
            i <= cl@.len(),
            out@ == o + join_commas(cl@.take(i as int)),
        decreases cl@.len() - i,
    {
        if i > 0 {
            crate::text::push_char(out, ',');
        }
        push_decimal(out, cl[i]);
        proof {
            let t = cl@.take(i + 1);
            assert(t.drop_last() =~= cl@.take(i as int));
            assert(t.last() == cl@[i as int]);
            if i == 0 {
                assert(t.len() == 1);
                assert(join_commas(cl@.take(0)) =~= Seq::<char>::empty());
            }
        }
        i = i + 1;
    }
    proof {
        assert(cl@.take(cl@.len() as int) =~= cl@);
    }
}

fn commas_line(cl: &Vec<usize>) -> (v: String)
    ensures
        v@ == join_commas(cl@),
{
    let mut v = String::new();
    push_commas(&mut v, cl);
    proof {
        assert(Seq::<char>::empty() + join_commas(cl@) =~= join_commas(cl@));
    }
    v
}

/// Writes a puzzle in the `.non` format.
pub fn write_non(puzzle: &Puzzle) -> (out: String)
    ensures
        out@ == write_non_spec(puzzle@),
{
    let ghost p = puzzle@;
    let mut out = String::new();
    let kw_t = vec!['t', 'i', 't', 'l', 'e'];
    let kw_r = vec!['r', 'o', 'w', 's'];
    let kw_c = vec!['c', 'o', 'l', 'u', 'm', 'n', 's'];
    let kw_g = vec!['g', 'o', 'a', 'l'];
    let empty: Vec<char> = Vec::new();
    let mut title = kw_t;
    title.push(' ');
    title.push('"');
    let name_chars = chars_of(puzzle.name.as_str());
    let mut q: usize = 0;
    while q < name_chars.len()
        invariant
            q <= name_chars@.len(),
            title@ == kw_title() + seq![' ', '"'] + name_chars@.take(q as int),
        decreases name_chars@.len() - q,
    {
        title.push(name_chars[q]);
        proof {
            assert(name_chars@.take(q + 1) =~= name_chars@.take(q as int).push(name_chars@[q as int]));
        }
        q = q + 1;
    }
    title.push('"');
    let ghost mut ls: Seq<Seq<char>> = seq![];
    proof {
        assert(name_chars@.take(name_chars@.len() as int) =~= name_chars@);
        assert(title@ =~= title_line(p.name));
        assert(kw_r@ =~= kw_rows());
        assert(kw_c@ =~= kw_columns());
        assert(kw_g@ =~= kw_goal());
        assert(empty@ =~= Seq::<char>::empty());
    }
    push_line(&mut out, title.as_slice(), Ghost(ls));
    proof {
        ls = ls.push(title@);
    }
    push_line(&mut out, empty.as_slice(), Ghost(ls));
    proof {
        ls = ls.push(empty@);
    }
    push_line(&mut out, kw_r.as_slice(), Ghost(ls));
    proof {
        ls = ls.push(kw_r@);
        assert(ls =~= seq![title_line(p.name), seq![], kw_rows()]);
    }
    let ghost base = ls;
    let mut i: usize = 0;
    while i < puzzle.row_clues.len()
        invariant
            i <= puzzle.row_clues@.len(),
            p == puzzle@,
            out@ == join_lines(ls),
            ls == base + clue_lines(p.row_clues).take(i as int),
        decreases puzzle.row_clues@.len() - i,
    {
        let line = commas_line(&puzzle.row_clues[i]);
        let line_chars = chars_of(line.as_str());
        push_line(&mut out, line_chars.as_slice(), Ghost(ls));
        proof {
            ls = ls.push(line_chars@);
            assert(clue_lines(p.row_clues).take(i + 1) =~= clue_lines(p.row_clues).take(i as int).push(
                join_commas(p.row_clues[i as int]),
            ));
        }
        i = i + 1;
    }
    proof {
        assert(clue_lines(p.row_clues).take(puzzle.row_clues@.len() as int) =~= clue_lines(
            p.row_clues,
        ));
    }
    push_line(&mut out, empty.as_slice(), Ghost(ls));
    proof {
        ls = ls.push(empty@);
    }
    push_line(&mut out, kw_c.as_slice(), Ghost(ls));
    proof {
        ls = ls.push(kw_c@);
    }
    let ghost base2 = ls;
    let mut i: usize = 0;
    while i < puzzle.col_clues.len()
        invariant
            i <= puzzle.col_clues@.len(),
            p == puzzle@,
            out@ == join_lines(ls),
            ls == base2 + clue_lines(p.col_clues).take(i as int),
        decreases puzzle.col_clues@.len() - i,
    {
        let line = commas_line(&puzzle.col_clues[i]);
        let line_chars = chars_of(line.as_str());
        push_line(&mut out, line_chars.as_slice(), Ghost(ls));
        proof {
            ls = ls.push(line_chars@);
            assert(clue_lines(p.col_clues).take(i + 1) =~= clue_lines(p.col_clues).take(i as int).push(
                join_commas(p.col_clues[i as int]),
            ));
        }
        i = i + 1;
    }
    proof {
        assert(clue_lines(p.col_clues).take(puzzle.col_clues@.len() as int) =~= clue_lines(
            p.col_clues,
        ));
    }
    match &puzzle.solution {
        Some(solution) => {
            push_line(&mut out, empty.as_slice(), Ghost(ls));
            proof {
                ls = ls.push(empty@);
            }
            push_line(&mut out, kw_g.as_slice(), Ghost(ls));
            proof {
                ls = ls.push(kw_g@);
            }
            let ghost base3 = ls;
            let ghost sol = bool_rows(solution@);
            let mut r: usize = 0;
            while r < solution.len()
                invariant
                    r <= solution@.len(),
                    sol == bool_rows(solution@),
                    out@ == join_lines(ls),
                    ls == base3 + goal_lines(sol).take(r as int),
                decreases solution@.len() - r,
            {
                let mut bits: Vec<char> = Vec::new();
                let mut c: usize = 0;
                while c < solution[r].len()
                    invariant
                        r < solution@.len(),
                        c <= solution@[r as int]@.len(),
                        bits@ == bits_line(solution@[r as int]@).take(c as int),
                    decreases solution@[r as int]@.len() - c,
                {
                    bits.push(
                        if solution[r][c] {
                            '1'
                        } else {
                            '0'
                        },
                    );
                    proof {
                        assert(bits@ =~= bits_line(solution@[r as int]@).take(c + 1));
                    }
                    c = c + 1;
                }
                push_line(&mut out, bits.as_slice(), Ghost(ls));
                proof {
                    assert(bits@ =~= bits_line(solution@[r as int]@));
                    ls = ls.push(bits@);
                    assert(goal_lines(sol).take(r + 1) =~= goal_lines(sol).take(r as int).push(
                        bits_line(sol[r as int]),
                    ));
                }
                r = r + 1;
            }
            proof {
                assert(goal_lines(sol).take(solution@.len() as int) =~= goal_lines(sol));
                assert(ls =~= write_lines(p));
            }
        },
        None => {
            proof {
                assert(ls =~= write_lines(p));
            }
        },
    }
    out
}


spec fn no_newline(l: Seq<char>) -> bool {
    forall|i: int| 0 <= i < l.len() ==> #[trigger] l[i] != '\n'
}

/// Splitting joined lines at newlines gives the lines back, and an empty
/// piece after the last newline.
proof fn lemma_split_join(ls: Seq<Seq<char>>)
    requires
        forall|k: int| 0 <= k < ls.len() ==> no_newline(#[trigger] ls[k]),
    ensures
        split_on(join_lines(ls), '\n') == ls.push(Seq::<char>::empty()),
    decreases ls.len(),
{
    if ls.len() == 0 {
        assert(split_on(Seq::<char>::empty(), '\n') =~= seq![Seq::<char>::empty()]);
        assert(ls.push(Seq::<char>::empty()) =~= seq![Seq::<char>::empty()]);
    } else {
        let init = ls.drop_last();
        assert forall|k: int| 0 <= k < init.len() implies no_newline(#[trigger] init[k]) by {
            assert(init[k] == ls[k]);
        }
        lemma_split_join(init);
        let j = join_lines(init);
        let l = ls.last();
        assert(no_newline(ls[ls.len() - 1]));
        lemma_split_append(j, l, '\n');
        assert(j + l + seq!['\n'] =~= (j + l).push('\n'));
        lemma_split_push_delim(j + l, '\n');
        let sp = split_on(j, '\n');
        assert(sp == init.push(Seq::<char>::empty()));
        assert(sp.last() + l =~= l);
        assert(sp.update(sp.len() - 1, l) =~= ls);
    }
}

/// The characters of a written clue: digits and commas, a digit at each end.
proof fn lemma_join_commas(cl: Seq<usize>)
    requires
        cl.len() > 0,
    ensures
        join_commas(cl).len() > 0,
        is_digit(join_commas(cl)[0]),
        is_digit(join_commas(cl).last()),
        no_newline(join_commas(cl)),
        split_on(join_commas(cl), ',') == cl.map_values(|n: usize| decimal(n as nat)),
    decreases cl.len(),
{
    let ds = cl.map_values(|n: usize| decimal(n as nat));
    if cl.len() == 1 {
        let d = decimal(cl[0] as nat);
        lemma_decimal_value(cl[0] as nat);
        assert(is_digit(d[0]));
        assert(is_digit(d[d.len() - 1]));
        lemma_split_append(Seq::<char>::empty(), d, ',');
        assert(Seq::<char>::empty() + d =~= d);
        assert(split_on(Seq::<char>::empty(), ',') =~= seq![Seq::<char>::empty()]);
        assert(seq![Seq::<char>::empty()].update(0, Seq::<char>::empty() + d) =~= ds);
    } else {
        let init = cl.drop_last();
        lemma_join_commas(init);
        let j = join_commas(init);
        let d = decimal(cl.last() as nat);
        lemma_decimal_value(cl.last() as nat);
        assert(is_digit(d[0]));
        assert(is_digit(d[d.len() - 1]));
        let w = j + seq![','] + d;
        assert(w[0] == j[0]);
        assert(w.last() == d.last());
        assert forall|i: int| 0 <= i < w.len() implies #[trigger] w[i] != '\n' by {
            if i < j.len() {
                assert(w[i] == j[i]);
            } else if i > j.len() {
                assert(w[i] == d[i - j.len() - 1]);
            }
        }
        lemma_split_push_delim(j, ',');
        assert(j + seq![','] =~= j.push(','));
        lemma_split_append(j.push(','), d, ',');
        let sp = split_on(j.push(','), ',');
        assert(sp.last() + d =~= d);
        assert(init.map_values(|n: usize| decimal(n as nat)).push(d) =~= ds);
        assert(sp.update(sp.len() - 1, d) =~= ds);
    }
}

/// Reading back written clue values gives them.
proof fn lemma_clue_values_decimals(cl: Seq<usize>)
    ensures
        clue_values(cl.map_values(|n: usize| decimal(n as nat))) == Ok::<Seq<usize>, Seq<char>>(cl),
    decreases cl.len(),
{
    let ds = cl.map_values(|n: usize| decimal(n as nat));
    if cl.len() == 0 {
        assert(ds.len() == 0);
        assert(cl =~= Seq::<usize>::empty());
    } else {
        let init = cl.drop_last();
        lemma_clue_values_decimals(init);
        assert(ds.drop_last() =~= init.map_values(|n: usize| decimal(n as nat)));
        let d = ds.last();
        assert(d == decimal(cl.last() as nat));
        lemma_decimal_value(cl.last() as nat);
        assert(is_digit(d[0]));
        assert(is_digit(d[d.len() - 1]));
        lemma_trim_noop(d, false);
        assert(parse_usize_spec(d) == Some(cl.last()));
        assert(init.push(cl.last()) =~= cl);
    }
}

/// A written line that starts with a digit is none of the keywords.
proof fn lemma_plain_line(t: Seq<char>)
    requires
        t.len() > 0,
        t[0] == '0' || t[0] == '1' || is_digit(t[0]),
    ensures
        t[0] != '#',
        !(t.len() >= 5 && t.take(5) == kw_title()),
        t != kw_rows(),
        t != kw_columns(),
        t != kw_goal(),
{
    if t.len() >= 5 && t.take(5) == kw_title() {
        assert(t.take(5)[0] == t[0]);
    }
    if t == kw_rows() {
        assert(t[0] == 'r');
    }
    if t == kw_columns() {
        assert(t[0] == 'c');
    }
    if t == kw_goal() {
        assert(t[0] == 'g');
    }
}

/// Reading the written clue lines of a clue section adds the clues.
proof fn lemma_read_clues(st: ParseState, cls: Seq<Seq<usize>>)
    requires
        st.section == Section::Rows || st.section == Section::Columns,
        forall|k: int| 0 <= k < cls.len() ==> #[trigger] cls[k].len() > 0,
    ensures
        parse_lines(Ok(st), clue_lines(cls)) == Ok::<ParseState, Seq<char>>(
            if st.section == Section::Rows {
                ParseState { rows: st.rows + cls, ..st }
            } else {
                ParseState { cols: st.cols + cls, ..st }
            },
        ),
    decreases cls.len(),
{
    if cls.len() == 0 {
        assert(st.rows + cls =~= st.rows);
        assert(st.cols + cls =~= st.cols);
    } else {
        let cl = cls[0];
        let t = join_commas(cl);
        lemma_join_commas(cl);
        lemma_trim_noop(t, false);
        lemma_plain_line(t);
        lemma_clue_values_decimals(cl);
        let st2 = if st.section == Section::Rows {
            ParseState { rows: st.rows.push(cl), ..st }
        } else {
            ParseState { cols: st.cols.push(cl), ..st }
        };
        assert(parse_step(st, t) == Ok::<ParseState, Seq<char>>(st2));
        assert(clue_lines(cls)[0] == t);
        assert(clue_lines(cls).drop_first() =~= clue_lines(cls.drop_first()));
        let rest = cls.drop_first();
        assert forall|k: int| 0 <= k < rest.len() implies #[trigger] rest[k].len() > 0 by {
            assert(rest[k] == cls[k + 1]);
        }
        lemma_read_clues(st2, rest);
        assert(st.rows.push(cl) + rest =~= st.rows + cls);
        assert(st.cols.push(cl) + rest =~= st.cols + cls);
    }
}

proof fn lemma_goal_bits(row: Seq<bool>)
    ensures
        goal_bits(bits_line(row)) == row,
    decreases row.len(),
{
    if row.len() > 0 {
        let init = row.drop_last();
        lemma_goal_bits(init);
        assert(bits_line(row).drop_last() =~= bits_line(init));
    } else {
        assert(bits_line(row).len() == 0);
    }
}

/// Reading the written goal lines adds the rows of the picture.
proof fn lemma_read_goal(st: ParseState, sol: Seq<Seq<bool>>)
    requires
        st.section == Section::Goal,
        forall|k: int| 0 <= k < sol.len() ==> #[trigger] sol[k].len() > 0,
    ensures
        parse_lines(Ok(st), goal_lines(sol)) == Ok::<ParseState, Seq<char>>(
            ParseState { goal: st.goal + sol, ..st },
        ),
    decreases sol.len(),
{
    if sol.len() == 0 {
        assert(st.goal + sol =~= st.goal);
    } else {
        let row = sol[0];
        let t = bits_line(row);
        assert(sol[0].len() > 0);
        assert(t[0] == '0' || t[0] == '1');
        assert(t.last() == '0' || t.last() == '1');
        lemma_trim_noop(t, false);
        lemma_plain_line(t);
        lemma_goal_bits(row);
        let st2 = ParseState { goal: st.goal.push(row), ..st };
        assert(parse_step(st, t) == Ok::<ParseState, Seq<char>>(st2));
        assert(goal_lines(sol)[0] == t);
        assert(goal_lines(sol).drop_first() =~= goal_lines(sol.drop_first()));
        let rest = sol.drop_first();
        assert forall|k: int| 0 <= k < rest.len() implies #[trigger] rest[k].len() > 0 by {
            assert(rest[k] == sol[k + 1]);
        }
        lemma_read_goal(st2, rest);
        assert(st.goal.push(row) + rest =~= st.goal + sol);
    }
}

/// The title line gives the name back.
proof fn lemma_read_title(st: ParseState, name: Seq<char>)
    requires
        no_newline(name),
        name.len() > 0 ==> name[0] != '"' && name.last() != '"',
    ensures
        parse_step(st, title_line(name)) == Ok::<ParseState, Seq<char>>(ParseState { name, ..st }),
{
    let t = title_line(name);
    assert(t[0] == 't');
    assert(t.last() == '"');
    lemma_trim_noop(t, false);
    assert(t.take(5) =~= kw_title());
    let rest = t.skip(5);
    assert(rest =~= seq![' ', '"'] + name + seq!['"']);
    let q = seq!['"'] + name + seq!['"'];
    assert(rest.drop_first() =~= q);
    assert(trim_start(rest, false) == trim_start(q, false));
    assert(trim_start(q, false) == q);
    assert(q.last() == '"');
    assert(trim(rest, false) == q);
    let nq = name + seq!['"'];
    assert(q.drop_first() =~= nq);
    assert(trim_start(q, true) == trim_start(nq, true));
    if name.len() > 0 {
        assert(nq[0] == name[0]);
        assert(trim_start(nq, true) == nq);
        assert(nq.drop_last() =~= name);
        assert(trim_end(nq, true) == trim_end(name, true));
        assert(name[name.len() - 1] != '"');
        assert(trim_end(name, true) == name);
    } else {
        assert(nq =~= seq!['"']);
        assert(nq.drop_first() =~= Seq::<char>::empty());
        assert(trim_start(Seq::<char>::empty(), true) == Seq::<char>::empty());
        assert(trim_start(nq, true) == Seq::<char>::empty());
        assert(trim_end(Seq::<char>::empty(), true) == Seq::<char>::empty());
        assert(name =~= Seq::<char>::empty());
    }
}

proof fn lemma_parse_one(r: Result<ParseState, Seq<char>>, l1: Seq<char>)
    ensures
        parse_lines(r, seq![l1]) == match r {
            Err(e) => Err(e),
            Ok(st) => parse_step(st, l1),
        },
{
    assert(seq![l1] =~= Seq::<Seq<char>>::empty().push(l1));
    lemma_parse_lines_push(r, Seq::<Seq<char>>::empty(), l1);
}

proof fn lemma_parse_two(r: Result<ParseState, Seq<char>>, l1: Seq<char>, l2: Seq<char>)
    ensures
        parse_lines(r, seq![l1, l2]) == match r {
            Err(e) => Err(e),
            Ok(st) => match parse_step(st, l1) {
                Err(e) => Err(e),
                Ok(st1) => parse_step(st1, l2),
            },
        },
{
    assert(seq![l1, l2] =~= seq![l1].push(l2));
    lemma_parse_lines_push(r, seq![l1], l2);
    lemma_parse_one(r, l1);
}

proof fn lemma_parse_three(
    r: Result<ParseState, Seq<char>>,
    l1: Seq<char>,
    l2: Seq<char>,
    l3: Seq<char>,
)
    ensures
        parse_lines(r, seq![l1, l2, l3]) == match r {
            Err(e) => Err(e),
            Ok(st) => match parse_step(st, l1) {
                Err(e) => Err(e),
                Ok(st1) => match parse_step(st1, l2) {
                    Err(e) => Err(e),
                    Ok(st2) => parse_step(st2, l3),
                },
            },
        },
{
    assert(seq![l1, l2, l3] =~= seq![l1, l2].push(l3));
    lemma_parse_lines_push(r, seq![l1, l2], l3);
    lemma_parse_two(r, l1, l2);
}

/// A puzzle that `write_non` can write so that `parse_non` reads it back:
/// a one-line name that neither starts nor ends with a quote, and clue
/// sections that are not empty and list no empty clue, in number the size
/// of the puzzle, and a picture, if any, of that size.
pub open spec fn writable(p: PuzzleView) -> bool {
    &&& forall|i: int| 0 <= i < p.name.len() ==> #[trigger] p.name[i] != '\n'
    &&& p.name.len() > 0 ==> p.name[0] != '"' && p.name.last() != '"'
    &&& p.row_clues.len() > 0
    &&& p.col_clues.len() > 0
    &&& forall|r: int| 0 <= r < p.row_clues.len() ==> #[trigger] p.row_clues[r].len() > 0
    &&& forall|c: int| 0 <= c < p.col_clues.len() ==> #[trigger] p.col_clues[c].len() > 0
    &&& p.rows == p.row_clues.len()
    &&& p.cols == p.col_clues.len()
    &&& p.solution matches Some(sol) ==> sol.len() == p.rows && forall|r: int|
        0 <= r < sol.len() ==> #[trigger] sol[r].len() == p.cols
}

/// Reading what `write_non` writes gives the puzzle back.
pub proof fn lemma_write_then_parse(p: PuzzleView)
    requires
        writable(p),
    ensures
        parse_non_spec(write_non_spec(p)) == Ok::<PuzzleView, Seq<char>>(p),
{
    let ls = write_lines(p);
    let e = Seq::<char>::empty();
    let head = seq![title_line(p.name), e, kw_rows()];
    let mid = seq![e, kw_columns()];
    let tail = match p.solution {
        Some(sol) => seq![e, kw_goal()] + goal_lines(sol),
        None => seq![],
    };
    assert(ls == head + clue_lines(p.row_clues) + mid + clue_lines(p.col_clues) + tail);
    assert forall|k: int| 0 <= k < ls.len() implies no_newline(#[trigger] ls[k]) by {
        let hl = head.len() as int;
        let r1 = hl + p.row_clues.len();
        let m1 = r1 + 2;
        let c1 = m1 + p.col_clues.len();
        if k < hl {
            if k == 0 {
                assert(ls[k] == title_line(p.name));
                assert forall|i: int| 0 <= i < ls[k].len() implies #[trigger] ls[k][i] != '\n' by {
                    if 7 <= i < 7 + p.name.len() {
                        assert(ls[k][i] == p.name[i - 7]);
                    }
                }
            } else {
                assert(ls[k] == head[k]);
            }
        } else if k < r1 {
            assert(ls[k] == join_commas(p.row_clues[k - hl]));
            lemma_join_commas(p.row_clues[k - hl]);
        } else if k < m1 {
            assert(ls[k] == mid[k - r1]);
        } else if k < c1 {
            assert(ls[k] == join_commas(p.col_clues[k - m1]));
            lemma_join_commas(p.col_clues[k - m1]);
        } else {
            assert(ls[k] == tail[k - c1]);
            match p.solution {
                Some(sol) => {
                    if k - c1 >= 2 {
                        assert(tail[k - c1] == bits_line(sol[k - c1 - 2]));
                    }
                },
                None => {},
            }
        }
    }
    lemma_split_join(ls);
    assert(split_on(write_non_spec(p), '\n') == ls.push(e));
    let st0 = parse_init();
    let st1 = ParseState { name: p.name, ..st0 };
    let st2 = ParseState { section: Section::Rows, ..st1 };
    let st3 = ParseState { rows: p.row_clues, ..st2 };
    let st4 = ParseState { section: Section::Columns, ..st3 };
    let st5 = ParseState { cols: p.col_clues, ..st4 };
    lemma_read_title(st0, p.name);
    assert(parse_lines(Ok(st0), head) == Ok::<ParseState, Seq<char>>(st2)) by {
        lemma_parse_three(Ok(st0), title_line(p.name), e, kw_rows());
        assert(head =~= seq![title_line(p.name), e, kw_rows()]);
        assert(trim(e, false) =~= e);
        lemma_trim_noop(kw_rows(), false);
    }
    lemma_read_clues(st2, p.row_clues);
    assert(st2.rows + p.row_clues =~= p.row_clues);
    assert(parse_lines(Ok(st3), mid) == Ok::<ParseState, Seq<char>>(st4)) by {
        lemma_parse_two(Ok(st3), e, kw_columns());
        assert(trim(e, false) =~= e);
        lemma_trim_noop(kw_columns(), false);
        assert(kw_columns().take(5)[0] != kw_title()[0]);
    }
    lemma_read_clues(st4, p.col_clues);
    assert(st4.cols + p.col_clues =~= p.col_clues);
    let a = head + clue_lines(p.row_clues);
    let b = a + mid;
    let c = b + clue_lines(p.col_clues);
    lemma_parse_lines_concat(Ok(st0), head, clue_lines(p.row_clues));
    lemma_parse_lines_concat(Ok(st0), a, mid);
    lemma_parse_lines_concat(Ok(st0), b, clue_lines(p.col_clues));
    lemma_parse_lines_concat(Ok(st0), c, tail);
    assert(parse_lines(Ok(st0), c) == Ok::<ParseState, Seq<char>>(st5));
    let st_end = match p.solution {
        Some(sol) => ParseState { goal: sol, section: Section::Goal, ..st5 },
        None => st5,
    };
    assert(parse_lines(Ok(st5), tail) == Ok::<ParseState, Seq<char>>(st_end)) by {
        match p.solution {
            Some(sol) => {
                let g = seq![e, kw_goal()];
                let st6 = ParseState { section: Section::Goal, ..st5 };
                assert(parse_lines(Ok(st5), g) == Ok::<ParseState, Seq<char>>(st6)) by {
                    lemma_parse_two(Ok(st5), e, kw_goal());
                    assert(trim(e, false) =~= e);
                    lemma_trim_noop(kw_goal(), false);
                }
                assert forall|k: int| 0 <= k < sol.len() implies #[trigger] sol[k].len() > 0 by {
                    assert(sol[k].len() == p.cols);
                }
                lemma_read_goal(st6, sol);
                assert(st6.goal + sol =~= sol);
                lemma_parse_lines_concat(Ok(st5), g, goal_lines(sol));
            },
            None => {},
        }
    }
    assert(ls.push(e) == ls + seq![e]);
    lemma_parse_lines_concat(Ok(st0), ls, seq![e]);
    assert(parse_lines(Ok(st_end), seq![e]) == Ok::<ParseState, Seq<char>>(st_end)) by {
        lemma_parse_one(Ok(st_end), e);
        assert(trim(e, false) =~= e);
    }
    match p.solution {
        Some(sol) => {
            assert(first_bad_row(sol, p.cols, 0) is None) by {
                lemma_first_bad_none(sol, p.cols, 0);
            }
        },
        None => {},
    }
}

proof fn lemma_first_bad_none(goal: Seq<Seq<bool>>, cols: nat, i: int)
    requires
        0 <= i,
        forall|q: int| 0 <= q < goal.len() ==> #[trigger] goal[q].len() == cols,
    ensures
        first_bad_row(goal, cols, i) is None,
    decreases goal.len() - i,
{
    if i < goal.len() {
        lemma_first_bad_none(goal, cols, i + 1);
    }
}

// ── export ───────────────────────────────────────────────────────────────────

/// The lines of the export form of a puzzle: `title` and the bare name, its
/// `width` and `height`, then `rows` and `columns`, each with its clues
/// (no picture).
pub open spec fn export_lines(p: PuzzleView) -> Seq<Seq<char>> {
    seq![
        "title "@ + p.name,
        "width "@ + decimal(p.cols),
        "height "@ + decimal(p.rows),
        kw_rows(),
    ] + clue_lines(p.row_clues) + seq![kw_columns()] + clue_lines(p.col_clues)
}

/// The export form of a puzzle, each line ended by a newline.
pub open spec fn export_non_spec(p: PuzzleView) -> Seq<char> {
    join_lines(export_lines(p))
}

fn push_text_line(out: &mut String, line: &String, Ghost(ls): Ghost<Seq<Seq<char>>>)
    requires
        old(out)@ == join_lines(ls),
    ensures
        final(out)@ == join_lines(ls.push(line@)),
{
    let cs = chars_of(line.as_str());
    push_line(out, cs.as_slice(), Ghost(ls));
}

fn prefixed(prefix: &str, rest: &[char]) -> (s: String)
    ensures
        s@ == prefix@ + rest@,
{
    let mut s = String::new();
    let p = chars_of(prefix);
    push_chars(&mut s, p.as_slice());
    push_chars(&mut s, rest);
    proof {
        assert(s@ =~= prefix@ + rest@);
    }
    s
}

fn number_line(prefix: &str, n: usize) -> (s: String)
    ensures
        s@ == prefix@ + decimal(n as nat),
{
    let mut s = String::new();
    let p = chars_of(prefix);
    push_chars(&mut s, p.as_slice());
    push_decimal(&mut s, n);
    proof {
        assert(s@ =~= prefix@ + decimal(n as nat));
    }
    s
}

/// Appends the clue lines of `cls`.
fn push_clue_lines(out: &mut String, cls: &Vec<Vec<usize>>, Ghost(ls): Ghost<Seq<Seq<char>>>)
    requires
        old(out)@ == join_lines(ls),
    ensures
        final(out)@ == join_lines(ls + clue_lines(clue_rows(cls@))),
{
    let ghost cv = clue_rows(cls@);
    let ghost mut acc = ls;
    let mut i: usize = 0;
    proof {
        assert(ls + clue_lines(cv).take(0) =~= ls);
    }
    while i < cls.len()
        invariant
            i <= cls@.len(),
            cv == clue_rows(cls@),
            out@ == join_lines(acc),
            acc == ls + clue_lines(cv).take(i as int),
        decreases cls@.len() - i,
    {
        let line = commas_line(&cls[i]);
        push_text_line(out, &line, Ghost(acc));
        proof {
            acc = acc.push(line@);
            assert(clue_lines(cv).take(i + 1) =~= clue_lines(cv).take(i as int).push(
                join_commas(cv[i as int]),
            ));
        }
        i = i + 1;
    }
    proof {
        assert(clue_lines(cv).take(cls@.len() as int) =~= clue_lines(cv));
    }
}

/// The export form of a puzzle: its name, size and clues, as read by other
/// nonogram tools.
pub fn export_non(puzzle: &Puzzle) -> (out: String)
    ensures
        out@ == export_non_spec(puzzle@),
{
    let ghost p = puzzle@;
    let mut out = String::new();
    let ghost mut ls: Seq<Seq<char>> = seq![];
    let name = chars_of(puzzle.name.as_str());
    let title = prefixed("title ", name.as_slice());
    push_text_line(&mut out, &title, Ghost(ls));
    proof {
        ls = ls.push(title@);
    }
    let width = number_line("width ", puzzle.cols);
    push_text_line(&mut out, &width, Ghost(ls));
    proof {
        ls = ls.push(width@);
    }
    let height = number_line("height ", puzzle.rows);
    push_text_line(&mut out, &height, Ghost(ls));
    proof {
        ls = ls.push(height@);
    }
    let rows_kw = String::from_str("rows");
    push_text_line(&mut out, &rows_kw, Ghost(ls));
    proof {
        ls = ls.push(rows_kw@);
        reveal_strlit("rows");
        assert(rows_kw@ =~= kw_rows());
    }
    push_clue_lines(&mut out, &puzzle.row_clues, Ghost(ls));
    proof {
        ls = ls + clue_lines(p.row_clues);
    }
    let cols_kw = String::from_str("columns");
    push_text_line(&mut out, &cols_kw, Ghost(ls));
    proof {
        ls = ls.push(cols_kw@);
        reveal_strlit("columns");
        assert(cols_kw@ =~= kw_columns());
    }
    push_clue_lines(&mut out, &puzzle.col_clues, Ghost(ls));
    proof {
        ls = ls + clue_lines(p.col_clues);
        assert(ls =~= export_lines(p));
    }
    out
}

/// What `str::to_lowercase` gives for a string: each character by its
/// lowercase mapping in Unicode.
pub uninterp spec fn lowercase(s: Seq<char>) -> Seq<char>;

/// Calls `str::to_lowercase`.  Its result is named, not spelled out: the
/// Unicode case tables are not written down here.
#[verifier::external_body]
fn to_lowercase(s: &str) -> (r: String)
    ensures
        r@ == lowercase(s@),
{
    s.to_lowercase()
}

/// `s` with each space made an underscore.
pub open spec fn underscored(s: Seq<char>) -> Seq<char> {
    s.map_values(|c: char| if c == ' ' { '_' } else { c })
}

/// The file name under which a puzzle is exported: its name in lowercase,
/// spaces made underscores, and `.non` after it.
pub fn export_file_name(name: &str) -> (f: String)
    ensures
        f@ == underscored(lowercase(name@)) + ".non"@,
{
    let lower = to_lowercase(name);
    let cs = chars_of(lower.as_str());
    let mut f = String::new();
    let mut i: usize = 0;
    while i < cs.len()
        invariant
            i <= cs@.len(),
            cs@ == lowercase(name@),
            f@ == underscored(cs@.take(i as int)),
        decreases cs@.len() - i,
    {
        let c = cs[i];
        crate::text::push_char(&mut f, if c == ' ' { '_' } else { c });
        proof {
            assert(underscored(cs@.take(i + 1)) =~= underscored(cs@.take(i as int)).push(
                if c == ' ' {
                    '_'
                } else {
                    c
                },
            ));
        }
        i = i + 1;
    }
    let ext = chars_of(".non");
    let ghost f0 = f@;
    push_chars(&mut f, ext.as_slice());
    proof {
        assert(cs@.take(cs@.len() as int) =~= cs@);
    }
    f
}

/// A name that the export form keeps: on one line, and neither starting nor
/// ending with white space or a quote.
pub open spec fn exportable_name(name: Seq<char>) -> bool {
    &&& forall|i: int| 0 <= i < name.len() ==> #[trigger] name[i] != '\n'
    &&& name.len() > 0 ==> !is_ws(name[0]) && !is_ws(name.last()) && name[0] != '"' && name.last()
        != '"'
}

/// A puzzle that `export_non` writes so that `parse_non` reads it back: an
/// exportable name, and clue sections that are not empty, list no empty
/// clue, and give the size of the puzzle.
pub open spec fn exportable(p: PuzzleView) -> bool {
    &&& exportable_name(p.name)
    &&& p.row_clues.len() > 0
    &&& p.col_clues.len() > 0
    &&& forall|r: int| 0 <= r < p.row_clues.len() ==> #[trigger] p.row_clues[r].len() > 0
    &&& forall|c: int| 0 <= c < p.col_clues.len() ==> #[trigger] p.col_clues[c].len() > 0
    &&& p.rows == p.row_clues.len()
    &&& p.cols == p.col_clues.len()
}

/// The bare title line gives the name back.
proof fn lemma_read_bare_title(st: ParseState, name: Seq<char>)
    requires
        exportable_name(name),
    ensures
        parse_step(st, "title "@ + name) == Ok::<ParseState, Seq<char>>(ParseState { name, ..st }),
{
    reveal_strlit("title ");
    let t = "title "@ + name;
    assert(t[0] == 't');
    if name.len() > 0 {
        assert(t.last() == name.last());
        lemma_trim_noop(t, false);
        let rest = t.skip(5);
        assert(t.take(5) =~= kw_title());
        assert(rest =~= seq![' '] + name);
        assert(rest.drop_first() =~= name);
        assert(trim_start(rest, false) == trim_start(name, false));
        assert(trim_start(name, false) == name);
        lemma_trim_noop(name, false);
        assert(trim(rest, false) == name);
        lemma_trim_noop(name, true);
    } else {
        assert(t =~= kw_title().push(' '));
        assert(trim_start(t, false) == t);
        assert(t.drop_last() =~= kw_title());
        assert(trim_end(kw_title(), false) == kw_title());
        assert(trim(t, false) == kw_title());
        let rest = kw_title().skip(5);
        assert(kw_title().take(5) =~= kw_title());
        assert(rest =~= Seq::<char>::empty());
        assert(trim(rest, false) =~= Seq::<char>::empty());
        assert(trim(Seq::<char>::empty(), true) =~= Seq::<char>::empty());
        assert(name =~= Seq::<char>::empty());
    }
}

/// A size line (`width` or `height` and a number) of the header is passed
/// over.
proof fn lemma_read_size_line(st: ParseState, word: Seq<char>, n: nat)
    requires
        st.section == Section::Header,
        word == "width "@ || word == "height "@,
    ensures
        parse_step(st, word + decimal(n)) == Ok::<ParseState, Seq<char>>(st),
        no_newline(word + decimal(n)),
{
    reveal_strlit("width ");
    reveal_strlit("height ");
    let l = word + decimal(n);
    let d = decimal(n);
    lemma_decimal_value(n);
    assert(is_digit(d[d.len() - 1]));
    assert(l.last() == d.last());
    assert(l[0] == word[0]);
    lemma_trim_noop(l, false);
    if l.len() >= 5 && l.take(5) == kw_title() {
        assert(l.take(5)[0] == l[0]);
    }
    if l == kw_rows() {
        assert(l[0] == 'r');
    }
    if l == kw_columns() {
        assert(l[0] == 'c');
    }
    if l == kw_goal() {
        assert(l[0] == 'g');
    }
    assert forall|i: int| 0 <= i < l.len() implies #[trigger] l[i] != '\n' by {
        if i >= word.len() {
            assert(l[i] == d[i - word.len()]);
        }
    }
}

/// Reading what `export_non` writes gives the puzzle back, without its
/// picture, which the export form leaves out.
pub proof fn lemma_export_then_parse(p: PuzzleView)
    requires
        exportable(p),
    ensures
        parse_non_spec(export_non_spec(p)) == Ok::<PuzzleView, Seq<char>>(
            PuzzleView { solution: None, ..p },
        ),
{
    reveal_strlit("title ");
    let ls = export_lines(p);
    let e = Seq::<char>::empty();
    let title = "title "@ + p.name;
    let width = "width "@ + decimal(p.cols);
    let height = "height "@ + decimal(p.rows);
    let head = seq![title, width, height, kw_rows()];
    let mid = seq![kw_columns()];
    assert(ls == head + clue_lines(p.row_clues) + mid + clue_lines(p.col_clues));
    let st0 = parse_init();
    let st1 = ParseState { name: p.name, ..st0 };
    lemma_read_bare_title(st0, p.name);
    lemma_read_size_line(st1, "width "@, p.cols);
    lemma_read_size_line(st1, "height "@, p.rows);
    assert forall|k: int| 0 <= k < ls.len() implies no_newline(#[trigger] ls[k]) by {
        let r1 = 4 + p.row_clues.len();
        let m1 = r1 + 1;
        if k == 0 {
            assert(ls[k] == title);
            assert forall|i: int| 0 <= i < title.len() implies #[trigger] title[i] != '\n' by {
                if i >= 6 {
                    assert(title[i] == p.name[i - 6]);
                }
            }
        } else if k < 4 {
            assert(ls[k] == head[k]);
        } else if k < r1 {
            assert(ls[k] == join_commas(p.row_clues[k - 4]));
            lemma_join_commas(p.row_clues[k - 4]);
        } else if k < m1 {
            assert(ls[k] == kw_columns());
        } else {
            assert(ls[k] == join_commas(p.col_clues[k - m1]));
            lemma_join_commas(p.col_clues[k - m1]);
        }
    }
    lemma_split_join(ls);
    assert(split_on(export_non_spec(p), '\n') == ls.push(e));
    let st2 = ParseState { section: Section::Rows, ..st1 };
    let st3 = ParseState { rows: p.row_clues, ..st2 };
    let st4 = ParseState { section: Section::Columns, ..st3 };
    let st5 = ParseState { cols: p.col_clues, ..st4 };
    assert(parse_lines(Ok(st0), head) == Ok::<ParseState, Seq<char>>(st2)) by {
        lemma_parse_three(Ok(st0), title, width, height);
        assert(head =~= seq![title, width, height].push(kw_rows()));
        lemma_parse_lines_push(Ok(st0), seq![title, width, height], kw_rows());
        lemma_trim_noop(kw_rows(), false);
    }
    lemma_read_clues(st2, p.row_clues);
    assert(st2.rows + p.row_clues =~= p.row_clues);
    assert(parse_lines(Ok(st3), mid) == Ok::<ParseState, Seq<char>>(st4)) by {
        lemma_parse_one(Ok(st3), kw_columns());
        lemma_trim_noop(kw_columns(), false);
        assert(kw_columns().take(5)[0] != kw_title()[0]);
    }
    lemma_read_clues(st4, p.col_clues);
    assert(st4.cols + p.col_clues =~= p.col_clues);
    let a = head + clue_lines(p.row_clues);
    let b = a + mid;
    lemma_parse_lines_concat(Ok(st0), head, clue_lines(p.row_clues));
    lemma_parse_lines_concat(Ok(st0), a, mid);
    lemma_parse_lines_concat(Ok(st0), b, clue_lines(p.col_clues));
    assert(parse_lines(Ok(st0), ls) == Ok::<ParseState, Seq<char>>(st5));
    assert(ls.push(e) == ls + seq![e]);
    lemma_parse_lines_concat(Ok(st0), ls, seq![e]);
    assert(parse_lines(Ok(st5), seq![e]) == Ok::<ParseState, Seq<char>>(st5)) by {
        lemma_parse_one(Ok(st5), e);
        assert(trim(e, false) =~= e);
    }
}

} // verus!
