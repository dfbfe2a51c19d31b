use vstd::prelude::*;

verus! {

/// The state of one cell on the player's board.
#[derive(Clone, Copy, PartialEq, Eq, Debug, Structural)]
pub enum CellState {
    Empty,
    Filled,
    Crossed,
}

/// A nonogram: its name, size, clues, and the picture it encodes when known.
pub struct Puzzle {
    pub name: String,
    pub rows: usize,
    pub cols: usize,
    pub solution: Option<Vec<Vec<bool>>>,
    pub row_clues: Vec<Vec<usize>>,
    pub col_clues: Vec<Vec<usize>>,
}

/// The views of a list of clue vectors.
pub open spec fn clue_rows(v: Seq<Vec<usize>>) -> Seq<Seq<usize>> {
    v.map_values(|c: Vec<usize>| c@)
}

/// The views of the rows of a grid of booleans.
pub open spec fn bool_rows(v: Seq<Vec<bool>>) -> Seq<Seq<bool>> {
    v.map_values(|r: Vec<bool>| r@)
}

/// Column `c` of grid `s`, over its first `h` rows.
pub open spec fn column(s: Seq<Seq<bool>>, c: int, h: int) -> Seq<bool> {
    Seq::new(h as nat, |r: int| s[r][c])
}

/// `s` is a `rows` x `cols` grid in which row `r` fits `rc[r]` for every row
/// clue, and column `c`, over the rows that have a clue, fits `cc[c]` for
/// every column clue.
pub open spec fn solves_clues(
    s: Seq<Seq<bool>>,
    rc: Seq<Seq<usize>>,
    cc: Seq<Seq<usize>>,
    rows: int,
    cols: int,
) -> bool {
    &&& s.len() == rows
    &&& forall|r: int| 0 <= r < rows ==> #[trigger] s[r].len() == cols
    &&& forall|r: int| 0 <= r < rc.len() ==> fits(#[trigger] s[r], rc[r])
    &&& forall|c: int| 0 <= c < cc.len() ==> fits(#[trigger] column(s, c, rc.len() as int), cc[c])
}

/// The mathematical content of a puzzle.
pub struct PuzzleView {
    pub name: Seq<char>,
    pub rows: nat,
    pub cols: nat,
    pub solution: Option<Seq<Seq<bool>>>,
    pub row_clues: Seq<Seq<usize>>,
    pub col_clues: Seq<Seq<usize>>,
}

impl View for Puzzle {
    type V = PuzzleView;

    open spec fn view(&self) -> PuzzleView {
        PuzzleView {
            name: self.name@,
            rows: self.rows as nat,
            cols: self.cols as nat,
            solution: match self.solution {
                Some(s) => Some(bool_rows(s@)),
                None => None,
            },
            row_clues: clue_rows(self.row_clues@),
            col_clues: clue_rows(self.col_clues@),
        }
    }
}

impl Puzzle {
    /// `s` is a solution of the puzzle: a grid of its size that fits all of
    /// its clues.
    pub open spec fn is_solved_by(&self, s: Seq<Seq<bool>>) -> bool {
        solves_clues(
            s,
            clue_rows(self.row_clues@),
            clue_rows(self.col_clues@),
            self.rows as int,
            self.cols as int,
        )
    }
}

/// Index just past the run of filled cells that starts at `i`
/// (`i` itself when cell `i` is blank or out of range).
pub open spec fn run_end(p: Seq<bool>, i: int) -> int
    decreases p.len() - i,
{
    if i < 0 || i >= p.len() || !p[i] {
        i
    } else {
        run_end(p, i + 1)
    }
}

/// A run ends within the line, on an empty cell or at the end.
pub proof fn lemma_run_end(p: Seq<bool>, i: int)
    requires
        0 <= i <= p.len(),
    ensures
        i <= run_end(p, i) <= p.len(),
        i < p.len() && p[i] ==> i < run_end(p, i),
        forall|j: int| i <= j < run_end(p, i) ==> p[j],
        run_end(p, i) < p.len() ==> !p[run_end(p, i)],
    decreases p.len() - i,
{
    if i < p.len() && p[i] {
        lemma_run_end(p, i + 1);
    }
}

/// Lengths of the maximal runs of filled cells in `p[i..]`, left to right.
pub open spec fn runs_from(p: Seq<bool>, i: int) -> Seq<usize>
    decreases p.len() - i,
{
    if i < 0 || i >= p.len() {
        seq![]
    } else if !p[i] {
        runs_from(p, i + 1)
    } else {
        proof {
            lemma_run_end(p, i);
        }
        seq![(run_end(p, i) - i) as usize] + runs_from(p, run_end(p, i))
    }
}

/// The clue of a line: the lengths of its runs of filled cells, or `[0]`
/// for a line without any filled cell.
pub open spec fn clue_of(p: Seq<bool>) -> Seq<usize> {
    if runs_from(p, 0).len() == 0 {
        seq![0usize]
    } else {
        runs_from(p, 0)
    }
}

/// The number of cells that the blocks of `cl` take up at the least:
/// their lengths plus one blank between each two of them.
pub open spec fn need(cl: Seq<usize>) -> int
    decreases cl.len(),
{
    if cl.len() == 0 {
        0
    } else if cl.len() == 1 {
        cl[0] as int
    } else {
        cl[0] + 1 + need(cl.drop_first())
    }
}

/// In `p`, the cells from `pos` up to `s` are blank, a block of `c` filled
/// cells starts at `s`, and the cell right after it (if any) is blank.
pub open spec fn block_at(p: Seq<bool>, pos: int, s: int, c: int) -> bool {
    &&& pos <= s
    &&& forall|j: int| pos <= j < s ==> !#[trigger] p[j]
    &&& forall|j: int| s <= j < s + c ==> #[trigger] p[j]
    &&& s + c < p.len() ==> !p[s + c]
}

/// The cells of `p` from `pos` on are exactly a placement of the blocks of
/// `cl`, in order, each block followed by at least one blank.
pub open spec fn place_ok(p: Seq<bool>, cl: Seq<usize>, pos: int) -> bool
    decreases cl.len(),
{
    if cl.len() == 0 {
        forall|j: int| pos <= j < p.len() ==> !#[trigger] p[j]
    } else {
        exists|s: int|
            #[trigger] block_at(p, pos, s, cl[0] as int) && s + need(cl) <= p.len() && place_ok(
                p,
                cl.drop_first(),
                s + cl[0] + 1,
            )
    }
}

/// A line fits a clue when its filled cells are a placement of the clue's
/// blocks. For a clue of positive lengths this means that the line's runs
/// are the clue; the clue `[0]` (like the empty clue) fits the blank line.
pub open spec fn fits(p: Seq<bool>, cl: Seq<usize>) -> bool {
    place_ok(p, cl, 0)
}

/// For the clue `[0]`, exactly the blank line fits.
pub proof fn lemma_fits_zero_clue(p: Seq<bool>)
    ensures
        fits(p, seq![0usize]) == (forall|j: int| 0 <= j < p.len() ==> !p[j]),
{
    let cl = seq![0usize];
    assert(cl.drop_first() =~= Seq::<usize>::empty());
    if fits(p, cl) {
        let s = choose|s: int|
            #[trigger] block_at(p, 0, s, cl[0] as int) && s + need(cl) <= p.len() && place_ok(
                p,
                cl.drop_first(),
                s + cl[0] + 1,
            );
        assert forall|j: int| 0 <= j < p.len() implies !p[j] by {
            if j < s {
                assert(!p[j]);
            } else if j == s {
            } else {
                assert(!p[j]);
            }
        }
    }
    if forall|j: int| 0 <= j < p.len() ==> !p[j] {
        assert(cl[0] == 0);
        assert(need(cl) == 0);
        assert(block_at(p, 0, 0, cl[0] as int));
        assert(place_ok(p, cl.drop_first(), 1));
    }
}

proof fn lemma_need_nonneg(cl: Seq<usize>)
    ensures
        need(cl) >= 0,
    decreases cl.len(),
{
    if cl.len() > 1 {
        lemma_need_nonneg(cl.drop_first());
    }
}

/// Runs are found only where cells are filled.
proof fn lemma_runs_blank(p: Seq<bool>, i: int)
    requires
        0 <= i,
    ensures
        (runs_from(p, i).len() == 0) == (forall|j: int| i <= j < p.len() ==> !p[j]),
    decreases p.len() - i,
{
    if i < p.len() {
        lemma_runs_blank(p, i + 1);
        if p[i] {
            lemma_run_end(p, i);
        }
    }
}

/// The blocks needed by the runs of `p[i..]` fit in `p[i..]`.
proof fn lemma_runs_need(p: Seq<bool>, i: int)
    requires
        0 <= i <= p.len() <= usize::MAX,
    ensures
        runs_from(p, i).len() > 0 ==> need(runs_from(p, i)) <= p.len() - i,
        forall|j: int| 0 <= j < runs_from(p, i).len() ==> #[trigger] runs_from(p, i)[j] >= 1,
    decreases p.len() - i,
{
    if i < p.len() {
        if !p[i] {
            lemma_runs_need(p, i + 1);
        } else {
            lemma_run_end(p, i);
            let e = run_end(p, i);
            let rest = runs_from(p, e);
            let r = runs_from(p, i);
            assert(r == seq![(e - i) as usize] + rest);
            assert(r.drop_first() =~= rest);
            lemma_runs_need(p, e);
            if rest.len() > 0 {
                lemma_runs_blank(p, e);
                if e < p.len() {
                    assert(!p[e]);
                    assert(runs_from(p, e) == runs_from(p, e + 1));
                    lemma_runs_need(p, e + 1);
                } else {
                    assert(rest.len() == 0);
                }
            }
            assert forall|j: int| 0 <= j < r.len() implies #[trigger] r[j] >= 1 by {
                if j > 0 {
                    assert(r[j] == rest[j - 1]);
                }
            }
        }
    }
}

/// A line's own runs are a placement of its filled cells.
proof fn lemma_runs_place(p: Seq<bool>, i: int)
    requires
        0 <= i <= p.len() <= usize::MAX,
    ensures
        place_ok(p, runs_from(p, i), i),
    decreases p.len() - i,
{
    if i == p.len() {
        assert(runs_from(p, i).len() == 0);
    } else if !p[i] {
        lemma_runs_place(p, i + 1);
        let r = runs_from(p, i + 1);
        assert(runs_from(p, i) == r);
        if r.len() > 0 {
            let s = choose|s: int|
                #[trigger] block_at(p, i + 1, s, r[0] as int) && s + need(r) <= p.len() && place_ok(
                    p,
                    r.drop_first(),
                    s + r[0] + 1,
                );
            assert(block_at(p, i, s, r[0] as int));
        } else {
            assert forall|j: int| i <= j < p.len() implies !#[trigger] p[j] by {
                if j > i {
                    assert(!p[j]);
                }
            }
        }
    } else {
        lemma_run_end(p, i);
        let e = run_end(p, i);
        let r = runs_from(p, i);
        assert(r == seq![(e - i) as usize] + runs_from(p, e));
        assert(r[0] == e - i);
        assert(r.drop_first() =~= runs_from(p, e));
        lemma_runs_need(p, i);
        if e < p.len() {
            assert(runs_from(p, e) == runs_from(p, e + 1));
            lemma_runs_place(p, e + 1);
        } else {
            assert(runs_from(p, e).len() == 0);
            assert(place_ok(p, runs_from(p, e), e + 1));
        }
        assert(place_ok(p, r.drop_first(), i + r[0] + 1));
        assert(block_at(p, i, i, r[0] as int));
    }
}

/// Skipping blank cells does not change the runs.
proof fn lemma_runs_skip(p: Seq<bool>, i: int, s: int)
    requires
        0 <= i <= s,
        forall|j: int| i <= j < s ==> !p[j],
    ensures
        runs_from(p, i) == runs_from(p, s),
    decreases s - i,
{
    if i < s {
        if i < p.len() {
            assert(!p[i]);
            lemma_runs_skip(p, i + 1, s);
        }
    }
}

/// A placement of blocks of positive lengths is the line's runs.
proof fn lemma_place_runs(p: Seq<bool>, cl: Seq<usize>, pos: int)
    requires
        0 <= pos <= p.len() + 1,
        forall|j: int| 0 <= j < cl.len() ==> #[trigger] cl[j] >= 1,
        place_ok(p, cl, pos),
    ensures
        runs_from(p, pos) == cl,
    decreases cl.len(),
{
    if cl.len() == 0 {
        lemma_runs_blank(p, pos);
    } else {
        let c = cl[0] as int;
        let s = choose|s: int|
            #[trigger] block_at(p, pos, s, cl[0] as int) && s + need(cl) <= p.len() && place_ok(
                p,
                cl.drop_first(),
                s + cl[0] + 1,
            );
        let rest = cl.drop_first();
        lemma_need_nonneg(rest);
        assert(need(cl) >= c) by {
            if cl.len() > 1 {
            }
        }
        lemma_runs_skip(p, pos, s);
        assert(p[s]);
        assert(run_end(p, s) == s + c) by {
            lemma_run_end(p, s);
            let e = run_end(p, s);
            if e < s + c {
                assert(p[e]);
            }
            if e > s + c {
                assert(p[s + c]);
            }
        }
        assert(runs_from(p, s) == seq![c as usize] + runs_from(p, s + c));
        assert forall|j: int| 0 <= j < rest.len() implies #[trigger] rest[j] >= 1 by {
            assert(rest[j] == cl[j + 1]);
        }
        if s + c < p.len() {
            assert(runs_from(p, s + c) == runs_from(p, s + c + 1));
            lemma_place_runs(p, rest, s + c + 1);
        } else {
            if rest.len() > 0 {
                let s2 = choose|s2: int|
                    #[trigger] block_at(p, s + c + 1, s2, rest[0] as int) && s2 + need(rest)
                        <= p.len() && place_ok(p, rest.drop_first(), s2 + rest[0] + 1);
            }
            assert(rest.len() == 0);
            assert(runs_from(p, s + c).len() == 0);
        }
        assert(runs_from(p, pos) =~= cl);
    }
}

/// A clue in normal form: `[0]`, or one or more positive lengths.
pub open spec fn normal_clue(cl: Seq<usize>) -> bool {
    cl == seq![0usize] || (cl.len() > 0 && forall|j: int| 0 <= j < cl.len() ==> #[trigger] cl[j] >= 1)
}

/// Every line fits its own clue.
pub proof fn lemma_fits_own_clue(p: Seq<bool>)
    requires
        p.len() <= usize::MAX,
    ensures
        fits(p, clue_of(p)),
        normal_clue(clue_of(p)),
{
    lemma_runs_need(p, 0);
    if runs_from(p, 0).len() == 0 {
        lemma_runs_blank(p, 0);
        lemma_fits_zero_clue(p);
    } else {
        lemma_runs_place(p, 0);
    }
}

proof fn lemma_run_end_prefix(a: Seq<bool>, b: Seq<bool>, i: int)
    requires
        0 <= i <= a.len(),
    ensures
        run_end(a + seq![false] + b, i) == run_end(a, i),
    decreases a.len() - i,
{
    let p = a + seq![false] + b;
    if i < a.len() {
        assert(p[i] == a[i]);
        if a[i] {
            lemma_run_end_prefix(a, b, i + 1);
        }
    } else {
        assert(p[i] == false);
    }
}

proof fn lemma_run_end_shift(x: Seq<bool>, y: Seq<bool>, j: int)
    requires
        0 <= j <= y.len(),
    ensures
        run_end(x + y, x.len() + j) == x.len() + run_end(y, j),
    decreases y.len() - j,
{
    if j < y.len() {
        assert((x + y)[x.len() + j] == y[j]);
        if y[j] {
            lemma_run_end_shift(x, y, j + 1);
        }
    }
}

/// The runs of a line after a prefix are those of the line alone.
proof fn lemma_runs_shift(x: Seq<bool>, y: Seq<bool>, j: int)
    requires
        0 <= j <= y.len(),
    ensures
        runs_from(x + y, x.len() + j) == runs_from(y, j),
    decreases y.len() - j,
{
    if j < y.len() {
        assert((x + y)[x.len() + j] == y[j]);
        if !y[j] {
            lemma_runs_shift(x, y, j + 1);
        } else {
            lemma_run_end(y, j);
            lemma_run_end_shift(x, y, j);
            lemma_runs_shift(x, y, run_end(y, j));
        }
    }
}

/// The runs of two lines joined by a blank cell are the runs of the first
/// followed by those of the second.
proof fn lemma_runs_concat(a: Seq<bool>, b: Seq<bool>, i: int)
    requires
        0 <= i <= a.len(),
    ensures
        runs_from(a + seq![false] + b, i) == runs_from(a, i) + runs_from(b, 0),
    decreases a.len() - i,
{
    let p = a + seq![false] + b;
    if i == a.len() {
        assert(p[i] == false);
        let x = a + seq![false];
        assert(p =~= x + b);
        lemma_runs_shift(x, b, 0);
        assert(runs_from(a, i) =~= Seq::<usize>::empty());
        assert(runs_from(a, i) + runs_from(b, 0) =~= runs_from(b, 0));
    } else {
        assert(p[i] == a[i]);
        if !a[i] {
            lemma_runs_concat(a, b, i + 1);
        } else {
            lemma_run_end(a, i);
            lemma_run_end_prefix(a, b, i);
            let e = run_end(a, i);
            lemma_runs_concat(a, b, e);
            let head = seq![(e - i) as usize];
            assert(runs_from(p, i) == head + runs_from(p, e));
            assert(runs_from(a, i) == head + runs_from(a, e));
            assert(head + (runs_from(a, e) + runs_from(b, 0)) =~= (head + runs_from(a, e))
                + runs_from(b, 0));
        }
    }
}

/// The start of the last run of filled cells at the end of `p` (its length
/// when `p` ends blank).
spec fn last_run_start(p: Seq<bool>) -> int
    decreases p.len(),
{
    if p.len() == 0 || !p.last() {
        p.len() as int
    } else {
        last_run_start(p.drop_last())
    }
}

proof fn lemma_last_run_start(p: Seq<bool>)
    ensures
        0 <= last_run_start(p) <= p.len(),
        forall|k: int| last_run_start(p) <= k < p.len() ==> #[trigger] p[k],
        last_run_start(p) > 0 ==> !p[last_run_start(p) - 1],
    decreases p.len(),
{
    if p.len() > 0 && p.last() {
        let q = p.drop_last();
        lemma_last_run_start(q);
        assert forall|k: int| last_run_start(p) <= k < p.len() implies #[trigger] p[k] by {
            if k < q.len() {
                assert(p[k] == q[k]);
            }
        }
        if last_run_start(p) > 0 {
            assert(p[last_run_start(p) - 1] == q[last_run_start(q) - 1]);
        }
    }
}

/// A line of filled cells only is one run.
proof fn lemma_runs_full(r: Seq<bool>)
    requires
        r.len() > 0,
        forall|k: int| 0 <= k < r.len() ==> #[trigger] r[k],
    ensures
        runs_from(r, 0) == seq![r.len() as usize],
{
    lemma_run_end(r, 0);
    let e = run_end(r, 0);
    if e < r.len() {
        assert(r[e]);
    }
    assert(runs_from(r, e) =~= Seq::<usize>::empty());
    assert(seq![r.len() as usize] + Seq::<usize>::empty() =~= seq![r.len() as usize]);
}

/// The runs of a reversed line are its runs reversed.
proof fn lemma_runs_reverse(p: Seq<bool>)
    ensures
        runs_from(p.reverse(), 0) == runs_from(p, 0).reverse(),
    decreases p.len(),
{
    let e = Seq::<bool>::empty();
    assert(runs_from(e, 0) =~= Seq::<usize>::empty());
    if p.len() == 0 {
        assert(p.reverse() =~= e);
        assert(runs_from(p, 0).reverse() =~= Seq::<usize>::empty());
    } else if !p.last() {
        let q = p.drop_last();
        assert(p =~= q + seq![false] + e);
        lemma_runs_concat(q, e, 0);
        assert(runs_from(q, 0) + runs_from(e, 0) =~= runs_from(q, 0));
        assert(p.reverse() =~= e + seq![false] + q.reverse());
        lemma_runs_concat(e, q.reverse(), 0);
        assert(runs_from(e, 0) + runs_from(q.reverse(), 0) =~= runs_from(q.reverse(), 0));
        lemma_runs_reverse(q);
    } else {
        lemma_last_run_start(p);
        let j = last_run_start(p);
        let run = p.subrange(j, p.len() as int);
        assert forall|k: int| 0 <= k < run.len() implies #[trigger] run[k] by {
            assert(run[k] == p[j + k]);
        }
        assert forall|k: int| 0 <= k < run.reverse().len() implies #[trigger] run.reverse()[k] by {
            assert(run.reverse()[k] == run[run.len() - 1 - k]);
        }
        assert(p[p.len() - 1]);
        lemma_runs_full(run);
        lemma_runs_full(run.reverse());
        if j == 0 {
            assert(run =~= p);
            assert(run.reverse() =~= p.reverse());
            assert(seq![p.len() as usize].reverse() =~= seq![p.len() as usize]);
        } else {
            let q = p.subrange(0, j - 1);
            assert(p =~= q + seq![false] + run);
            lemma_runs_concat(q, run, 0);
            assert(p.reverse() =~= run.reverse() + seq![false] + q.reverse());
            lemma_runs_concat(run.reverse(), q.reverse(), 0);
            lemma_runs_reverse(q);
            let m = seq![run.len() as usize];
            assert((runs_from(q, 0) + m).reverse() =~= m + runs_from(q, 0).reverse());
        }
    }
}

/// Reversing a line reverses its clue.
pub proof fn lemma_clue_reverse(p: Seq<bool>)
    ensures
        clue_of(p.reverse()) == clue_of(p).reverse(),
{
    lemma_runs_reverse(p);
    assert(seq![0usize].reverse() =~= seq![0usize]);
    if runs_from(p, 0).len() == 0 {
        assert(runs_from(p, 0).reverse().len() == 0);
    }
}

/// Two lines that each have a filled cell, joined by a blank cell, have
/// the clue of the first followed by that of the second.
pub proof fn lemma_clue_concat(a: Seq<bool>, b: Seq<bool>)
    requires
        exists|i: int| 0 <= i < a.len() && a[i],
        exists|i: int| 0 <= i < b.len() && b[i],
    ensures
        clue_of(a + seq![false] + b) == clue_of(a) + clue_of(b),
{
    lemma_runs_concat(a, b, 0);
    lemma_runs_blank(a, 0);
    lemma_runs_blank(b, 0);
}

/// For a clue in normal form, a line fits it exactly when the clue is the
/// line's own clue.
pub proof fn lemma_fits_iff_clue(p: Seq<bool>, cl: Seq<usize>)
    requires
        p.len() <= usize::MAX,
        normal_clue(cl),
    ensures
        fits(p, cl) <==> clue_of(p) == cl,
{
    lemma_fits_own_clue(p);
    if cl == seq![0usize] {
        lemma_fits_zero_clue(p);
        lemma_runs_blank(p, 0);
        if clue_of(p) == cl {
            if runs_from(p, 0).len() > 0 {
                assert(runs_from(p, 0) == cl);
                assert(cl[0] == 0);
                lemma_runs_need(p, 0);
                assert(runs_from(p, 0)[0] >= 1);
            }
        }
    } else {
        if fits(p, cl) {
            lemma_place_runs(p, cl, 0);
        }
    }
}

/// The clue of a line: the lengths of the runs of filled cells in order,
/// or `[0]` when the line has no filled cell.
pub fn derive_clues(line: &[bool]) -> (clues: Vec<usize>)
    ensures
        clues@ == clue_of(line@),
{
    let ghost p = line@;
    let n = line.len();
    let mut clues: Vec<usize> = Vec::new();
    let mut count: usize = 0;
    let mut i: usize = 0;
    while i < n
        invariant
            n == p.len(),
            p == line@,
            count <= i <= n,
            forall|j: int| i - count <= j < i ==> p[j],
            i - count == 0 || !p[i - count - 1],
            count == 0 ==> clues@ + runs_from(p, i as int) == runs_from(p, 0),
            count > 0 ==> clues@ + seq![(run_end(p, i as int) - (i - count)) as usize]
                + runs_from(p, run_end(p, i as int)) == runs_from(p, 0),
        decreases n - i,
    {
        proof {
            lemma_run_end(p, i as int);
            lemma_run_end(p, i + 1);
        }
        if line[i] {
            if count == 0 {
                assert(run_end(p, i + 1) == run_end(p, i as int));
                assert(runs_from(p, i as int) == seq![(run_end(p, i as int) - i) as usize]
                    + runs_from(p, run_end(p, i as int)));
            }
            count = count + 1;
        } else {
            assert(runs_from(p, i as int) == runs_from(p, i + 1));
            if count > 0 {
                assert(run_end(p, i as int) == i);
                let ghost old_clues = clues@;
                clues.push(count);
                assert(clues@ + runs_from(p, i + 1) == old_clues + seq![count]
                    + runs_from(p, i + 1));
                count = 0;
            }
        }
        i = i + 1;
    }
    if count > 0 {
        let ghost old_clues = clues@;
        clues.push(count);
        assert(runs_from(p, n as int) == Seq::<usize>::empty());
        assert(clues@ == old_clues + seq![count] + runs_from(p, n as int));
    } else {
        assert(clues@ + runs_from(p, n as int) == clues@);
    }
    if clues.len() == 0 {
        clues.push(0);
    }
    clues
}


/// Column `c` of a boolean grid, over its first `h` rows, as a vector.
fn column_of(grid: &Vec<Vec<bool>>, c: usize, h: usize) -> (col: Vec<bool>)
    requires
        h <= grid@.len(),
        forall|r: int| 0 <= r < h ==> c < #[trigger] grid@[r]@.len(),
    ensures
        col@ == column(bool_rows(grid@), c as int, h as int),
{
    let mut col: Vec<bool> = Vec::new();
    let mut r: usize = 0;
    while r < h
        invariant
            r <= h <= grid@.len(),
            forall|q: int| 0 <= q < h ==> c < #[trigger] grid@[q]@.len(),
            col@ == column(bool_rows(grid@), c as int, r as int),
        decreases h - r,
    {
        proof {
            assert(c < grid@[r as int]@.len());
        }
        col.push(grid[r][c]);
        proof {
            assert(col@ =~= column(bool_rows(grid@), c as int, r + 1));
        }
        r = r + 1;
    }
    col
}

/// The puzzle whose picture is `s`: its size is that of `s` (the first row
/// gives the width) and its clues are those of the rows and columns of `s`.
pub open spec fn picture_puzzle(name: Seq<char>, s: Seq<Seq<bool>>) -> PuzzleView {
    let rows = s.len();
    let cols = if rows > 0 {
        s[0].len()
    } else {
        0
    };
    PuzzleView {
        name,
        rows,
        cols,
        solution: Some(s),
        row_clues: s.map_values(|row: Seq<bool>| clue_of(row)),
        col_clues: Seq::new(cols, |c: int| clue_of(column(s, c, rows as int))),
    }
}

/// A picture solves the puzzle made from it.
pub proof fn lemma_picture_solves(name: Seq<char>, s: Seq<Seq<bool>>)
    requires
        forall|r: int| 0 <= r < s.len() ==> #[trigger] s[r].len() == s[0].len(),
        forall|r: int| 0 <= r < s.len() ==> #[trigger] s[r].len() <= usize::MAX,
        s.len() <= usize::MAX,
    ensures
        ({
            let p = picture_puzzle(name, s);
            solves_clues(s, p.row_clues, p.col_clues, p.rows as int, p.cols as int)
        }),
{
    let p = picture_puzzle(name, s);
    assert forall|r: int| 0 <= r < p.row_clues.len() implies fits(#[trigger] s[r], p.row_clues[r]) by {
        lemma_fits_own_clue(s[r]);
    }
    assert forall|c: int| 0 <= c < p.col_clues.len() implies fits(
        #[trigger] column(s, c, p.row_clues.len() as int),
        p.col_clues[c],
    ) by {
        lemma_fits_own_clue(column(s, c, s.len() as int));
    }
}

impl Puzzle {
    /// A puzzle made from its picture: the clues are derived from the rows
    /// and columns of `solution`, whose first row gives the width.
    pub fn new(name: &str, solution: Vec<Vec<bool>>) -> (p: Puzzle)
        requires
            forall|r: int|
                0 <= r < solution@.len() ==> #[trigger] solution@[r]@.len() >= solution@[0]@.len(),
        ensures
            p@ == picture_puzzle(name@, bool_rows(solution@)),
            p.solution == Some(solution),
    {
        let rows = solution.len();
        let cols = if rows > 0 {
            solution[0].len()
        } else {
            0
        };
        let mut row_clues: Vec<Vec<usize>> = Vec::new();
        let mut r: usize = 0;
        while r < rows
            invariant
                r <= rows,
                rows == solution@.len(),
                row_clues@.len() == r,
                forall|q: int| 0 <= q < r ==> #[trigger] row_clues@[q]@ == clue_of(solution@[q]@),
            decreases rows - r,
        {
            row_clues.push(derive_clues(solution[r].as_slice()));
            r = r + 1;
        }
        let mut col_clues: Vec<Vec<usize>> = Vec::new();
        let mut c: usize = 0;
        while c < cols
            invariant
                c <= cols,
                rows == solution@.len(),
                cols == (if rows > 0 {
                    solution@[0]@.len()
                } else {
                    0
                }),
                forall|q: int| 0 <= q < rows ==> #[trigger] solution@[q]@.len() >= cols,
                col_clues@.len() == c,
                forall|q: int|
                    0 <= q < c ==> #[trigger] col_clues@[q]@ == clue_of(
                        column(bool_rows(solution@), q, rows as int),
                    ),
            decreases cols - c,
        {
            let col = column_of(&solution, c, rows);
            col_clues.push(derive_clues(col.as_slice()));
            c = c + 1;
        }
        let ghost pic = bool_rows(solution@);
        let p = Puzzle {
            name: String::from_str(name),
            rows,
            cols,
            solution: Some(solution),
            row_clues,
            col_clues,
        };
        proof {
            assert(clue_rows(p.row_clues@) =~= pic.map_values(|row: Seq<bool>| clue_of(row)));
            assert(clue_rows(p.col_clues@) =~= Seq::new(
                cols as nat,
                |c: int| clue_of(column(pic, c, rows as int)),
            ));
        }
        p
    }

    /// A puzzle given by its clues alone, without a picture.
    pub fn from_clues(
        name: String,
        rows: usize,
        cols: usize,
        row_clues: Vec<Vec<usize>>,
        col_clues: Vec<Vec<usize>>,
    ) -> (p: Puzzle)
        ensures
            p.name == name,
            p.rows == rows,
            p.cols == cols,
            p.solution is None,
            p.row_clues == row_clues,
            p.col_clues == col_clues,
    {
        Puzzle { name, rows, cols, solution: None, row_clues, col_clues }
    }
}

/// The filled cells of a line of the board.
pub open spec fn filled_cells(line: Seq<CellState>) -> Seq<bool> {
    line.map_values(|c: CellState| c == CellState::Filled)
}

/// Whether the filled cells of a line of the board make exactly `clue`.
pub fn clue_satisfied(board_line: &[CellState], clue: &[usize]) -> (ok: bool)
    ensures
        ok == (clue_of(filled_cells(board_line@)) == clue@),
{
    let mut filled: Vec<bool> = Vec::new();
    let mut i: usize = 0;
    while i < board_line.len()
        invariant
            i <= board_line@.len(),
            filled@ == filled_cells(board_line@).subrange(0, i as int),
        decreases board_line@.len() - i,
    {
        filled.push(board_line[i] == CellState::Filled);
        proof {
            assert(filled@ =~= filled_cells(board_line@).subrange(0, i + 1));
        }
        i = i + 1;
    }
    proof {
        assert(filled@ =~= filled_cells(board_line@));
    }
    let runs = derive_clues(filled.as_slice());
    if runs.len() != clue.len() {
        return false;
    }
    let mut j: usize = 0;
    while j < clue.len()
        invariant
            j <= clue@.len(),
            runs@.len() == clue@.len(),
            runs@ == clue_of(filled_cells(board_line@)),
            forall|q: int| 0 <= q < j ==> runs@[q] == clue@[q],
        decreases clue@.len() - j,
    {
        if runs[j] != clue[j] {
            proof {
                assert(runs@[j as int] != clue@[j as int]);
                assert(runs@ != clue@);
            }
            return false;
        }
        j = j + 1;
    }
    proof {
        assert(runs@ =~= clue@);
    }
    true
}


/// A picture row written with `#` for a filled cell.
pub open spec fn pattern_bits(s: Seq<char>) -> Seq<bool> {
    s.map_values(|c: char| c == '#')
}

/// The picture drawn by rows of `#` and `.`.
pub open spec fn pattern_picture(rows: Seq<Seq<char>>) -> Seq<Seq<bool>> {
    rows.map_values(|r: Seq<char>| pattern_bits(r))
}

fn picture(rows: &[&str]) -> (grid: Vec<Vec<bool>>)
    ensures
        bool_rows(grid@) == pattern_picture(rows@.map_values(|r: &str| r@)),
{
    let mut grid: Vec<Vec<bool>> = Vec::new();
    let mut i: usize = 0;
    while i < rows.len()
        invariant
            i <= rows@.len(),
            grid@.len() == i,
            forall|q: int| 0 <= q < i ==> #[trigger] grid@[q]@ == pattern_bits(rows@[q]@),
        decreases rows@.len() - i,
    {
        let cs = crate::text::chars_of(rows[i]);
        let mut row: Vec<bool> = Vec::new();
        let mut j: usize = 0;
        while j < cs.len()
            invariant
                j <= cs@.len(),
                row@ == pattern_bits(cs@).take(j as int),
            decreases cs@.len() - j,
        {
            row.push(cs[j] == '#');
            proof {
                assert(row@ =~= pattern_bits(cs@).take(j + 1));
            }
            j = j + 1;
        }
        proof {
            assert(row@ =~= pattern_bits(cs@));
        }
        grid.push(row);
        i = i + 1;
    }
    proof {
        assert(bool_rows(grid@) =~= pattern_picture(rows@.map_values(|r: &str| r@)));
    }
    grid
}

/// The names of the built-in puzzles, in menu order.
pub open spec fn preset_name(k: int) -> Seq<char> {
    if k == 0 {
        "Plus"@
    } else if k == 1 {
        "Hourglass"@
    } else if k == 2 {
        "Diamond"@
    } else if k == 3 {
        "Steps"@
    } else if k == 4 {
        "Z Shape"@
    } else if k == 5 {
        "House"@
    } else if k == 6 {
        "Heart"@
    } else if k == 7 {
        "Arrow"@
    } else if k == 8 {
        "Letter T"@
    } else if k == 9 {
        "Ladder"@
    } else if k == 10 {
        "Frame"@
    } else if k == 11 {
        "Big Cross"@
    } else {
        "H Letter"@
    }
}

/// The pictures of the built-in puzzles, `#` for a filled cell.
pub open spec fn preset_pattern(k: int) -> Seq<Seq<char>> {
    if k == 0 {
        seq![
            "..#.."@,
            "..#.."@,
            "#####"@,
            "..#.."@,
            "..#.."@,
        ]
    } else if k == 1 {
        seq![
            "#####"@,
            ".###."@,
            "..#.."@,
            ".###."@,
            "#####"@,
        ]
    } else if k == 2 {
        seq![
            "..#.."@,
            ".###."@,
            "#####"@,
            ".###."@,
            "..#.."@,
        ]
    } else if k == 3 {
        seq![
            "#...."@,
            "##..."@,
            "###.."@,
            "####."@,
            "#####"@,
        ]
    } else if k == 4 {
        seq![
            "#####"@,
            "...#."@,
            "..#.."@,
            ".#..."@,
            "#####"@,
        ]
    } else if k == 5 {
        seq![
            "....##...."@,
            "...####..."@,
            "..######.."@,
            ".########."@,
            "##########"@,
            "##......##"@,
            "##.####.##"@,
            "##.####.##"@,
            "##.####.##"@,
            "##########"@,
        ]
    } else if k == 6 {
        seq![
            ".##...##.."@,
            "####.####."@,
            "#########."@,
            "#########."@,
            ".#######.."@,
            "..#####..."@,
            "...###...."@,
            "....#....."@,
            ".........."@,
            ".........."@,
        ]
    } else if k == 7 {
        seq![
            "....#....."@,
            "...##....."@,
            "..###....."@,
            ".####....."@,
            "##########"@,
            "##########"@,
            ".####....."@,
            "..###....."@,
            "...##....."@,
            "....#....."@,
        ]
    } else if k == 8 {
        seq![
            "##########"@,
            "##########"@,
            "....##...."@,
            "....##...."@,
            "....##...."@,
            "....##...."@,
            "....##...."@,
            "....##...."@,
            "....##...."@,
            "....##...."@,
        ]
    } else if k == 9 {
        seq![
            ".#......#."@,
            ".########."@,
            ".#......#."@,
            ".#......#."@,
            ".########."@,
            ".#......#."@,
            ".#......#."@,
            ".########."@,
            ".#......#."@,
            ".#......#."@,
        ]
    } else if k == 10 {
        seq![
            "###############"@,
            "#.............#"@,
            "#.............#"@,
            "#.............#"@,
            "#.............#"@,
            "#.............#"@,
            "#.............#"@,
            "#.............#"@,
            "#.............#"@,
            "#.............#"@,
            "#.............#"@,
            "#.............#"@,
            "#.............#"@,
            "#.............#"@,
            "###############"@,
        ]
    } else if k == 11 {
        seq![
            "......###......"@,
            "......###......"@,
            "......###......"@,
            "......###......"@,
            "......###......"@,
            "......###......"@,
            "###############"@,
            "###############"@,
            "###############"@,
            "......###......"@,
            "......###......"@,
            "......###......"@,
            "......###......"@,
            "......###......"@,
            "......###......"@,
        ]
    } else {
        seq![
            "###.........###"@,
            "###.........###"@,
            "###.........###"@,
            "###.........###"@,
            "###.........###"@,
            "###.........###"@,
            "###############"@,
            "###############"@,
            "###############"@,
            "###.........###"@,
            "###.........###"@,
            "###.........###"@,
            "###.........###"@,
            "###.........###"@,
            "###.........###"@,
        ]
    }
}

/// The side of the square picture of built-in puzzle `k`.
pub open spec fn preset_side(k: int) -> nat {
    if k < 5 {
        5
    } else if k < 10 {
        10
    } else {
        15
    }
}

/// `s` has `rows` rows of `cols` cells.
pub open spec fn rectangular(s: Seq<Seq<bool>>, rows: nat, cols: nat) -> bool {
    s.len() == rows && forall|r: int| 0 <= r < rows ==> #[trigger] s[r].len() == cols
}

proof fn lemma_preset_shape(k: int)
    requires
        0 <= k < 13,
    ensures
        rectangular(pattern_picture(preset_pattern(k)), preset_side(k), preset_side(k)),
{
    if k == 0 {
        reveal_strlit("..#..");
        reveal_strlit("#####");
    } else if k == 1 {
        reveal_strlit("#####");
        reveal_strlit(".###.");
        reveal_strlit("..#..");
    } else if k == 2 {
        reveal_strlit("..#..");
        reveal_strlit(".###.");
        reveal_strlit("#####");
    } else if k == 3 {
        reveal_strlit("#....");
        reveal_strlit("##...");
        reveal_strlit("###..");
        reveal_strlit("####.");
        reveal_strlit("#####");
    } else if k == 4 {
        reveal_strlit("#####");
        reveal_strlit("...#.");
        reveal_strlit("..#..");
        reveal_strlit(".#...");
    } else if k == 5 {
        reveal_strlit("....##....");
        reveal_strlit("...####...");
        reveal_strlit("..######..");
        reveal_strlit(".########.");
        reveal_strlit("##########");
        reveal_strlit("##......##");
        reveal_strlit("##.####.##");
    } else if k == 6 {
        reveal_strlit(".##...##..");
        reveal_strlit("####.####.");
        reveal_strlit("#########.");
        reveal_strlit(".#######..");
        reveal_strlit("..#####...");
        reveal_strlit("...###....");
        reveal_strlit("....#.....");
        reveal_strlit("..........");
    } else if k == 7 {
        reveal_strlit("....#.....");
        reveal_strlit("...##.....");
        reveal_strlit("..###.....");
        reveal_strlit(".####.....");
        reveal_strlit("##########");
    } else if k == 8 {
        reveal_strlit("##########");
        reveal_strlit("....##....");
    } else if k == 9 {
        reveal_strlit(".#......#.");
        reveal_strlit(".########.");
    } else if k == 10 {
        reveal_strlit("###############");
        reveal_strlit("#.............#");
    } else if k == 11 {
        reveal_strlit("......###......");
        reveal_strlit("###############");
    } else {
        reveal_strlit("###.........###");
        reveal_strlit("###############");
    }
    let pp = preset_pattern(k);
    let pic = pattern_picture(pp);
    assert forall|r: int| 0 <= r < preset_side(k) implies #[trigger] pic[r].len() == preset_side(k) by {
        assert(pic[r] == pattern_bits(pp[r]));
    }
}

proof fn lemma_preset_picture(g: Seq<Vec<bool>>, k: int)
    requires
        0 <= k < 13,
        bool_rows(g) == pattern_picture(preset_pattern(k)),
        forall|q: int| 0 <= q < preset_pattern(k).len() ==> #[trigger] preset_pattern(k)[q].len()
            == preset_pattern(k)[0].len(),
    ensures
        forall|r: int| 0 <= r < g.len() ==> #[trigger] g[r]@.len() >= g[0]@.len(),
{
    let pp = preset_pattern(k);
    assert(bool_rows(g).len() == g.len());
    assert(pattern_picture(pp).len() == pp.len());
    assert forall|r: int| 0 <= r < g.len() implies #[trigger] g[r]@.len() >= g[0]@.len() by {
        assert(bool_rows(g)[r] == g[r]@);
        assert(bool_rows(g)[0] == g[0]@);
        assert(pattern_picture(preset_pattern(k))[r].len() == preset_pattern(k)[r].len());
        assert(pattern_picture(preset_pattern(k))[0].len() == preset_pattern(k)[0].len());
    }
}

impl Puzzle {
    /// The built-in puzzles, in menu order: five of 5 x 5, five of 10 x 10
    /// and three of 15 x 15.
    pub fn presets() -> (presets: Vec<Puzzle>)
        ensures
            presets@.len() == 13,
            forall|k: int|
                0 <= k < 13 ==> #[trigger] presets@[k]@ == picture_puzzle(
                    preset_name(k),
                    pattern_picture(preset_pattern(k)),
                ),
            forall|k: int|
                0 <= k < 13 ==> rectangular(
                    #[trigger] pattern_picture(preset_pattern(k)),
                    preset_side(k),
                    preset_side(k),
                ),
    {
        let mut presets: Vec<Puzzle> = Vec::new();
        let rows = ["..#..", "..#..", "#####", "..#..", "..#.."];
        let pic = picture(&rows);
        proof {
            reveal_strlit("..#..");
            reveal_strlit("#####");
            assert(rows@.map_values(|r: &str| r@) =~= preset_pattern(0));
            lemma_preset_picture(pic@, 0);
        }
        presets.push(Puzzle::new("Plus", pic));
        let rows = ["#####", ".###.", "..#..", ".###.", "#####"];
        let pic = picture(&rows);
        proof {
            reveal_strlit("#####");
            reveal_strlit(".###.");
            reveal_strlit("..#..");
            assert(rows@.map_values(|r: &str| r@) =~= preset_pattern(1));
            lemma_preset_picture(pic@, 1);
        }
        presets.push(Puzzle::new("Hourglass", pic));
        let rows = ["..#..", ".###.", "#####", ".###.", "..#.."];
        let pic = picture(&rows);
        proof {
            reveal_strlit("..#..");
            reveal_strlit(".###.");
            reveal_strlit("#####");
            assert(rows@.map_values(|r: &str| r@) =~= preset_pattern(2));
            lemma_preset_picture(pic@, 2);
        }
        presets.push(Puzzle::new("Diamond", pic));
        let rows = ["#....", "##...", "###..", "####.", "#####"];
        let pic = picture(&rows);
        proof {
            reveal_strlit("#....");
            reveal_strlit("##...");
            reveal_strlit("###..");
            reveal_strlit("####.");
            reveal_strlit("#####");
            assert(rows@.map_values(|r: &str| r@) =~= preset_pattern(3));
            lemma_preset_picture(pic@, 3);
        }
        presets.push(Puzzle::new("Steps", pic));
        let rows = ["#####", "...#.", "..#..", ".#...", "#####"];
        let pic = picture(&rows);
        proof {
            reveal_strlit("#####");
            reveal_strlit("...#.");
            reveal_strlit("..#..");
            reveal_strlit(".#...");
            assert(rows@.map_values(|r: &str| r@) =~= preset_pattern(4));
            lemma_preset_picture(pic@, 4);
        }
        presets.push(Puzzle::new("Z Shape", pic));
        let rows = ["....##....", "...####...", "..######..", ".########.", "##########", "##......##", "##.####.##", "##.####.##", "##.####.##", "##########"];
        let pic = picture(&rows);
        proof {
            reveal_strlit("....##....");
            reveal_strlit("...####...");
            reveal_strlit("..######..");
            reveal_strlit(".########.");
            reveal_strlit("##########");
            reveal_strlit("##......##");
            reveal_strlit("##.####.##");
            assert(rows@.map_values(|r: &str| r@) =~= preset_pattern(5));
            lemma_preset_picture(pic@, 5);
        }
        presets.push(Puzzle::new("House", pic));
        let rows = [".##...##..", "####.####.", "#########.", "#########.", ".#######..", "..#####...", "...###....", "....#.....", "..........", ".........."];
        let pic = picture(&rows);
        proof {
            reveal_strlit(".##...##..");
            reveal_strlit("####.####.");
            reveal_strlit("#########.");
            reveal_strlit(".#######..");
            reveal_strlit("..#####...");
            reveal_strlit("...###....");
            reveal_strlit("....#.....");
            reveal_strlit("..........");
            assert(rows@.map_values(|r: &str| r@) =~= preset_pattern(6));
            lemma_preset_picture(pic@, 6);
        }
        presets.push(Puzzle::new("Heart", pic));
        let rows = ["....#.....", "...##.....", "..###.....", ".####.....", "##########", "##########", ".####.....", "..###.....", "...##.....", "....#....."];
        let pic = picture(&rows);
        proof {
            reveal_strlit("....#.....");
            reveal_strlit("...##.....");
            reveal_strlit("..###.....");
            reveal_strlit(".####.....");
            reveal_strlit("##########");
            assert(rows@.map_values(|r: &str| r@) =~= preset_pattern(7));
            lemma_preset_picture(pic@, 7);
        }
        presets.push(Puzzle::new("Arrow", pic));
        let rows = ["##########", "##########", "....##....", "....##....", "....##....", "....##....", "....##....", "....##....", "....##....", "....##...."];
        let pic = picture(&rows);
        proof {
            reveal_strlit("##########");
            reveal_strlit("....##....");
            assert(rows@.map_values(|r: &str| r@) =~= preset_pattern(8));
            lemma_preset_picture(pic@, 8);
        }
        presets.push(Puzzle::new("Letter T", pic));
        let rows = [".#......#.", ".########.", ".#......#.", ".#......#.", ".########.", ".#......#.", ".#......#.", ".########.", ".#......#.", ".#......#."];
        let pic = picture(&rows);
        proof {
            reveal_strlit(".#......#.");
            reveal_strlit(".########.");
            assert(rows@.map_values(|r: &str| r@) =~= preset_pattern(9));
            lemma_preset_picture(pic@, 9);
        }
        presets.push(Puzzle::new("Ladder", pic));
        let rows = ["###############", "#.............#", "#.............#", "#.............#", "#.............#", "#.............#", "#.............#", "#.............#", "#.............#", "#.............#", "#.............#", "#.............#", "#.............#", "#.............#", "###############"];
        let pic = picture(&rows);
        proof {
            reveal_strlit("###############");
            reveal_strlit("#.............#");
            assert(rows@.map_values(|r: &str| r@) =~= preset_pattern(10));
            lemma_preset_picture(pic@, 10);
        }
        presets.push(Puzzle::new("Frame", pic));
        let rows = ["......###......", "......###......", "......###......", "......###......", "......###......", "......###......", "###############", "###############", "###############", "......###......", "......###......", "......###......", "......###......", "......###......", "......###......"];
        let pic = picture(&rows);
        proof {
            reveal_strlit("......###......");
            reveal_strlit("###############");
            assert(rows@.map_values(|r: &str| r@) =~= preset_pattern(11));
            lemma_preset_picture(pic@, 11);
        }
        presets.push(Puzzle::new("Big Cross", pic));
        let rows = ["###.........###", "###.........###", "###.........###", "###.........###", "###.........###", "###.........###", "###############", "###############", "###############", "###.........###", "###.........###", "###.........###", "###.........###", "###.........###", "###.........###"];
        let pic = picture(&rows);
        proof {
            reveal_strlit("###.........###");
            reveal_strlit("###############");
            assert(rows@.map_values(|r: &str| r@) =~= preset_pattern(12));
            lemma_preset_picture(pic@, 12);
        }
        presets.push(Puzzle::new("H Letter", pic));
        proof {
            assert forall|k: int| 0 <= k < 13 implies rectangular(
                #[trigger] pattern_picture(preset_pattern(k)),
                preset_side(k),
                preset_side(k),
            ) by {
                lemma_preset_shape(k);
            }
        }
        presets
    }
}

} // verus!
