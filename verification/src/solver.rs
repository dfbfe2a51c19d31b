use vstd::prelude::*;

use crate::puzzle::{
    block_at, bool_rows, clue_rows, column, fits, lemma_fits_zero_clue, need, place_ok, solves_clues,
    Puzzle,
};

verus! {

/// What the solver knows of a cell.
#[derive(Clone, Copy, Debug, PartialEq, Eq, Structural)]
pub enum Cell {
    Unknown,
    Filled,
    Empty,
}

/// A known cell agrees with a value when it says the same; an unknown cell
/// agrees with both.
pub open spec fn agrees(c: Cell, b: bool) -> bool {
    match c {
        Cell::Unknown => true,
        Cell::Filled => b,
        Cell::Empty => !b,
    }
}

/// The full line `p` agrees with every known cell of `line`.
pub open spec fn consistent(line: Seq<Cell>, p: Seq<bool>) -> bool {
    &&& p.len() == line.len()
    &&& forall|j: int| 0 <= j < p.len() ==> #[trigger] agrees(line[j], p[j])
}

spec fn prefix_eq(p: Seq<bool>, cur: Seq<bool>, pos: int) -> bool {
    forall|j: int| 0 <= j < pos && j < p.len() ==> p[j] == cur[j]
}

/// A completion of the partial placement `cur` (fixed before `pos`) that
/// places the blocks `cl` from `pos` on and agrees with `line`.
spec fn cand(line: Seq<Cell>, cl: Seq<usize>, cur: Seq<bool>, pos: int, p: Seq<bool>) -> bool {
    &&& consistent(line, p)
    &&& prefix_eq(p, cur, pos)
    &&& place_ok(p, cl, pos)
}

/// A completion as above whose first block starts at `s`.
spec fn cand_s(
    line: Seq<Cell>,
    cl: Seq<usize>,
    cur: Seq<bool>,
    pos: int,
    s: int,
    p: Seq<bool>,
) -> bool {
    &&& consistent(line, p)
    &&& prefix_eq(p, cur, pos)
    &&& block_at(p, pos, s, cl[0] as int)
    &&& s + need(cl) <= line.len()
    &&& place_ok(p, cl.drop_first(), s + cl[0] + 1)
}

spec fn has_cand(line: Seq<Cell>, cl: Seq<usize>, cur: Seq<bool>, pos: int) -> bool {
    exists|p: Seq<bool>| #[trigger] cand(line, cl, cur, pos, p)
}

spec fn has_cand_at(
    line: Seq<Cell>,
    cl: Seq<usize>,
    cur: Seq<bool>,
    pos: int,
    i: int,
    b: bool,
) -> bool {
    exists|p: Seq<bool>| #[trigger] cand(line, cl, cur, pos, p) && p[i] == b
}

spec fn has_cand_below(
    line: Seq<Cell>,
    cl: Seq<usize>,
    cur: Seq<bool>,
    pos: int,
    lim: int,
) -> bool {
    exists|s: int, p: Seq<bool>| pos <= s < lim && #[trigger] cand_s(line, cl, cur, pos, s, p)
}

spec fn has_cand_below_at(
    line: Seq<Cell>,
    cl: Seq<usize>,
    cur: Seq<bool>,
    pos: int,
    lim: int,
    i: int,
    b: bool,
) -> bool {
    exists|s: int, p: Seq<bool>|
        pos <= s < lim && #[trigger] cand_s(line, cl, cur, pos, s, p) && p[i] == b
}

proof fn lemma_need_first(cl: Seq<usize>)
    requires
        cl.len() > 0,
    ensures
        need(cl) >= cl[0],
    decreases cl.len(),
{
    if cl.len() > 1 {
        lemma_need_first(cl.drop_first());
    }
}

proof fn lemma_need_step(s: Seq<usize>, j: int)
    requires
        0 <= j,
        j + 1 < s.len(),
    ensures
        need(s.subrange(j, s.len() as int)) == s[j] + 1 + need(s.subrange(j + 1, s.len() as int)),
{
    assert(s.subrange(j, s.len() as int).drop_first() =~= s.subrange(j + 1, s.len() as int));
}

proof fn lemma_need_mono(s: Seq<usize>, k: int, j: int)
    requires
        0 <= k <= j < s.len(),
    ensures
        need(s.subrange(k, s.len() as int)) >= need(s.subrange(j, s.len() as int)),
    decreases j - k,
{
    if k < j {
        lemma_need_step(s, k);
        lemma_need_mono(s, k + 1, j);
    }
}

/// `Some(need(clues[k..]))` when that is at most `n`.
fn need_within(clues: &[usize], k: usize, n: usize) -> (r: Option<usize>)
    requires
        k < clues.len(),
    ensures
        match r {
            Some(m) => m == need(clues@.subrange(k as int, clues.len() as int)) && m <= n,
            None => need(clues@.subrange(k as int, clues.len() as int)) > n,
        },
{
    let len = clues.len();
    let mut j = len - 1;
    proof {
        assert(clues@.subrange(j as int, len as int).len() == 1);
        lemma_need_mono(clues@, k as int, j as int);
    }
    if clues[j] > n {
        return None;
    }
    let mut acc = clues[j];
    while j > k
        invariant
            k <= j < len,
            len == clues.len(),
            acc <= n,
            acc == need(clues@.subrange(j as int, len as int)),
        decreases j,
    {
        j = j - 1;
        proof {
            lemma_need_step(clues@, j as int);
            lemma_need_mono(clues@, k as int, j as int);
        }
        if clues[j] >= n - acc {
            return None;
        }
        acc = clues[j] + 1 + acc;
    }
    Some(acc)
}

/// Whether some cell of `line[from..to]` is `v`.
fn any_cell(line: &[Cell], from: usize, to: usize, v: Cell) -> (r: bool)
    requires
        from <= to <= line.len(),
    ensures
        r == exists|j: int| from <= j < to && line@[j] == v,
{
    let mut j = from;
    while j < to
        invariant
            from <= j <= to <= line.len(),
            forall|q: int| from <= q < j ==> line@[q] != v,
        decreases to - j,
    {
        if line[j] == v {
            return true;
        }
        j = j + 1;
    }
    false
}


/// Setting the first block at `s` turns the completions from `pos` whose
/// first block starts at `s` into the completions of the rest from after it.
proof fn lemma_step(
    line: Seq<Cell>,
    cl: Seq<usize>,
    cur: Seq<bool>,
    cur2: Seq<bool>,
    pos: int,
    s: int,
)
    requires
        cl.len() > 0,
        0 <= pos <= s,
        s + need(cl) <= line.len(),
        cur.len() == line.len(),
        cur2.len() == line.len(),
        forall|j: int| pos <= j < line.len() ==> !cur[j],
        forall|j: int|
            0 <= j < line.len() ==> cur2[j] == (if s <= j < s + cl[0] {
                true
            } else {
                cur[j]
            }),
    ensures
        forall|p: Seq<bool>|
            cand(line, cl.drop_first(), cur2, s + cl[0] + 1, p) <==> cand_s(
                line,
                cl,
                cur,
                pos,
                s,
                p,
            ),
{
    let c = cl[0] as int;
    lemma_need_first(cl);
    assert forall|p: Seq<bool>|
        cand(line, cl.drop_first(), cur2, s + c + 1, p) <==> cand_s(line, cl, cur, pos, s, p) by {
        if cand(line, cl.drop_first(), cur2, s + c + 1, p) {
            assert forall|j: int| 0 <= j < pos && j < p.len() implies p[j] == cur[j] by {
                assert(cur2[j] == cur[j]);
            }
            assert forall|j: int| pos <= j < s implies !#[trigger] p[j] by {
                assert(cur2[j] == cur[j]);
            }
            assert forall|j: int| s <= j < s + c implies #[trigger] p[j] by {
                assert(cur2[j]);
            }
            if s + c < p.len() {
                assert(cur2[s + c] == cur[s + c]);
            }
            assert(block_at(p, pos, s, c));
        }
        if cand_s(line, cl, cur, pos, s, p) {
            assert forall|j: int| 0 <= j < s + c + 1 && j < p.len() implies p[j] == cur2[j] by {
                if j < pos {
                } else if j < s {
                    assert(!p[j]);
                } else if j < s + c {
                    assert(p[j]);
                } else {
                }
            }
        }
    }
}

proof fn lemma_below_skip(
    lv: Seq<Cell>,
    cl: Seq<usize>,
    cur0: Seq<bool>,
    pos: int,
    start: int,
    i: int,
    b: bool,
)
    requires
        forall|p: Seq<bool>| !#[trigger] cand_s(lv, cl, cur0, pos, start, p),
    ensures
        has_cand_below_at(lv, cl, cur0, pos, start + 1, i, b) == has_cand_below_at(
            lv,
            cl,
            cur0,
            pos,
            start,
            i,
            b,
        ),
{
    if has_cand_below_at(lv, cl, cur0, pos, start + 1, i, b) {
        let (s, p) = choose|s: int, p: Seq<bool>|
            pos <= s < start + 1 && #[trigger] cand_s(lv, cl, cur0, pos, s, p) && p[i] == b;
    }
}

proof fn lemma_below_step(
    lv: Seq<Cell>,
    cl: Seq<usize>,
    cl2: Seq<usize>,
    cur0: Seq<bool>,
    cur2: Seq<bool>,
    pos: int,
    start: int,
    i: int,
    b: bool,
)
    requires
        cl.len() > 0,
        cl2 == cl.drop_first(),
        forall|p: Seq<bool>|
            cand(lv, cl2, cur2, start + cl[0] + 1, p) <==> cand_s(lv, cl, cur0, pos, start, p),
    ensures
        has_cand_below_at(lv, cl, cur0, pos, start + 1, i, b) == (has_cand_below_at(
            lv,
            cl,
            cur0,
            pos,
            start,
            i,
            b,
        ) || has_cand_at(lv, cl2, cur2, start + cl[0] + 1, i, b)),
{
    if has_cand_below_at(lv, cl, cur0, pos, start + 1, i, b) {
        let (s, p) = choose|s: int, p: Seq<bool>|
            pos <= s < start + 1 && #[trigger] cand_s(lv, cl, cur0, pos, s, p) && p[i] == b;
        if s == start {
            assert(cand(lv, cl2, cur2, start + cl[0] + 1, p));
        }
    }
    if has_cand_at(lv, cl2, cur2, start + cl[0] + 1, i, b) {
        let p = choose|p: Seq<bool>| #[trigger] cand(lv, cl2, cur2, start + cl[0] + 1, p) && p[i] == b;
        assert(cand_s(lv, cl, cur0, pos, start, p));
    }
}

/// Explores every placement of `clues[k..]` from `pos` on that agrees with
/// `line`, given the blocks already placed in `current` before `pos`; for
/// each one found, marks its filled cells in `fill`, its blank cells in
/// `blank`, and sets `found`.  It keeps no count of the placements, neither
/// in all nor per cell: whether some placement fills a cell, whether some
/// leaves it blank, and whether there is any placement at all is what line
/// logic draws its conclusions from, and those flags are all it records.
fn enum_placements(
    clues: &[usize],
    k: usize,
    pos: usize,
    line: &[Cell],
    current: &mut Vec<bool>,
    fill: &mut Vec<bool>,
    blank: &mut Vec<bool>,
    found: &mut bool,
)
    requires
        k <= clues.len(),
        line.len() < usize::MAX,
        pos <= line.len() + 1,
        old(current).len() == line.len(),
        old(fill).len() == line.len(),
        old(blank).len() == line.len(),
        forall|j: int| pos <= j < line.len() ==> !old(current)@[j],
        forall|j: int| 0 <= j < pos && j < line.len() ==> agrees(line@[j], old(current)@[j]),
    ensures
        final(current)@ == old(current)@,
        final(fill).len() == line.len(),
        final(blank).len() == line.len(),
        forall|i: int|
            0 <= i < line.len() ==> final(fill)@[i] == (old(fill)@[i] || has_cand_at(
                line@,
                clues@.subrange(k as int, clues.len() as int),
                old(current)@,
                pos as int,
                i,
                true,
            )),
        forall|i: int|
            0 <= i < line.len() ==> final(blank)@[i] == (old(blank)@[i] || has_cand_at(
                line@,
                clues@.subrange(k as int, clues.len() as int),
                old(current)@,
                pos as int,
                i,
                false,
            )),
        *final(found) == (*old(found) || has_cand(
            line@,
            clues@.subrange(k as int, clues.len() as int),
            old(current)@,
            pos as int,
        )),
    decreases clues.len() - k,
{
    let n = line.len();
    let ghost cl = clues@.subrange(k as int, clues.len() as int);
    let ghost cur0 = current@;
    let ghost fill0 = fill@;
    let ghost blank0 = blank@;
    let ghost found0 = *found;
    let ghost lv = line@;
    if k == clues.len() {
        let from = if pos < n {
            pos
        } else {
            n
        };
        if any_cell(line, from, n, Cell::Filled) {
            proof {
                let j = choose|j: int| from <= j < n && lv[j] == Cell::Filled;
                assert forall|p: Seq<bool>| !cand(lv, cl, cur0, pos as int, p) by {
                    if cand(lv, cl, cur0, pos as int, p) {
                        assert(!p[j]);
                        assert(agrees(lv[j], p[j]));
                    }
                }
            }
            return ;
        }
        proof {
            assert forall|j: int| 0 <= j < n implies #[trigger] agrees(lv[j], cur0[j]) by {
                if j >= pos {
                    assert(lv[j] != Cell::Filled);
                }
            }
            assert(cand(lv, cl, cur0, pos as int, cur0));
            assert forall|p: Seq<bool>| cand(lv, cl, cur0, pos as int, p) implies p == cur0 by {
                assert forall|j: int| 0 <= j < n implies p[j] == cur0[j] by {
                    if j >= pos {
                        assert(!p[j]);
                    }
                }
                assert(p =~= cur0);
            }
        }
        *found = true;
        let mut i: usize = 0;
        while i < n
            invariant
                i <= n,
                n == line.len(),
                current@ == cur0,
                cur0.len() == n,
                fill0.len() == n,
                blank0.len() == n,
                fill@.len() == n,
                blank@.len() == n,
                forall|q: int| 0 <= q < i ==> fill@[q] == (fill0[q] || cur0[q]),
                forall|q: int| 0 <= q < i ==> blank@[q] == (blank0[q] || !cur0[q]),
                forall|q: int| i <= q < n ==> fill@[q] == fill0[q],
                forall|q: int| i <= q < n ==> blank@[q] == blank0[q],
            decreases n - i,
        {
            if current[i] {
                fill[i] = true;
            } else {
                blank[i] = true;
            }
            i = i + 1;
        }
        proof {
            assert forall|i: int| 0 <= i < n implies has_cand_at(lv, cl, cur0, pos as int, i, true)
                == cur0[i] by {
                if cur0[i] {
                    assert(cand(lv, cl, cur0, pos as int, cur0));
                }
            }
            assert forall|i: int| 0 <= i < n implies has_cand_at(lv, cl, cur0, pos as int, i, false)
                == !cur0[i] by {
                if !cur0[i] {
                    assert(cand(lv, cl, cur0, pos as int, cur0));
                }
            }
        }
        return ;
    }
    let clue = clues[k];
    proof {
        assert(cl[0] == clue);
        assert(cl.drop_first() =~= clues@.subrange(k + 1, clues.len() as int));
        lemma_need_first(cl);
    }
    let m = match need_within(clues, k, n) {
        Some(m) => m,
        None => {
            proof {
                assert forall|p: Seq<bool>| !cand(lv, cl, cur0, pos as int, p) by {
                    if cand(lv, cl, cur0, pos as int, p) {
                        let s = choose|s: int|
                            #[trigger] block_at(p, pos as int, s, cl[0] as int) && s + need(cl)
                                <= p.len() && place_ok(p, cl.drop_first(), s + cl[0] + 1);
                    }
                }
            }
            return ;
        },
    };
    let max_start = n - m;
    if pos > max_start {
        proof {
            assert forall|p: Seq<bool>| !cand(lv, cl, cur0, pos as int, p) by {
                if cand(lv, cl, cur0, pos as int, p) {
                    let s = choose|s: int|
                        #[trigger] block_at(p, pos as int, s, cl[0] as int) && s + need(cl)
                            <= p.len() && place_ok(p, cl.drop_first(), s + cl[0] + 1);
                }
            }
        }
        return ;
    }
    let mut start = pos;
    let mut stop = false;
    while start <= max_start && !stop
        invariant
            n == line.len(),
            n < usize::MAX,
            lv == line@,
            k < clues.len(),
            cl == clues@.subrange(k as int, clues.len() as int),
            cl.len() > 0,
            clue == cl[0],
            cl.drop_first() == clues@.subrange(k + 1, clues.len() as int),
            m == need(cl),
            m >= clue,
            m <= n,
            max_start == n - m,
            pos <= start <= max_start + 1,
            pos <= n + 1,
            current@ == cur0,
            cur0.len() == n,
            fill0.len() == n,
            blank0.len() == n,
            forall|j: int| pos <= j < n ==> !cur0[j],
            forall|j: int| 0 <= j < pos && j < n ==> agrees(lv[j], cur0[j]),
            fill@.len() == n,
            blank@.len() == n,
            forall|i: int|
                0 <= i < n ==> fill@[i] == (fill0[i] || has_cand_below_at(
                    lv,
                    cl,
                    cur0,
                    pos as int,
                    start as int,
                    i,
                    true,
                )),
            forall|i: int|
                0 <= i < n ==> blank@[i] == (blank0[i] || has_cand_below_at(
                    lv,
                    cl,
                    cur0,
                    pos as int,
                    start as int,
                    i,
                    false,
                )),
            *found == (found0 || has_cand_below(lv, cl, cur0, pos as int, start as int)),
            stop ==> forall|s: int, p: Seq<bool>|
                start <= s ==> !#[trigger] cand_s(lv, cl, cur0, pos as int, s, p),
        decreases max_start + 1 - start + (if stop {
            0int
        } else {
            1int
        }),
    {
        let ghost fillh = fill@;
        let ghost blankh = blank@;
        assert(forall|i: int|
            0 <= i < n ==> fillh[i] == (fill0[i] || has_cand_below_at(
                lv,
                cl,
                cur0,
                pos as int,
                start as int,
                i,
                true,
            )));
        assert(forall|i: int|
            0 <= i < n ==> blankh[i] == (blank0[i] || has_cand_below_at(
                lv,
                cl,
                cur0,
                pos as int,
                start as int,
                i,
                false,
            )));
        if any_cell(line, pos, start, Cell::Filled) {
            proof {
                let j = choose|j: int| pos <= j < start && lv[j] == Cell::Filled;
                assert forall|s: int, p: Seq<bool>|
                    start <= s implies !#[trigger] cand_s(lv, cl, cur0, pos as int, s, p) by {
                    if cand_s(lv, cl, cur0, pos as int, s, p) {
                        assert(!p[j]);
                        assert(agrees(lv[j], p[j]));
                    }
                }
            }
            stop = true;
        } else {
            let bad_block = any_cell(line, start, start + clue, Cell::Empty);
            let bad_gap = start + clue < n && line[start + clue] == Cell::Filled;
            if bad_block || bad_gap {
                proof {
                    assert forall|p: Seq<bool>| !#[trigger] cand_s(
                        lv,
                        cl,
                        cur0,
                        pos as int,
                        start as int,
                        p,
                    ) by {
                        if cand_s(lv, cl, cur0, pos as int, start as int, p) {
                            if bad_block {
                                let j = choose|j: int|
                                    start <= j < start + clue && lv[j] == Cell::Empty;
                                assert(p[j]);
                                assert(agrees(lv[j], p[j]));
                            } else {
                                assert(agrees(lv[start + clue], p[start + clue]));
                            }
                        }
                    }
                    assert forall|i: int| 0 <= i < n implies fill@[i] == (fill0[i]
                        || has_cand_below_at(lv, cl, cur0, pos as int, start + 1, i, true))
                        && blank@[i] == (blank0[i] || has_cand_below_at(
                        lv,
                        cl,
                        cur0,
                        pos as int,
                        start + 1,
                        i,
                        false,
                    )) by {
                        lemma_below_skip(lv, cl, cur0, pos as int, start as int, i, true);
                        lemma_below_skip(lv, cl, cur0, pos as int, start as int, i, false);
                        assert(fill@[i] == fillh[i]);
                        assert(blank@[i] == blankh[i]);
                    }
                    if has_cand_below(lv, cl, cur0, pos as int, start + 1) {
                        let (s, p) = choose|s: int, p: Seq<bool>|
                            pos <= s < start + 1 && #[trigger] cand_s(
                                lv,
                                cl,
                                cur0,
                                pos as int,
                                s,
                                p,
                            );
                    }
                }
                start = start + 1;
            } else {
                let ghost fill1 = fill@;
                let ghost blank1 = blank@;
                let ghost found1 = *found;
                assert(forall|i: int|
                    0 <= i < n ==> fill1[i] == (fill0[i] || has_cand_below_at(
                        lv,
                        cl,
                        cur0,
                        pos as int,
                        start as int,
                        i,
                        true,
                    )));
                assert(forall|i: int|
                    0 <= i < n ==> blank1[i] == (blank0[i] || has_cand_below_at(
                        lv,
                        cl,
                        cur0,
                        pos as int,
                        start as int,
                        i,
                        false,
                    )));
                assert(found1 == (found0 || has_cand_below(lv, cl, cur0, pos as int, start as int)));
                let mut q = start;
                while q < start + clue
                    invariant
                        fill@ == fill1,
                        blank@ == blank1,
                        *found == found1,
                        start <= q <= start + clue,
                        start + clue <= n,
                        current@.len() == n,
                        cur0.len() == n,
                        forall|j: int|
                            0 <= j < n ==> current@[j] == (if start <= j < q {
                                true
                            } else {
                                cur0[j]
                            }),
                    decreases start + clue - q,
                {
                    current[q] = true;
                    q = q + 1;
                }
                let ghost cur2 = current@;
                proof {
                    lemma_step(lv, cl, cur0, cur2, pos as int, start as int);
                    assert forall|j: int| 0 <= j < start + clue + 1 && j < n implies agrees(
                        lv[j],
                        cur2[j],
                    ) by {
                        if pos <= j < start {
                            assert(lv[j] != Cell::Filled);
                        } else if start <= j < start + clue {
                            assert(lv[j] != Cell::Empty);
                        }
                    }
                }
                enum_placements(clues, k + 1, start + clue + 1, line, current, fill, blank, found);
                let ghost cl2 = clues@.subrange(k + 1, clues.len() as int);
                let ghost fill2 = fill@;
                let ghost blank2 = blank@;
                let ghost found2 = *found;
                let mut q = start;
                while q < start + clue
                    invariant
                        fill@ == fill2,
                        blank@ == blank2,
                        *found == found2,
                        pos <= start <= q <= start + clue,
                        start + clue <= n,
                        current@.len() == n,
                        cur0.len() == n,
                        forall|j: int| pos <= j < n ==> !cur0[j],
                        forall|j: int|
                            0 <= j < n ==> current@[j] == (if q <= j < start + clue {
                                true
                            } else {
                                cur0[j]
                            }),
                    decreases start + clue - q,
                {
                    current[q] = false;
                    q = q + 1;
                }
                proof {
                    assert(current@ =~= cur0);
                    assert forall|i: int| 0 <= i < n implies fill@[i] == (fill0[i]
                        || has_cand_below_at(lv, cl, cur0, pos as int, start + 1, i, true))
                        && blank@[i] == (blank0[i] || has_cand_below_at(
                        lv,
                        cl,
                        cur0,
                        pos as int,
                        start + 1,
                        i,
                        false,
                    )) by {
                        lemma_below_step(lv, cl, cl2, cur0, cur2, pos as int, start as int, i, true);
                        lemma_below_step(lv, cl, cl2, cur0, cur2, pos as int, start as int, i, false);
                        assert(fill1[i] == (fill0[i] || has_cand_below_at(lv, cl, cur0, pos as int, start as int, i, true)));
                        assert(fill@[i] == (fill1[i] || has_cand_at(lv, cl2, cur2, start + clue + 1, i, true)));
                        assert(blank1[i] == (blank0[i] || has_cand_below_at(lv, cl, cur0, pos as int, start as int, i, false)));
                        assert(blank@[i] == (blank1[i] || has_cand_at(lv, cl2, cur2, start + clue + 1, i, false)));
                    }
                    if has_cand_below(lv, cl, cur0, pos as int, start + 1) {
                        let (s, p) = choose|s: int, p: Seq<bool>|
                            pos <= s < start + 1 && #[trigger] cand_s(
                                lv,
                                cl,
                                cur0,
                                pos as int,
                                s,
                                p,
                            );
                        if s == start {
                            assert(cand(lv, cl2, cur2, start + clue + 1, p));
                        }
                    }
                    if has_cand(lv, cl2, cur2, start + clue + 1) {
                        let p = choose|p: Seq<bool>| #[trigger] cand(lv, cl2, cur2, start + clue + 1, p);
                        assert(cand_s(lv, cl, cur0, pos as int, start as int, p));
                    }
                }
                start = start + 1;
            }
        }
    }
    proof {
        assert forall|s: int, p: Seq<bool>| start <= s implies !#[trigger] cand_s(
            lv,
            cl,
            cur0,
            pos as int,
            s,
            p,
        ) by {
            if !stop {
                lemma_need_first(cl);
            }
        }
        assert forall|i: int, b: bool| 0 <= i < n implies has_cand_below_at(
            lv,
            cl,
            cur0,
            pos as int,
            start as int,
            i,
            b,
        ) == has_cand_at(lv, cl, cur0, pos as int, i, b) by {
            if has_cand_below_at(lv, cl, cur0, pos as int, start as int, i, b) {
                let (s, p) = choose|s: int, p: Seq<bool>|
                    pos <= s < start && #[trigger] cand_s(lv, cl, cur0, pos as int, s, p) && p[i]
                        == b;
                assert(block_at(p, pos as int, s, cl[0] as int));
                assert(cand(lv, cl, cur0, pos as int, p));
            }
            if has_cand_at(lv, cl, cur0, pos as int, i, b) {
                let p = choose|p: Seq<bool>| #[trigger] cand(lv, cl, cur0, pos as int, p) && p[i] == b;
                let s = choose|s: int|
                    #[trigger] block_at(p, pos as int, s, cl[0] as int) && s + need(cl) <= p.len()
                        && place_ok(p, cl.drop_first(), s + cl[0] + 1);
                assert(cand_s(lv, cl, cur0, pos as int, s, p));
            }
        }
        if has_cand_below(lv, cl, cur0, pos as int, start as int) {
            let (s, p) = choose|s: int, p: Seq<bool>|
                pos <= s < start && #[trigger] cand_s(lv, cl, cur0, pos as int, s, p);
            assert(block_at(p, pos as int, s, cl[0] as int));
            assert(cand(lv, cl, cur0, pos as int, p));
        }
        if has_cand(lv, cl, cur0, pos as int) {
            let p = choose|p: Seq<bool>| #[trigger] cand(lv, cl, cur0, pos as int, p);
            let s = choose|s: int|
                #[trigger] block_at(p, pos as int, s, cl[0] as int) && s + need(cl) <= p.len()
                    && place_ok(p, cl.drop_first(), s + cl[0] + 1);
            assert(cand_s(lv, cl, cur0, pos as int, s, p));
        }
    }
}


/// Some full line that fits `cl` agrees with `line`.
pub open spec fn line_solvable(line: Seq<Cell>, cl: Seq<usize>) -> bool {
    exists|p: Seq<bool>| consistent(line, p) && #[trigger] fits(p, cl)
}

/// Some full line that fits `cl` and agrees with `line` has value `b` at `i`.
pub open spec fn can_be(line: Seq<Cell>, cl: Seq<usize>, i: int, b: bool) -> bool {
    exists|p: Seq<bool>| consistent(line, p) && #[trigger] fits(p, cl) && p[i] == b
}

/// What line logic concludes of cell `i`: filled when every fitting line
/// that agrees fills it, blank when none does, else what it was.
pub open spec fn deduced(line: Seq<Cell>, cl: Seq<usize>, i: int) -> Cell {
    if !can_be(line, cl, i, false) {
        Cell::Filled
    } else if !can_be(line, cl, i, true) {
        Cell::Empty
    } else {
        line[i]
    }
}

proof fn lemma_cand_start(line: Seq<Cell>, cl: Seq<usize>, cur: Seq<bool>, p: Seq<bool>)
    ensures
        cand(line, cl, cur, 0, p) == (consistent(line, p) && fits(p, cl)),
{
}

/// Line logic keeps every known cell and agrees with every fitting line.
proof fn lemma_deduced(line: Seq<Cell>, cl: Seq<usize>)
    requires
        line_solvable(line, cl),
    ensures
        forall|i: int|
            0 <= i < line.len() && line[i] != Cell::Unknown ==> #[trigger] deduced(line, cl, i)
                == line[i],
        forall|p: Seq<bool>, i: int|
            consistent(line, p) && fits(p, cl) && 0 <= i < line.len() ==> agrees(
                #[trigger] deduced(line, cl, i),
                #[trigger] p[i],
            ),
{
    let w = choose|p: Seq<bool>| consistent(line, p) && #[trigger] fits(p, cl);
    assert forall|i: int| 0 <= i < line.len() && line[i] != Cell::Unknown implies #[trigger] deduced(
        line,
        cl,
        i,
    ) == line[i] by {
        assert(agrees(line[i], w[i]));
        if line[i] == Cell::Filled {
            assert(can_be(line, cl, i, true));
            if can_be(line, cl, i, false) {
                let q = choose|q: Seq<bool>| consistent(line, q) && #[trigger] fits(q, cl) && q[i] == false;
                assert(agrees(line[i], q[i]));
            }
        } else {
            assert(can_be(line, cl, i, false));
            if can_be(line, cl, i, true) {
                let q = choose|q: Seq<bool>| consistent(line, q) && #[trigger] fits(q, cl) && q[i] == true;
                assert(agrees(line[i], q[i]));
            }
        }
    }
    assert forall|p: Seq<bool>, i: int|
        consistent(line, p) && fits(p, cl) && 0 <= i < line.len() implies agrees(
        #[trigger] deduced(line, cl, i),
        #[trigger] p[i],
    ) by {
        assert(agrees(line[i], p[i]));
        if p[i] {
            assert(can_be(line, cl, i, true));
        } else {
            assert(can_be(line, cl, i, false));
        }
    }
}

/// Line logic settles a line in one pass: on its own conclusions it
/// concludes nothing new, so solving a line again with the same clues gives
/// back what the first pass gave. (The lines that fit and agree with the
/// conclusions are those that agree with the line.)
pub proof fn lemma_line_logic_settles(line: Seq<Cell>, cl: Seq<usize>)
    requires
        line_solvable(line, cl),
    ensures
        ({
            let v = Seq::new(line.len(), |i: int| deduced(line, cl, i));
            &&& line_solvable(v, cl)
            &&& forall|i: int| 0 <= i < line.len() ==> #[trigger] deduced(v, cl, i) == v[i]
        }),
{
    let v = Seq::new(line.len(), |i: int| deduced(line, cl, i));
    lemma_deduced(line, cl);
    assert forall|p: Seq<bool>| fits(p, cl) implies #[trigger] consistent(v, p) == consistent(line, p) by {
        if consistent(line, p) {
            assert forall|j: int| 0 <= j < p.len() implies #[trigger] agrees(v[j], p[j]) by {
                assert(agrees(deduced(line, cl, j), p[j]));
            }
        }
        if consistent(v, p) {
            assert forall|j: int| 0 <= j < p.len() implies #[trigger] agrees(line[j], p[j]) by {
                assert(agrees(v[j], p[j]));
                if line[j] != Cell::Unknown {
                    assert(deduced(line, cl, j) == line[j]);
                }
            }
        }
    }
    let w = choose|p: Seq<bool>| consistent(line, p) && #[trigger] fits(p, cl);
    assert(consistent(v, w));
    assert forall|i: int| 0 <= i < line.len() implies #[trigger] deduced(v, cl, i) == v[i] by {
        assert forall|b: bool| #[trigger] can_be(v, cl, i, b) == can_be(line, cl, i, b) by {
            if can_be(v, cl, i, b) {
                let q = choose|q: Seq<bool>| consistent(v, q) && #[trigger] fits(q, cl) && q[i] == b;
                assert(consistent(line, q));
            }
            if can_be(line, cl, i, b) {
                let q = choose|q: Seq<bool>| consistent(line, q) && #[trigger] fits(q, cl) && q[i] == b;
                assert(consistent(v, q));
            }
        }
        assert(can_be(v, cl, i, true) == can_be(line, cl, i, true));
        assert(can_be(v, cl, i, false) == can_be(line, cl, i, false));
    }
}

fn falses(n: usize) -> (v: Vec<bool>)
    ensures
        v@.len() == n,
        forall|i: int| 0 <= i < n ==> !v@[i],
{
    let mut v: Vec<bool> = Vec::new();
    while v.len() < n
        invariant
            v@.len() <= n,
            forall|i: int| 0 <= i < v@.len() ==> !v@[i],
        decreases n - v@.len(),
    {
        v.push(false);
    }
    v
}

/// Line logic on one line: `None` when no line that fits `clues` agrees
/// with `line`, else `line` with every cell that all of them agree on set.
pub fn solve_line(clues: &[usize], line: &[Cell]) -> (r: Option<Vec<Cell>>)
    requires
        line.len() < usize::MAX,
    ensures
        r is None <==> !line_solvable(line@, clues@),
        r matches Some(v) ==> v@.len() == line@.len() && forall|i: int|
            0 <= i < line@.len() ==> v@[i] == #[trigger] deduced(line@, clues@, i),
        r matches Some(v) ==> line_solvable(v@, clues@) && forall|i: int|
            0 <= i < line@.len() ==> #[trigger] deduced(v@, clues@, i) == v@[i],
{
    proof {
        if line_solvable(line@, clues@) {
            lemma_line_logic_settles(line@, clues@);
        }
    }
    let n = line.len();
    let ghost lv = line@;
    if clues.len() == 1 && clues[0] == 0 {
        proof {
            assert(clues@ =~= seq![0usize]);
        }
        let mut j: usize = 0;
        while j < n
            invariant
                j <= n,
                n == line.len(),
                lv == line@,
                clues@ == seq![0usize],
                forall|q: int| 0 <= q < j ==> line@[q] != Cell::Filled,
            decreases n - j,
        {
            if line[j] == Cell::Filled {
                proof {
                    assert forall|p: Seq<bool>| !(consistent(lv, p) && #[trigger] fits(p, clues@)) by {
                        if consistent(lv, p) && fits(p, clues@) {
                            lemma_fits_zero_clue(p);
                            assert(agrees(lv[j as int], p[j as int]));
                        }
                    }
                }
                return None;
            }
            j = j + 1;
        }
        let ghost blank_line = Seq::new(n as nat, |q: int| false);
        proof {
            lemma_fits_zero_clue(blank_line);
            assert forall|q: int| 0 <= q < n implies #[trigger] agrees(lv[q], blank_line[q]) by {}
            assert(consistent(lv, blank_line));
            assert forall|i: int| 0 <= i < n implies #[trigger] deduced(lv, clues@, i) == Cell::Empty by {
                assert(can_be(lv, clues@, i, false));
                if can_be(lv, clues@, i, true) {
                    let q = choose|q: Seq<bool>| consistent(lv, q) && #[trigger] fits(q, clues@) && q[i] == true;
                    lemma_fits_zero_clue(q);
                }
            }
        }
        let mut v: Vec<Cell> = Vec::new();
        while v.len() < n
            invariant
                v@.len() <= n,
                forall|i: int| 0 <= i < v@.len() ==> v@[i] == Cell::Empty,
            decreases n - v@.len(),
        {
            v.push(Cell::Empty);
        }
        return Some(v);
    }
    let mut current = falses(n);
    let mut fill = falses(n);
    let mut blank = falses(n);
    let mut found = false;
    let ghost cur0 = current@;
    enum_placements(clues, 0, 0, line, &mut current, &mut fill, &mut blank, &mut found);
    proof {
        assert(clues@.subrange(0, clues.len() as int) =~= clues@);
        assert forall|p: Seq<bool>| cand(lv, clues@, cur0, 0, p) == (consistent(lv, p) && fits(p, clues@)) by {
            lemma_cand_start(lv, clues@, cur0, p);
        }
    }
    if !found {
        proof {
            if line_solvable(lv, clues@) {
                let p = choose|p: Seq<bool>| consistent(lv, p) && #[trigger] fits(p, clues@);
                assert(cand(lv, clues@, cur0, 0, p));
            }
        }
        return None;
    }
    proof {
        let p = choose|p: Seq<bool>| #[trigger] cand(lv, clues@, cur0, 0, p);
        assert(fits(p, clues@));
        assert forall|i: int, b: bool| 0 <= i < n implies has_cand_at(lv, clues@, cur0, 0, i, b) == can_be(
            lv,
            clues@,
            i,
            b,
        ) by {
            if has_cand_at(lv, clues@, cur0, 0, i, b) {
                let q = choose|q: Seq<bool>| #[trigger] cand(lv, clues@, cur0, 0, q) && q[i] == b;
                assert(fits(q, clues@));
            }
            if can_be(lv, clues@, i, b) {
                let q = choose|q: Seq<bool>| consistent(lv, q) && #[trigger] fits(q, clues@) && q[i] == b;
                assert(cand(lv, clues@, cur0, 0, q));
            }
        }
    }
    let mut result: Vec<Cell> = Vec::new();
    let mut i: usize = 0;
    while i < n
        invariant
            i <= n,
            n == line.len(),
            lv == line@,
            fill@.len() == n,
            blank@.len() == n,
            forall|q: int| 0 <= q < n ==> fill@[q] == can_be(lv, clues@, q, true),
            forall|q: int| 0 <= q < n ==> blank@[q] == can_be(lv, clues@, q, false),
            result@.len() == i,
            forall|q: int| 0 <= q < i ==> result@[q] == #[trigger] deduced(lv, clues@, q),
        decreases n - i,
    {
        let c = if !blank[i] {
            Cell::Filled
        } else if !fill[i] {
            Cell::Empty
        } else {
            line[i]
        };
        result.push(c);
        i = i + 1;
    }
    proof {
        assert(result@ =~= Seq::new(lv.len(), |q: int| deduced(lv, clues@, q)));
    }
    Some(result)
}


spec fn gview(g: Seq<Vec<Cell>>) -> Seq<Seq<Cell>> {
    g.map_values(|row: Vec<Cell>| row@)
}

spec fn unk(c: Cell) -> nat {
    if c == Cell::Unknown {
        1
    } else {
        0
    }
}

/// The number of unknown cells of a line.
spec fn count_row(row: Seq<Cell>) -> nat
    decreases row.len(),
{
    if row.len() == 0 {
        0
    } else {
        count_row(row.drop_last()) + unk(row.last())
    }
}

/// The number of unknown cells of a grid.
spec fn count_grid(g: Seq<Seq<Cell>>) -> nat
    decreases g.len(),
{
    if g.len() == 0 {
        0
    } else {
        count_grid(g.drop_last()) + count_row(g.last())
    }
}

proof fn lemma_count_row_update(row: Seq<Cell>, c: int, v: Cell)
    requires
        0 <= c < row.len(),
    ensures
        count_row(row.update(c, v)) + unk(row[c]) == count_row(row) + unk(v),
    decreases row.len(),
{
    let u = row.update(c, v);
    if c == row.len() - 1 {
        assert(u.drop_last() =~= row.drop_last());
    } else {
        assert(u.drop_last() =~= row.drop_last().update(c, v));
        lemma_count_row_update(row.drop_last(), c, v);
    }
}

proof fn lemma_count_grid_update(g: Seq<Seq<Cell>>, r: int, row: Seq<Cell>)
    requires
        0 <= r < g.len(),
    ensures
        count_grid(g.update(r, row)) + count_row(g[r]) == count_grid(g) + count_row(row),
    decreases g.len(),
{
    let u = g.update(r, row);
    if r == g.len() - 1 {
        assert(u.drop_last() =~= g.drop_last());
    } else {
        assert(u.drop_last() =~= g.drop_last().update(r, row));
        lemma_count_grid_update(g.drop_last(), r, row);
    }
}

/// Sets one cell of the grid, which was unknown, to a known value.
fn set_cell(grid: &mut Vec<Vec<Cell>>, r: usize, c: usize, v: Cell)
    requires
        r < old(grid)@.len(),
        c < old(grid)@[r as int]@.len(),
        old(grid)@[r as int]@[c as int] == Cell::Unknown,
        v != Cell::Unknown,
    ensures
        gview(final(grid)@) == gview(old(grid)@).update(
            r as int,
            gview(old(grid)@)[r as int].update(c as int, v),
        ),
        count_grid(gview(final(grid)@)) < count_grid(gview(old(grid)@)),
{
    let ghost g0 = gview(grid@);
    grid[r][c] = v;
    proof {
        assert(gview(grid@) =~= g0.update(r as int, g0[r as int].update(c as int, v)));
        lemma_count_row_update(g0[r as int], c as int, v);
        lemma_count_grid_update(g0, r as int, g0[r as int].update(c as int, v));
    }
}


/// Column `c` of a solver grid, over its first `h` rows.
pub open spec fn ccol(g: Seq<Seq<Cell>>, c: int, h: int) -> Seq<Cell> {
    Seq::new(h as nat, |r: int| g[r][c])
}

/// `g` has `h` rows of `w` cells.
pub open spec fn grid_shape(g: Seq<Seq<Cell>>, h: int, w: int) -> bool {
    &&& g.len() == h
    &&& forall|r: int| 0 <= r < h ==> #[trigger] g[r].len() == w
}

/// The full grid `s` agrees with every known cell of `g`.
pub open spec fn grid_agrees(g: Seq<Seq<Cell>>, s: Seq<Seq<bool>>) -> bool {
    &&& g.len() == s.len()
    &&& forall|r: int| 0 <= r < g.len() ==> consistent(#[trigger] g[r], s[r])
}

/// `g2` keeps every known cell of `g1`.
spec fn refines(g2: Seq<Seq<Cell>>, g1: Seq<Seq<Cell>>) -> bool {
    &&& g2.len() == g1.len()
    &&& forall|r: int| 0 <= r < g1.len() ==> #[trigger] g2[r].len() == g1[r].len()
    &&& forall|r: int, c: int|
        0 <= r < g1.len() && 0 <= c < g1[r].len() && g1[r][c] != Cell::Unknown ==> #[trigger] g2[r][c]
            == g1[r][c]
}

/// Every row and column of `g` with a clue can still be completed.
spec fn lines_ok(g: Seq<Seq<Cell>>, rc: Seq<Seq<usize>>, cc: Seq<Seq<usize>>) -> bool {
    &&& forall|r: int| 0 <= r < rc.len() ==> line_solvable(#[trigger] g[r], rc[r])
    &&& forall|c: int| 0 <= c < cc.len() ==> line_solvable(#[trigger] ccol(g, c, rc.len() as int), cc[c])
}

/// Line logic concludes nothing new on `g`: on each row with a clue, at the
/// cells under a column clue, and on each column with a clue, at the rows
/// with a clue, it concludes what `g` already holds.
pub open spec fn settled(g: Seq<Seq<Cell>>, rc: Seq<Seq<usize>>, cc: Seq<Seq<usize>>) -> bool {
    &&& forall|r: int, i: int|
        0 <= r < rc.len() && 0 <= i < cc.len() ==> #[trigger] deduced(g[r], rc[r], i) == g[r][i]
    &&& forall|c: int, i: int|
        0 <= c < cc.len() && 0 <= i < rc.len() ==> #[trigger] deduced(ccol(g, c, rc.len() as int), cc[c], i)
            == g[i][c]
}

/// Every known cell of `upd` is written into row `r` (up to column `lim`).
fn apply_row(grid: &mut Vec<Vec<Cell>>, r: usize, upd: &Vec<Cell>, lim: usize) -> (changed: bool)
    requires
        r < old(grid)@.len(),
        lim <= old(grid)@[r as int]@.len(),
        upd@.len() == old(grid)@[r as int]@.len(),
        forall|j: int|
            0 <= j < upd@.len() && old(grid)@[r as int]@[j] != Cell::Unknown ==> upd@[j] == old(
                grid,
            )@[r as int]@[j],
    ensures
        ({
            let g0 = gview(old(grid)@);
            let g1 = gview(final(grid)@);
            &&& g1.len() == g0.len()
            &&& forall|q: int| 0 <= q < g0.len() && q != r ==> #[trigger] g1[q] == g0[q]
            &&& g1[r as int].len() == g0[r as int].len()
            &&& forall|j: int|
                0 <= j < g0[r as int].len() ==> #[trigger] g1[r as int][j] == (if j < lim && upd@[j]
                    != Cell::Unknown {
                    upd@[j]
                } else {
                    g0[r as int][j]
                })
            &&& count_grid(g1) <= count_grid(g0)
            &&& changed ==> count_grid(g1) < count_grid(g0)
            &&& !changed ==> g1 == g0
        }),
{
    let ghost g0 = gview(grid@);
    let mut changed = false;
    let mut c: usize = 0;
    while c < lim
        invariant
            c <= lim,
            r < g0.len(),
            lim <= g0[r as int].len(),
            upd@.len() == g0[r as int].len(),
            forall|j: int|
                0 <= j < upd@.len() && g0[r as int][j] != Cell::Unknown ==> upd@[j] == g0[r as int][j],
            gview(grid@).len() == g0.len(),
            forall|q: int| 0 <= q < g0.len() && q != r ==> #[trigger] gview(grid@)[q] == g0[q],
            gview(grid@)[r as int].len() == g0[r as int].len(),
            forall|j: int|
                0 <= j < g0[r as int].len() ==> #[trigger] gview(grid@)[r as int][j] == (if j < c
                    && upd@[j] != Cell::Unknown {
                    upd@[j]
                } else {
                    g0[r as int][j]
                }),
            count_grid(gview(grid@)) <= count_grid(g0),
            changed ==> count_grid(gview(grid@)) < count_grid(g0),
            !changed ==> gview(grid@) == g0,
        decreases lim - c,
    {
        let v = upd[c];
        if v != Cell::Unknown && grid[r][c] != v {
            proof {
                assert(gview(grid@)[r as int][c as int] == g0[r as int][c as int]);
            }
            set_cell(grid, r, c, v);
            changed = true;
        }
        proof {
            if !changed {
                assert(gview(grid@) =~= g0);
            }
        }
        c = c + 1;
    }
    changed
}

/// Every known cell of `upd` is written into column `c` (down to row `lim`).
fn apply_col(grid: &mut Vec<Vec<Cell>>, c: usize, upd: &Vec<Cell>, lim: usize) -> (changed: bool)
    requires
        lim <= old(grid)@.len(),
        forall|q: int| 0 <= q < old(grid)@.len() ==> c < #[trigger] old(grid)@[q]@.len(),
        upd@.len() == lim,
        forall|q: int|
            0 <= q < lim && old(grid)@[q]@[c as int] != Cell::Unknown ==> upd@[q] == old(grid)@[q]@[c as int],
    ensures
        ({
            let g0 = gview(old(grid)@);
            let g1 = gview(final(grid)@);
            &&& g1.len() == g0.len()
            &&& forall|q: int| 0 <= q < g0.len() ==> #[trigger] g1[q].len() == g0[q].len()
            &&& forall|q: int, j: int|
                0 <= q < g0.len() && 0 <= j < g0[q].len() ==> #[trigger] g1[q][j] == (if q < lim
                    && j == c && upd@[q] != Cell::Unknown {
                    upd@[q]
                } else {
                    g0[q][j]
                })
            &&& count_grid(g1) <= count_grid(g0)
            &&& changed ==> count_grid(g1) < count_grid(g0)
            &&& !changed ==> g1 == g0
        }),
{
    let ghost g0 = gview(grid@);
    let mut changed = false;
    let mut r: usize = 0;
    while r < lim
        invariant
            r <= lim,
            lim <= g0.len(),
            forall|q: int| 0 <= q < g0.len() ==> c < #[trigger] g0[q].len(),
            upd@.len() == lim,
            forall|q: int| 0 <= q < lim && g0[q][c as int] != Cell::Unknown ==> upd@[q] == g0[q][c as int],
            gview(grid@).len() == g0.len(),
            forall|q: int| 0 <= q < g0.len() ==> #[trigger] gview(grid@)[q].len() == g0[q].len(),
            forall|q: int, j: int|
                0 <= q < g0.len() && 0 <= j < g0[q].len() ==> #[trigger] gview(grid@)[q][j] == (if q
                    < r && j == c && upd@[q] != Cell::Unknown {
                    upd@[q]
                } else {
                    g0[q][j]
                }),
            count_grid(gview(grid@)) <= count_grid(g0),
            changed ==> count_grid(gview(grid@)) < count_grid(g0),
            !changed ==> gview(grid@) == g0,
        decreases lim - r,
    {
        let v = upd[r];
        proof {
            assert(gview(grid@)[r as int].len() == g0[r as int].len());
        }
        if v != Cell::Unknown && grid[r][c] != v {
            proof {
                assert(gview(grid@)[r as int][c as int] == g0[r as int][c as int]);
            }
            set_cell(grid, r, c, v);
            changed = true;
        }
        proof {
            if !changed {
                assert(gview(grid@) =~= g0);
            }
        }
        r = r + 1;
    }
    changed
}


proof fn lemma_refines_trans(g3: Seq<Seq<Cell>>, g2: Seq<Seq<Cell>>, g1: Seq<Seq<Cell>>)
    requires
        refines(g3, g2),
        refines(g2, g1),
    ensures
        refines(g3, g1),
{
    assert forall|r: int, c: int|
        0 <= r < g1.len() && 0 <= c < g1[r].len() && g1[r][c] != Cell::Unknown implies #[trigger] g3[r][c]
        == g1[r][c] by {
        assert(g2[r].len() == g1[r].len());
        assert(g2[r][c] == g1[r][c]);
    }
}

/// Writing line logic's conclusions for row `r` keeps the known cells and
/// every solution.
proof fn lemma_row_step(
    g1: Seq<Seq<Cell>>,
    g2: Seq<Seq<Cell>>,
    r: int,
    upd: Seq<Cell>,
    lim: int,
    rc: Seq<Seq<usize>>,
    cc: Seq<Seq<usize>>,
    w: int,
)
    requires
        0 <= r < rc.len() <= g1.len(),
        grid_shape(g1, g1.len() as int, w),
        line_solvable(g1[r], rc[r]),
        upd.len() == w,
        forall|j: int| 0 <= j < w ==> upd[j] == #[trigger] deduced(g1[r], rc[r], j),
        g2.len() == g1.len(),
        forall|q: int| 0 <= q < g1.len() && q != r ==> #[trigger] g2[q] == g1[q],
        g2[r].len() == g1[r].len(),
        forall|j: int|
            0 <= j < g1[r].len() ==> #[trigger] g2[r][j] == (if j < lim && upd[j] != Cell::Unknown {
                upd[j]
            } else {
                g1[r][j]
            }),
    ensures
        grid_shape(g2, g1.len() as int, w),
        refines(g2, g1),
        forall|sol: Seq<Seq<bool>>|
            solves_clues(sol, rc, cc, g1.len() as int, w) && grid_agrees(g1, sol) ==> #[trigger] grid_agrees(
                g2,
                sol,
            ),
{
    lemma_deduced(g1[r], rc[r]);
    assert forall|q: int| 0 <= q < g1.len() implies #[trigger] g2[q].len() == w by {
        if q != r {
            assert(g2[q] == g1[q]);
        }
    }
    assert forall|q: int, c: int|
        0 <= q < g1.len() && 0 <= c < g1[q].len() && g1[q][c] != Cell::Unknown implies #[trigger] g2[q][c]
        == g1[q][c] by {
        if q == r {
            assert(deduced(g1[r], rc[r], c) == g1[r][c]);
        } else {
            assert(g2[q] == g1[q]);
        }
    }
    assert forall|sol: Seq<Seq<bool>>|
        solves_clues(sol, rc, cc, g1.len() as int, w) && grid_agrees(g1, sol) implies #[trigger] grid_agrees(
        g2,
        sol,
    ) by {
        assert forall|q: int| 0 <= q < g2.len() implies consistent(#[trigger] g2[q], sol[q]) by {
            if q == r {
                assert(consistent(g1[r], sol[r]));
                assert(fits(sol[r], rc[r]));
                assert(sol[r].len() == w);
                assert forall|j: int| 0 <= j < sol[r].len() implies #[trigger] agrees(g2[r][j], sol[r][j]) by {
                    assert(agrees(deduced(g1[r], rc[r], j), sol[r][j]));
                    assert(agrees(g1[r][j], sol[r][j]));
                }
            } else {
                assert(g2[q] == g1[q]);
                assert(consistent(g1[q], sol[q]));
            }
        }
    }
}

/// Writing line logic's conclusions for column `c` keeps the known cells and
/// every solution.
proof fn lemma_col_step(
    g1: Seq<Seq<Cell>>,
    g2: Seq<Seq<Cell>>,
    c: int,
    upd: Seq<Cell>,
    rc: Seq<Seq<usize>>,
    cc: Seq<Seq<usize>>,
    w: int,
)
    requires
        0 <= c < cc.len() <= w,
        rc.len() <= g1.len(),
        grid_shape(g1, g1.len() as int, w),
        line_solvable(ccol(g1, c, rc.len() as int), cc[c]),
        upd.len() == rc.len(),
        forall|q: int|
            0 <= q < rc.len() ==> upd[q] == #[trigger] deduced(ccol(g1, c, rc.len() as int), cc[c], q),
        g2.len() == g1.len(),
        forall|q: int| 0 <= q < g1.len() ==> #[trigger] g2[q].len() == g1[q].len(),
        forall|q: int, j: int|
            0 <= q < g1.len() && 0 <= j < g1[q].len() ==> #[trigger] g2[q][j] == (if q < rc.len() && j
                == c && upd[q] != Cell::Unknown {
                upd[q]
            } else {
                g1[q][j]
            }),
    ensures
        grid_shape(g2, g1.len() as int, w),
        refines(g2, g1),
        forall|sol: Seq<Seq<bool>>|
            solves_clues(sol, rc, cc, g1.len() as int, w) && grid_agrees(g1, sol) ==> #[trigger] grid_agrees(
                g2,
                sol,
            ),
{
    let h = rc.len() as int;
    let col = ccol(g1, c, h);
    lemma_deduced(col, cc[c]);
    assert forall|q: int| 0 <= q < g1.len() implies #[trigger] g2[q].len() == w by {}
    assert forall|q: int, j: int|
        0 <= q < g1.len() && 0 <= j < g1[q].len() && g1[q][j] != Cell::Unknown implies #[trigger] g2[q][j]
        == g1[q][j] by {
        if q < h && j == c {
            assert(col[q] == g1[q][j]);
            assert(deduced(col, cc[c], q) == col[q]);
        }
    }
    assert forall|sol: Seq<Seq<bool>>|
        solves_clues(sol, rc, cc, g1.len() as int, w) && grid_agrees(g1, sol) implies #[trigger] grid_agrees(
        g2,
        sol,
    ) by {
        let scol = column(sol, c, h);
        assert(fits(scol, cc[c]));
        assert forall|q: int| 0 <= q < h implies #[trigger] agrees(col[q], scol[q]) by {
            assert(consistent(g1[q], sol[q]));
            assert(agrees(g1[q][c], sol[q][c]));
        }
        assert(consistent(col, scol));
        assert forall|q: int| 0 <= q < g2.len() implies consistent(#[trigger] g2[q], sol[q]) by {
            assert(consistent(g1[q], sol[q]));
            assert forall|j: int| 0 <= j < sol[q].len() implies #[trigger] agrees(g2[q][j], sol[q][j]) by {
                assert(agrees(g1[q][j], sol[q][j]));
                if q < h && j == c {
                    assert(agrees(deduced(col, cc[c], q), scol[q]));
                }
            }
        }
    }
}

/// One pass of line logic over every row, then every column. `Err` when
/// some line cannot be completed; otherwise whether any cell was learned.
fn propagate(
    grid: &mut Vec<Vec<Cell>>,
    row_clues: &[Vec<usize>],
    col_clues: &[Vec<usize>],
    Ghost(w): Ghost<int>,
) -> (res: Result<bool, ()>)
    requires
        row_clues.len() <= old(grid)@.len() < usize::MAX,
        col_clues.len() <= w < usize::MAX,
        grid_shape(gview(old(grid)@), old(grid)@.len() as int, w),
    ensures
        grid_shape(gview(final(grid)@), old(grid)@.len() as int, w),
        refines(gview(final(grid)@), gview(old(grid)@)),
        forall|sol: Seq<Seq<bool>>|
            solves_clues(sol, clue_rows(row_clues@), clue_rows(col_clues@), old(grid)@.len() as int, w)
                && grid_agrees(gview(old(grid)@), sol) ==> #[trigger] grid_agrees(
                gview(final(grid)@),
                sol,
            ),
        res is Err ==> forall|sol: Seq<Seq<bool>>|
            solves_clues(sol, clue_rows(row_clues@), clue_rows(col_clues@), old(grid)@.len() as int, w)
                ==> !#[trigger] grid_agrees(gview(old(grid)@), sol),
        res == Ok::<bool, ()>(true) ==> count_grid(gview(final(grid)@)) < count_grid(gview(old(grid)@)),
        res == Ok::<bool, ()>(false) ==> gview(final(grid)@) == gview(old(grid)@) && lines_ok(
            gview(old(grid)@),
            clue_rows(row_clues@),
            clue_rows(col_clues@),
        ),
        res == Ok::<bool, ()>(false) ==> settled(
            gview(old(grid)@),
            clue_rows(row_clues@),
            clue_rows(col_clues@),
        ),
{
    let ghost g0 = gview(grid@);
    let ghost h = grid@.len() as int;
    let ghost rc = clue_rows(row_clues@);
    let ghost cc = clue_rows(col_clues@);
    let rows = row_clues.len();
    let cols = col_clues.len();
    let mut changed = false;
    let mut r: usize = 0;
    while r < rows
        invariant
            r <= rows,
            rows == rc.len(),
            cols == cc.len(),
            rc == clue_rows(row_clues@),
            cc == clue_rows(col_clues@),
            rows <= h,
            h == g0.len(),
            h == old(grid)@.len(),
            g0 == gview(old(grid)@),
            cols <= w < usize::MAX,
            grid_shape(gview(grid@), h, w),
            refines(gview(grid@), g0),
            forall|sol: Seq<Seq<bool>>|
                solves_clues(sol, rc, cc, h, w) && grid_agrees(g0, sol) ==> #[trigger] grid_agrees(
                    gview(grid@),
                    sol,
                ),
            count_grid(gview(grid@)) <= count_grid(g0),
            changed ==> count_grid(gview(grid@)) < count_grid(g0),
            !changed ==> gview(grid@) == g0,
            !changed ==> forall|q: int| 0 <= q < r ==> line_solvable(#[trigger] g0[q], rc[q]),
            !changed ==> forall|q: int, i: int|
                0 <= q < r && 0 <= i < cols ==> #[trigger] deduced(g0[q], rc[q], i) == g0[q][i],
        decreases rows - r,
    {
        let ghost g1 = gview(grid@);
        assert(grid_shape(g1, h, w));
        assert(refines(g1, g0));
        proof {
            assert(g1[r as int].len() == w);
            assert(row_clues@[r as int]@ == rc[r as int]);
        }
        let new_line = match solve_line(row_clues[r].as_slice(), grid[r].as_slice()) {
            Some(v) => v,
            None => {
                proof {
                    assert forall|sol: Seq<Seq<bool>>| solves_clues(sol, rc, cc, h, w) implies !#[trigger] grid_agrees(
                        g0,
                        sol,
                    ) by {
                        if grid_agrees(g0, sol) {
                            assert(grid_agrees(g1, sol));
                            assert(consistent(g1[r as int], sol[r as int]));
                            assert(fits(sol[r as int], rc[r as int]));
                        }
                    }
                }
                return Err(());
            },
        };
        proof {
            lemma_deduced(g1[r as int], rc[r as int]);
            assert(g1[r as int] == grid@[r as int]@);
            assert forall|j: int|
                0 <= j < new_line@.len() && grid@[r as int]@[j] != Cell::Unknown implies new_line@[j]
                == grid@[r as int]@[j] by {
                assert(new_line@[j] == deduced(g1[r as int], rc[r as int], j));
            }
        }
        let ch = apply_row(grid, r, &new_line, cols);
        proof {
            let g2 = gview(grid@);
            lemma_row_step(g1, g2, r as int, new_line@, cols as int, rc, cc, w);
            lemma_refines_trans(g2, g1, g0);
            if !changed && !ch {
                assert(g1 == g0);
                assert forall|i: int| 0 <= i < cols implies #[trigger] deduced(g0[r as int], rc[r as int], i)
                    == g0[r as int][i] by {
                    assert(new_line@[i] == deduced(g1[r as int], rc[r as int], i));
                    assert(g2[r as int][i] == g1[r as int][i]);
                }
            }
        }
        changed = changed || ch;
        r = r + 1;
    }
    let mut c: usize = 0;
    while c < cols
        invariant
            c <= cols,
            rows == rc.len(),
            cols == cc.len(),
            rc == clue_rows(row_clues@),
            cc == clue_rows(col_clues@),
            rows <= h,
            h == g0.len(),
            h == old(grid)@.len(),
            g0 == gview(old(grid)@),
            h < usize::MAX,
            cols <= w < usize::MAX,
            grid_shape(gview(grid@), h, w),
            refines(gview(grid@), g0),
            forall|sol: Seq<Seq<bool>>|
                solves_clues(sol, rc, cc, h, w) && grid_agrees(g0, sol) ==> #[trigger] grid_agrees(
                    gview(grid@),
                    sol,
                ),
            count_grid(gview(grid@)) <= count_grid(g0),
            changed ==> count_grid(gview(grid@)) < count_grid(g0),
            !changed ==> gview(grid@) == g0,
            !changed ==> forall|q: int| 0 <= q < rows ==> line_solvable(#[trigger] g0[q], rc[q]),
            !changed ==> forall|q: int|
                0 <= q < c ==> line_solvable(#[trigger] ccol(g0, q, rows as int), cc[q]),
            !changed ==> forall|q: int, i: int|
                0 <= q < rows && 0 <= i < cols ==> #[trigger] deduced(g0[q], rc[q], i) == g0[q][i],
            !changed ==> forall|q: int, i: int|
                0 <= q < c && 0 <= i < rows ==> #[trigger] deduced(ccol(g0, q, rows as int), cc[q], i)
                    == g0[i][q],
        decreases cols - c,
    {
        let ghost g1 = gview(grid@);
        assert(grid_shape(g1, h, w));
        assert(refines(g1, g0));
        let mut line: Vec<Cell> = Vec::new();
        let mut q: usize = 0;
        while q < rows
            invariant
                q <= rows <= h,
                c < w,
                g1 == gview(grid@),
                grid_shape(g1, h, w),
                line@ == ccol(g1, c as int, q as int),
            decreases rows - q,
        {
            proof {
                assert(g1[q as int].len() == w);
            }
            line.push(grid[q][c]);
            proof {
                assert(line@ =~= ccol(g1, c as int, q + 1));
            }
            q = q + 1;
        }
        proof {
            assert(col_clues@[c as int]@ == cc[c as int]);
        }
        let new_line = match solve_line(col_clues[c].as_slice(), line.as_slice()) {
            Some(v) => v,
            None => {
                proof {
                    assert forall|sol: Seq<Seq<bool>>| solves_clues(sol, rc, cc, h, w) implies !#[trigger] grid_agrees(
                        g0,
                        sol,
                    ) by {
                        if grid_agrees(g0, sol) {
                            assert(grid_agrees(g1, sol));
                            let col = ccol(g1, c as int, rows as int);
                            let scol = column(sol, c as int, rows as int);
                            assert(fits(scol, cc[c as int]));
                            assert forall|j: int| 0 <= j < rows implies #[trigger] agrees(col[j], scol[j]) by {
                                assert(consistent(g1[j], sol[j]));
                                assert(agrees(g1[j][c as int], sol[j][c as int]));
                            }
                            assert(consistent(col, scol));
                        }
                    }
                }
                return Err(());
            },
        };
        proof {
            lemma_deduced(ccol(g1, c as int, rows as int), cc[c as int]);
            assert forall|q: int| 0 <= q < grid@.len() implies c < #[trigger] grid@[q]@.len() by {
                assert(gview(grid@)[q] == grid@[q]@);
            }
            assert forall|q: int|
                0 <= q < rows && grid@[q]@[c as int] != Cell::Unknown implies new_line@[q] == grid@[q]@[c as int] by {
                assert(gview(grid@)[q] == grid@[q]@);
                assert(new_line@[q] == deduced(ccol(g1, c as int, rows as int), cc[c as int], q));
                assert(ccol(g1, c as int, rows as int)[q] == g1[q][c as int]);
            }
        }
        let ch = apply_col(grid, c, &new_line, rows);
        proof {
            let g2 = gview(grid@);
            lemma_col_step(g1, g2, c as int, new_line@, rc, cc, w);
            lemma_refines_trans(g2, g1, g0);
            if !changed && !ch {
                assert(g1 == g0);
                assert forall|i: int| 0 <= i < rows implies #[trigger] deduced(
                    ccol(g0, c as int, rows as int),
                    cc[c as int],
                    i,
                ) == g0[i][c as int] by {
                    assert(new_line@[i] == deduced(ccol(g1, c as int, rows as int), cc[c as int], i));
                    assert(g1[i].len() == w);
                    assert(g2[i][c as int] == g1[i][c as int]);
                }
            }
        }
        changed = changed || ch;
        c = c + 1;
    }
    Ok(changed)
}


spec fn line_bools(line: Seq<Cell>) -> Seq<bool> {
    line.map_values(|c: Cell| c == Cell::Filled)
}

spec fn grid_bools(g: Seq<Seq<Cell>>) -> Seq<Seq<bool>> {
    g.map_values(|row: Seq<Cell>| line_bools(row))
}

/// No cell of `g` is unknown.
pub open spec fn fully_known(g: Seq<Seq<Cell>>) -> bool {
    forall|r: int, c: int| 0 <= r < g.len() && 0 <= c < g[r].len() ==> #[trigger] g[r][c] != Cell::Unknown
}

/// A line without unknown cells can be completed only by itself.
proof fn lemma_known_line(line: Seq<Cell>, cl: Seq<usize>)
    requires
        forall|j: int| 0 <= j < line.len() ==> #[trigger] line[j] != Cell::Unknown,
        line_solvable(line, cl),
    ensures
        fits(line_bools(line), cl),
{
    let p = choose|p: Seq<bool>| consistent(line, p) && #[trigger] fits(p, cl);
    assert forall|j: int| 0 <= j < line.len() implies p[j] == line_bools(line)[j] by {
        assert(agrees(line[j], p[j]));
    }
    assert(p =~= line_bools(line));
}

/// A grid without unknown cells whose every line can be completed is a
/// solution.
proof fn lemma_solved_grid(g: Seq<Seq<Cell>>, rc: Seq<Seq<usize>>, cc: Seq<Seq<usize>>, w: int)
    requires
        rc.len() <= g.len(),
        cc.len() <= w,
        grid_shape(g, g.len() as int, w),
        fully_known(g),
        lines_ok(g, rc, cc),
    ensures
        solves_clues(grid_bools(g), rc, cc, g.len() as int, w),
{
    let s = grid_bools(g);
    let h = rc.len() as int;
    assert forall|r: int| 0 <= r < g.len() implies #[trigger] s[r].len() == w by {
        assert(g[r].len() == w);
    }
    assert forall|r: int| 0 <= r < rc.len() implies fits(#[trigger] s[r], rc[r]) by {
        assert(line_solvable(g[r], rc[r]));
        assert forall|j: int| 0 <= j < g[r].len() implies #[trigger] g[r][j] != Cell::Unknown by {}
        lemma_known_line(g[r], rc[r]);
    }
    assert forall|c: int| 0 <= c < cc.len() implies fits(#[trigger] column(s, c, h), cc[c]) by {
        let col = ccol(g, c, h);
        assert(line_solvable(col, cc[c]));
        assert forall|j: int| 0 <= j < col.len() implies #[trigger] col[j] != Cell::Unknown by {
            assert(g[j].len() == w);
            assert(g[j][c] != Cell::Unknown);
        }
        lemma_known_line(col, cc[c]);
        assert(column(s, c, h) =~= line_bools(col));
    }
}

/// Cell (`r1`, `c1`) comes before cell (`r2`, `c2`) in reading order: row by
/// row, and left to right in a row.
pub open spec fn reads_before(r1: int, c1: int, r2: int, c2: int) -> bool {
    r1 < r2 || (r1 == r2 && c1 < c2)
}

/// Grids ordered by their cells in reading order, a filled cell before a
/// blank one: `s` is `t`, or at the first cell where they differ `s` is
/// filled.
pub open spec fn reads_no_later(s: Seq<Seq<bool>>, t: Seq<Seq<bool>>) -> bool {
    ||| s == t
    ||| exists|r: int, c: int|
        #![trigger s[r][c], t[r][c]]
        0 <= r < s.len() && 0 <= c < s[r].len() && s[r][c] && !t[r][c] && forall|r2: int, c2: int|
            0 <= r2 < s.len() && 0 <= c2 < s[r2].len() && reads_before(r2, c2, r, c) ==> #[trigger] s[r2][c2]
                == t[r2][c2]
}

/// Two grids of one shape that each come no later than the other are the
/// same grid: so "first in reading order" picks one grid.
pub proof fn lemma_reads_no_later_antisymmetric(s: Seq<Seq<bool>>, t: Seq<Seq<bool>>)
    requires
        s.len() == t.len(),
        forall|r: int| 0 <= r < s.len() ==> #[trigger] s[r].len() == t[r].len(),
        reads_no_later(s, t),
        reads_no_later(t, s),
    ensures
        s == t,
{
    if s != t {
        let (r, c) = choose|r: int, c: int|
            #![trigger s[r][c], t[r][c]]
            0 <= r < s.len() && 0 <= c < s[r].len() && s[r][c] && !t[r][c] && forall|r2: int, c2: int|
                0 <= r2 < s.len() && 0 <= c2 < s[r2].len() && reads_before(r2, c2, r, c) ==> #[trigger] s[r2][c2]
                    == t[r2][c2];
        let (q, d) = choose|q: int, d: int|
            #![trigger t[q][d], s[q][d]]
            0 <= q < t.len() && 0 <= d < t[q].len() && t[q][d] && !s[q][d] && forall|r2: int, c2: int|
                0 <= r2 < t.len() && 0 <= c2 < t[r2].len() && reads_before(r2, c2, q, d) ==> #[trigger] t[r2][c2]
                    == s[r2][c2];
        assert(s[q].len() == t[q].len());
        if reads_before(r, c, q, d) {
            assert(t[r][c] == s[r][c]);
        } else if reads_before(q, d, r, c) {
            assert(s[q][d] == t[q][d]);
        }
    }
}

/// The first unknown cell in reading order, if any.
fn find_unknown(grid: &Vec<Vec<Cell>>) -> (r: Option<(usize, usize)>)
    ensures
        r is None ==> fully_known(gview(grid@)),
        r matches Some((i, j)) ==> i < grid@.len() && j < grid@[i as int]@.len()
            && grid@[i as int]@[j as int] == Cell::Unknown,
        r matches Some((i, j)) ==> forall|a: int, b: int|
            0 <= a < grid@.len() && 0 <= b < grid@[a]@.len() && reads_before(a, b, i as int, j as int)
                ==> #[trigger] grid@[a]@[b] != Cell::Unknown,
{
    let mut i: usize = 0;
    while i < grid.len()
        invariant
            i <= grid@.len(),
            forall|a: int, b: int|
                0 <= a < i && 0 <= b < grid@[a]@.len() ==> grid@[a]@[b] != Cell::Unknown,
        decreases grid@.len() - i,
    {
        let mut j: usize = 0;
        while j < grid[i].len()
            invariant
                i < grid@.len(),
                j <= grid@[i as int]@.len(),
                forall|a: int, b: int|
                    0 <= a < i && 0 <= b < grid@[a]@.len() ==> grid@[a]@[b] != Cell::Unknown,
                forall|b: int| 0 <= b < j ==> grid@[i as int]@[b] != Cell::Unknown,
            decreases grid@[i as int]@.len() - j,
        {
            if grid[i][j] == Cell::Unknown {
                return Some((i, j));
            }
            j = j + 1;
        }
        i = i + 1;
    }
    proof {
        assert forall|a: int, b: int|
            0 <= a < gview(grid@).len() && 0 <= b < gview(grid@)[a].len() implies #[trigger] gview(
            grid@,
        )[a][b] != Cell::Unknown by {
            assert(gview(grid@)[a] == grid@[a]@);
        }
    }
    None
}

/// Guessing `v` for cell (`r`, `c`) keeps every full grid that has `v` there.
proof fn lemma_guess_agrees(g1: Seq<Seq<Cell>>, sol: Seq<Seq<bool>>, r: int, c: int, v: Cell)
    requires
        grid_agrees(g1, sol),
        0 <= r < g1.len(),
        0 <= c < g1[r].len(),
        agrees(v, sol[r][c]),
    ensures
        grid_agrees(g1.update(r, g1[r].update(c, v)), sol),
{
    let gb = g1.update(r, g1[r].update(c, v));
    assert forall|q: int| 0 <= q < gb.len() implies consistent(#[trigger] gb[q], sol[q]) by {
        assert(consistent(g1[q], sol[q]));
        if q == r {
            assert forall|j: int| 0 <= j < sol[q].len() implies #[trigger] agrees(gb[q][j], sol[q][j]) by {
                assert(agrees(g1[q][j], sol[q][j]));
            }
        } else {
            assert(gb[q] == g1[q]);
        }
    }
}

/// A filled guess at the first unknown cell that led to a solution puts that
/// solution before every full grid that agrees with the grid and has the
/// cell blank.
proof fn lemma_filled_guess_first(
    g1: Seq<Seq<Cell>>,
    gres: Seq<Seq<Cell>>,
    sol: Seq<Seq<bool>>,
    r: int,
    c: int,
)
    requires
        refines(gres, g1),
        0 <= r < g1.len(),
        0 <= c < g1[r].len(),
        gres[r][c] == Cell::Filled,
        forall|a: int, b: int|
            0 <= a < g1.len() && 0 <= b < g1[a].len() && reads_before(a, b, r, c) ==> #[trigger] g1[a][b]
                != Cell::Unknown,
        grid_agrees(g1, sol),
        !sol[r][c],
    ensures
        reads_no_later(grid_bools(gres), sol),
{
    let big = grid_bools(gres);
    assert(gres[r].len() == g1[r].len());
    assert(big[r] == line_bools(gres[r]));
    assert(big[r][c]);
    assert forall|a: int, b: int|
        0 <= a < big.len() && 0 <= b < big[a].len() && reads_before(a, b, r, c) implies #[trigger] big[a][b]
        == sol[a][b] by {
        assert(big[a] == line_bools(gres[a]));
        assert(gres[a].len() == g1[a].len());
        assert(g1[a][b] != Cell::Unknown);
        assert(gres[a][b] == g1[a][b]);
        assert(consistent(g1[a], sol[a]));
        assert(agrees(g1[a][b], sol[a][b]));
    }
    assert(big[r][c] && !sol[r][c]);
}

fn copy_grid(grid: &Vec<Vec<Cell>>) -> (copy: Vec<Vec<Cell>>)
    ensures
        gview(copy@) == gview(grid@),
{
    let mut copy: Vec<Vec<Cell>> = Vec::new();
    let mut i: usize = 0;
    while i < grid.len()
        invariant
            i <= grid@.len(),
            copy@.len() == i,
            forall|a: int| 0 <= a < i ==> #[trigger] copy@[a]@ == grid@[a]@,
        decreases grid@.len() - i,
    {
        let mut row: Vec<Cell> = Vec::new();
        let mut j: usize = 0;
        while j < grid[i].len()
            invariant
                i < grid@.len(),
                j <= grid@[i as int]@.len(),
                row@ == grid@[i as int]@.subrange(0, j as int),
            decreases grid@[i as int]@.len() - j,
        {
            row.push(grid[i][j]);
            proof {
                assert(row@ =~= grid@[i as int]@.subrange(0, j + 1));
            }
            j = j + 1;
        }
        proof {
            assert(row@ =~= grid@[i as int]@);
        }
        copy.push(row);
        i = i + 1;
    }
    proof {
        assert(gview(copy@) =~= gview(grid@));
    }
    copy
}

/// Line logic to a fixed point, then a guess on the first unknown cell
/// (filled first, then blank), recursively.
fn backtrack(
    grid: &mut Vec<Vec<Cell>>,
    row_clues: &[Vec<usize>],
    col_clues: &[Vec<usize>],
    Ghost(w): Ghost<int>,
) -> (solved: bool)
    requires
        row_clues.len() <= old(grid)@.len() < usize::MAX,
        col_clues.len() <= w < usize::MAX,
        grid_shape(gview(old(grid)@), old(grid)@.len() as int, w),
    ensures
        grid_shape(gview(final(grid)@), old(grid)@.len() as int, w),
        solved ==> fully_known(gview(final(grid)@)) && solves_clues(
            grid_bools(gview(final(grid)@)),
            clue_rows(row_clues@),
            clue_rows(col_clues@),
            old(grid)@.len() as int,
            w,
        ),
        solved ==> refines(gview(final(grid)@), gview(old(grid)@)),
        solved ==> forall|sol: Seq<Seq<bool>>|
            solves_clues(sol, clue_rows(row_clues@), clue_rows(col_clues@), old(grid)@.len() as int, w)
                && #[trigger] grid_agrees(gview(old(grid)@), sol) ==> reads_no_later(
                grid_bools(gview(final(grid)@)),
                sol,
            ),
        !solved ==> forall|sol: Seq<Seq<bool>>|
            solves_clues(sol, clue_rows(row_clues@), clue_rows(col_clues@), old(grid)@.len() as int, w)
                ==> !#[trigger] grid_agrees(gview(old(grid)@), sol),
    decreases count_grid(gview(old(grid)@)),
{
    let ghost g0 = gview(grid@);
    let ghost h = grid@.len() as int;
    let ghost rc = clue_rows(row_clues@);
    let ghost cc = clue_rows(col_clues@);
    let mut settled = false;
    while !settled
        invariant
            h == g0.len(),
            h == old(grid)@.len(),
            g0 == gview(old(grid)@),
            rc == clue_rows(row_clues@),
            cc == clue_rows(col_clues@),
            row_clues.len() <= h < usize::MAX,
            col_clues.len() <= w < usize::MAX,
            grid@.len() == h,
            grid_shape(gview(grid@), h, w),
            count_grid(gview(grid@)) <= count_grid(g0),
            refines(gview(grid@), g0),
            forall|sol: Seq<Seq<bool>>|
                solves_clues(sol, rc, cc, h, w) && grid_agrees(g0, sol) ==> #[trigger] grid_agrees(
                    gview(grid@),
                    sol,
                ),
            settled ==> lines_ok(gview(grid@), rc, cc),
        decreases count_grid(gview(grid@)) + (if settled {
            0int
        } else {
            1int
        }),
    {
        let ghost g1 = gview(grid@);
        match propagate(grid, row_clues, col_clues, Ghost(w)) {
            Err(()) => {
                proof {
                    assert forall|sol: Seq<Seq<bool>>| solves_clues(sol, rc, cc, h, w) implies !#[trigger] grid_agrees(
                        g0,
                        sol,
                    ) by {
                        if grid_agrees(g0, sol) {
                            assert(grid_agrees(g1, sol));
                        }
                    }
                }
                return false;
            },
            Ok(false) => {
                settled = true;
            },
            Ok(true) => {},
        }
        proof {
            lemma_refines_trans(gview(grid@), g1, g0);
        }
    }
    match find_unknown(grid) {
        None => {
            proof {
                lemma_solved_grid(gview(grid@), rc, cc, w);
                assert forall|sol: Seq<Seq<bool>>|
                    solves_clues(sol, rc, cc, h, w) && #[trigger] grid_agrees(g0, sol) implies reads_no_later(
                    grid_bools(gview(grid@)),
                    sol,
                ) by {
                    assert(grid_agrees(gview(grid@), sol));
                    lemma_known_grid_agrees(gview(grid@), sol);
                }
            }
            true
        },
        Some((r, c)) => {
            let ghost g1 = gview(grid@);
            proof {
                assert(g1[r as int] == grid@[r as int]@);
                assert forall|a: int, b: int|
                    0 <= a < g1.len() && 0 <= b < g1[a].len() && reads_before(a, b, r as int, c as int) implies #[trigger] g1[a][b]
                    != Cell::Unknown by {
                    assert(g1[a] == grid@[a]@);
                }
            }
            let saved = copy_grid(grid);
            set_cell(grid, r, c, Cell::Filled);
            let ghost gf = gview(grid@);
            proof {
                assert(grid_shape(gf, h, w)) by {
                    assert forall|q: int| 0 <= q < h implies #[trigger] gf[q].len() == w by {
                        if q != r {
                            assert(gf[q] == g1[q]);
                        }
                    }
                }
            }
            if backtrack(grid, row_clues, col_clues, Ghost(w)) {
                proof {
                    lemma_refines_trans(gview(grid@), gf, g1);
                    lemma_refines_trans(gview(grid@), g1, g0);
                    let gres = gview(grid@);
                    assert(gres[r as int][c as int] == Cell::Filled) by {
                        assert(gf[r as int][c as int] == Cell::Filled);
                        assert(gf[r as int].len() == g1[r as int].len());
                    }
                    assert forall|sol: Seq<Seq<bool>>|
                        solves_clues(sol, rc, cc, h, w) && #[trigger] grid_agrees(g0, sol) implies reads_no_later(
                        grid_bools(gres),
                        sol,
                    ) by {
                        assert(grid_agrees(g1, sol));
                        if sol[r as int][c as int] {
                            lemma_guess_agrees(g1, sol, r as int, c as int, Cell::Filled);
                            assert(grid_agrees(gf, sol));
                        } else {
                            lemma_filled_guess_first(g1, gres, sol, r as int, c as int);
                        }
                    }
                }
                return true;
            }
            *grid = saved;
            set_cell(grid, r, c, Cell::Empty);
            let ghost ge = gview(grid@);
            proof {
                assert(grid_shape(ge, h, w)) by {
                    assert forall|q: int| 0 <= q < h implies #[trigger] ge[q].len() == w by {
                        if q != r {
                            assert(ge[q] == g1[q]);
                        }
                    }
                }
            }
            let res = backtrack(grid, row_clues, col_clues, Ghost(w));
            proof {
                if res {
                    lemma_refines_trans(gview(grid@), ge, g1);
                    lemma_refines_trans(gview(grid@), g1, g0);
                    assert forall|sol: Seq<Seq<bool>>|
                        solves_clues(sol, rc, cc, h, w) && #[trigger] grid_agrees(g0, sol) implies reads_no_later(
                        grid_bools(gview(grid@)),
                        sol,
                    ) by {
                        assert(grid_agrees(g1, sol));
                        if sol[r as int][c as int] {
                            lemma_guess_agrees(g1, sol, r as int, c as int, Cell::Filled);
                            assert(grid_agrees(gf, sol));
                        }
                        lemma_guess_agrees(g1, sol, r as int, c as int, Cell::Empty);
                        assert(grid_agrees(ge, sol));
                    }
                }
                if !res {
                    assert forall|sol: Seq<Seq<bool>>| solves_clues(sol, rc, cc, h, w) implies !#[trigger] grid_agrees(
                        g0,
                        sol,
                    ) by {
                        if grid_agrees(g0, sol) {
                            assert(grid_agrees(g1, sol));
                            if sol[r as int][c as int] {
                                lemma_guess_agrees(g1, sol, r as int, c as int, Cell::Filled);
                                assert(grid_agrees(gf, sol));
                            } else {
                                lemma_guess_agrees(g1, sol, r as int, c as int, Cell::Empty);
                                assert(grid_agrees(ge, sol));
                            }
                        }
                    }
                }
            }
            res
        },
    }
}

/// A grid of `rows` rows of `cols` unknown cells.
fn unknown_grid(rows: usize, cols: usize) -> (grid: Vec<Vec<Cell>>)
    ensures
        grid@.len() == rows,
        grid_shape(gview(grid@), rows as int, cols as int),
        forall|q: int, j: int|
            0 <= q < rows && 0 <= j < cols ==> #[trigger] gview(grid@)[q][j] == Cell::Unknown,
{
    let mut grid: Vec<Vec<Cell>> = Vec::new();
    while grid.len() < rows
        invariant
            grid@.len() <= rows,
            forall|q: int| 0 <= q < grid@.len() ==> #[trigger] grid@[q]@.len() == cols,
            forall|q: int, j: int|
                0 <= q < grid@.len() && 0 <= j < cols ==> #[trigger] grid@[q]@[j] == Cell::Unknown,
        decreases rows - grid@.len(),
    {
        let mut row: Vec<Cell> = Vec::new();
        while row.len() < cols
            invariant
                row@.len() <= cols,
                forall|j: int| 0 <= j < row@.len() ==> row@[j] == Cell::Unknown,
            decreases cols - row@.len(),
        {
            row.push(Cell::Unknown);
        }
        grid.push(row);
    }
    proof {
        assert forall|q: int| 0 <= q < rows implies #[trigger] gview(grid@)[q].len() == cols by {
            assert(gview(grid@)[q] == grid@[q]@);
        }
        assert forall|q: int, j: int| 0 <= q < rows && 0 <= j < cols implies #[trigger] gview(
            grid@,
        )[q][j] == Cell::Unknown by {
            assert(gview(grid@)[q] == grid@[q]@);
        }
    }
    grid
}

/// Every full grid agrees with a grid of unknown cells of its shape.
proof fn lemma_unknown_agrees(g: Seq<Seq<Cell>>, s: Seq<Seq<bool>>, h: int, w: int)
    requires
        grid_shape(g, h, w),
        forall|q: int, j: int| 0 <= q < h && 0 <= j < w ==> #[trigger] g[q][j] == Cell::Unknown,
        s.len() == h,
        forall|q: int| 0 <= q < h ==> #[trigger] s[q].len() == w,
    ensures
        grid_agrees(g, s),
{
    assert forall|q: int| 0 <= q < g.len() implies consistent(#[trigger] g[q], s[q]) by {
        assert(g[q].len() == w);
        assert(s[q].len() == w);
        assert forall|j: int| 0 <= j < s[q].len() implies #[trigger] agrees(g[q][j], s[q][j]) by {
            assert(g[q][j] == Cell::Unknown);
        }
    }
}

/// A grid without unknown cells agrees with one full grid only: its own.
proof fn lemma_known_grid_agrees(g: Seq<Seq<Cell>>, s: Seq<Seq<bool>>)
    requires
        fully_known(g),
        grid_agrees(g, s),
    ensures
        s == grid_bools(g),
{
    assert forall|r: int| 0 <= r < g.len() implies #[trigger] s[r] == grid_bools(g)[r] by {
        assert(consistent(g[r], s[r]));
        assert forall|j: int| 0 <= j < s[r].len() implies s[r][j] == #[trigger] line_bools(g[r])[j] by {
            assert(agrees(g[r][j], s[r][j]));
        }
        assert(s[r] =~= line_bools(g[r]));
    }
    assert(s =~= grid_bools(g));
}

/// The grid of booleans that a fully known solver grid stands for.
fn known_bools(grid: &Vec<Vec<Cell>>, rows: usize, cols: usize) -> (out: Vec<Vec<bool>>)
    requires
        grid@.len() == rows,
        grid_shape(gview(grid@), rows as int, cols as int),
    ensures
        bool_rows(out@) == grid_bools(gview(grid@)),
{
    let ghost gs = gview(grid@);
    let mut out: Vec<Vec<bool>> = Vec::new();
    let mut i: usize = 0;
    while i < rows
        invariant
            i <= rows,
            gs == gview(grid@),
            grid@.len() == rows,
            grid_shape(gs, rows as int, cols as int),
            out@.len() == i,
            forall|q: int| 0 <= q < i ==> #[trigger] out@[q]@ == line_bools(gs[q]),
        decreases rows - i,
    {
        let mut row: Vec<bool> = Vec::new();
        let mut j: usize = 0;
        proof {
            assert(gs[i as int] == grid@[i as int]@);
            assert(gs[i as int].len() == cols);
        }
        while j < cols
            invariant
                i < rows,
                j <= cols,
                gs == gview(grid@),
                grid@.len() == rows,
                gs[i as int] == grid@[i as int]@,
                gs[i as int].len() == cols,
                row@ == line_bools(gs[i as int]).subrange(0, j as int),
            decreases cols - j,
        {
            row.push(grid[i][j] == Cell::Filled);
            proof {
                assert(row@ =~= line_bools(gs[i as int]).subrange(0, j + 1));
            }
            j = j + 1;
        }
        proof {
            assert(row@ =~= line_bools(gs[i as int]));
        }
        out.push(row);
        i = i + 1;
    }
    proof {
        assert(bool_rows(out@) =~= grid_bools(gs));
    }
    out
}

/// Solves a puzzle from its clues: line logic over rows and columns to a
/// fixed point, with backtracking on the first unknown cell when it stalls
/// (filled tried first). Returns a grid that fits every clue, or `None` when
/// no grid does. Where several grids fit, it is the first of them in reading
/// order, a filled cell before a blank one (`reads_no_later`).
pub fn solve(puzzle: &Puzzle) -> (result: Option<Vec<Vec<bool>>>)
    requires
        puzzle.row_clues.len() <= puzzle.rows < usize::MAX,
        puzzle.col_clues.len() <= puzzle.cols < usize::MAX,
    ensures
        result matches Some(g) ==> puzzle.is_solved_by(bool_rows(g@)),
        result matches Some(g) ==> forall|s: Seq<Seq<bool>>|
            #[trigger] puzzle.is_solved_by(s) ==> reads_no_later(bool_rows(g@), s),
        result is None ==> forall|s: Seq<Seq<bool>>| !#[trigger] puzzle.is_solved_by(s),
{
    let rows = puzzle.rows;
    let cols = puzzle.cols;
    let mut grid = unknown_grid(rows, cols);
    let ghost g0 = gview(grid@);
    let solved = backtrack(
        &mut grid,
        puzzle.row_clues.as_slice(),
        puzzle.col_clues.as_slice(),
        Ghost(cols as int),
    );
    if !solved {
        proof {
            assert forall|s: Seq<Seq<bool>>| !#[trigger] puzzle.is_solved_by(s) by {
                if puzzle.is_solved_by(s) {
                    lemma_unknown_agrees(g0, s, rows as int, cols as int);
                }
            }
        }
        return None;
    }
    proof {
        assert forall|s: Seq<Seq<bool>>| #[trigger] puzzle.is_solved_by(s) implies reads_no_later(
            grid_bools(gview(grid@)),
            s,
        ) by {
            lemma_unknown_agrees(g0, s, rows as int, cols as int);
        }
    }
    Some(known_bools(&grid, rows, cols))
}

/// Where line logic stops short on `puzzle`: a grid of the puzzle's shape
/// with which every grid that solves the puzzle agrees, on which line logic
/// concludes nothing new, and in which some cell is still unknown.
pub open spec fn stalls_at(puzzle: Puzzle, g: Seq<Seq<Cell>>) -> bool {
    &&& grid_shape(g, puzzle.rows as int, puzzle.cols as int)
    &&& settled(g, clue_rows(puzzle.row_clues@), clue_rows(puzzle.col_clues@))
    &&& !fully_known(g)
    &&& forall|s: Seq<Seq<bool>>| #[trigger] puzzle.is_solved_by(s) ==> grid_agrees(g, s)
}

/// Solves a puzzle by line logic alone, with no guess: rows and columns are
/// worked to a fixed point from a blank grid. Returns the picture when that
/// leaves no cell unknown; such a picture is the one grid that fits every
/// clue. `None` when line logic finds that no grid fits, or stalls with a
/// cell unknown.
pub fn solve_by_logic(puzzle: &Puzzle) -> (result: Option<Vec<Vec<bool>>>)
    requires
        puzzle.row_clues.len() <= puzzle.rows < usize::MAX,
        puzzle.col_clues.len() <= puzzle.cols < usize::MAX,
    ensures
        result matches Some(g) ==> puzzle.is_solved_by(bool_rows(g@)),
        result matches Some(g) ==> forall|s: Seq<Seq<bool>>|
            #[trigger] puzzle.is_solved_by(s) ==> s == bool_rows(g@),
        result is None ==> (forall|s: Seq<Seq<bool>>| !#[trigger] puzzle.is_solved_by(s)) || exists|
            g: Seq<Seq<Cell>>,
        | #[trigger] stalls_at(*puzzle, g),
{
    let rows = puzzle.rows;
    let cols = puzzle.cols;
    let row_clues = puzzle.row_clues.as_slice();
    let col_clues = puzzle.col_clues.as_slice();
    let mut grid = unknown_grid(rows, cols);
    let ghost g0 = gview(grid@);
    let ghost h = rows as int;
    let ghost w = cols as int;
    let ghost rc = clue_rows(row_clues@);
    let ghost cc = clue_rows(col_clues@);
    proof {
        assert forall|s: Seq<Seq<bool>>| #[trigger] puzzle.is_solved_by(s) implies grid_agrees(g0, s) by {
            lemma_unknown_agrees(g0, s, h, w);
        }
    }
    let mut at_rest = false;
    while !at_rest
        invariant
            row_clues@ == puzzle.row_clues@,
            col_clues@ == puzzle.col_clues@,
            rows == puzzle.rows,
            cols == puzzle.cols,
            h == g0.len(),
            h == rows,
            w == cols,
            rc == clue_rows(row_clues@),
            cc == clue_rows(col_clues@),
            row_clues.len() <= h < usize::MAX,
            col_clues.len() <= w < usize::MAX,
            grid@.len() == h,
            grid_shape(gview(grid@), h, w),
            forall|sol: Seq<Seq<bool>>|
                solves_clues(sol, rc, cc, h, w) && grid_agrees(g0, sol) ==> #[trigger] grid_agrees(
                    gview(grid@),
                    sol,
                ),
            at_rest ==> lines_ok(gview(grid@), rc, cc),
            at_rest ==> settled(gview(grid@), rc, cc),
            forall|s: Seq<Seq<bool>>| #[trigger] puzzle.is_solved_by(s) ==> grid_agrees(g0, s),
        decreases count_grid(gview(grid@)) + (if at_rest {
            0int
        } else {
            1int
        }),
    {
        let ghost g1 = gview(grid@);
        match propagate(&mut grid, row_clues, col_clues, Ghost(w)) {
            Err(()) => {
                proof {
                    assert forall|s: Seq<Seq<bool>>| !#[trigger] puzzle.is_solved_by(s) by {
                        if puzzle.is_solved_by(s) {
                            assert(grid_agrees(g1, s));
                        }
                    }
                }
                return None;
            },
            Ok(false) => {
                at_rest = true;
            },
            Ok(true) => {},
        }
    }
    if let Some((r, c)) = find_unknown(&grid) {
        proof {
            let gs = gview(grid@);
            assert(gs[r as int] == grid@[r as int]@);
            assert(gs[r as int][c as int] == Cell::Unknown);
            assert(!fully_known(gs));
            assert(settled(gs, rc, cc));
            assert(stalls_at(*puzzle, gs));
        }
        return None;
    }
    let ghost gs = gview(grid@);
    proof {
        lemma_solved_grid(gs, rc, cc, w);
        assert forall|s: Seq<Seq<bool>>| #[trigger] puzzle.is_solved_by(s) implies s == grid_bools(gs) by {
            lemma_unknown_agrees(g0, s, h, w);
            assert(grid_agrees(gs, s));
            lemma_known_grid_agrees(gs, s);
        }
    }
    Some(known_bools(&grid, rows, cols))
}

/// A puzzle made from a picture is solved by that picture; so `solve`, which
/// answers `None` only where nothing solves the puzzle, finds a solution of
/// every such puzzle.
pub proof fn lemma_picture_puzzle_solvable(p: Puzzle, s: Seq<Seq<bool>>)
    requires
        p@ == crate::puzzle::picture_puzzle(p@.name, s),
        forall|r: int| 0 <= r < s.len() ==> #[trigger] s[r].len() == s[0].len(),
    ensures
        p.is_solved_by(s),
{
    crate::puzzle::lemma_picture_solves(p@.name, s);
}

} // verus!
