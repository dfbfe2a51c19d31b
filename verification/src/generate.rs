//! Random puzzles: a square picture of fair coin flips, drawn again while it
//! has no filled cell.
use rand::rngs::ThreadRng;
use rand::Rng;
use vstd::prelude::*;

use crate::puzzle::{bool_rows, picture_puzzle, Puzzle};
use crate::text::{chars_of, decimal, push_char, push_chars, push_decimal};

verus! {

#[verifier::external_type_specification]
#[verifier::external_body]
pub struct ExThreadRng(rand::rngs::ThreadRng);

/// Calls `rand::thread_rng`: the random generator of this thread, seeded by
/// the system.  Nothing is stated of it; the call panics where the system
/// cannot give a seed.
#[verifier::external_body]
fn thread_generator() -> ThreadRng {
    rand::thread_rng()
}

/// Calls `Rng::gen::<bool>` on `rng`: a fair coin flip.  Which side comes up
/// is chance, so nothing is stated of the result.
#[verifier::external_body]
fn flip(rng: &mut ThreadRng) -> bool {
    rng.gen::<bool>()
}

/// The side of a generated puzzle: the size asked for, and at least 1.
pub open spec fn side(size: usize) -> nat {
    if size == 0 {
        1
    } else {
        size as nat
    }
}

/// The name of a generated `n` x `n` puzzle: `Random <n>×<n>`.
pub open spec fn generated_name(n: nat) -> Seq<char> {
    "Random "@ + decimal(n) + seq!['\u{d7}'] + decimal(n)
}

/// `g` has `n` rows of `n` cells.
pub open spec fn is_square(g: Seq<Seq<bool>>, n: nat) -> bool {
    g.len() == n && forall|r: int| 0 <= r < n ==> #[trigger] g[r].len() == n
}

/// Some cell of `g` is filled.
pub open spec fn has_filled(g: Seq<Seq<bool>>) -> bool {
    exists|r: int, c: int| 0 <= r < g.len() && 0 <= c < g[r].len() && #[trigger] g[r][c]
}

fn square_name(n: usize) -> (name: String)
    ensures
        name@ == generated_name(n as nat),
{
    let mut name = String::new();
    let prefix = chars_of("Random ");
    push_chars(&mut name, prefix.as_slice());
    push_decimal(&mut name, n);
    push_char(&mut name, '\u{d7}');
    push_decimal(&mut name, n);
    proof {
        assert(name@ =~= generated_name(n as nat));
    }
    name
}

/// Whether some cell of `grid` is filled.
fn any_filled(grid: &Vec<Vec<bool>>) -> (r: bool)
    ensures
        r == has_filled(bool_rows(grid@)),
{
    let ghost g = bool_rows(grid@);
    let mut r: usize = 0;
    while r < grid.len()
        invariant
            r <= grid@.len(),
            g == bool_rows(grid@),
            forall|q: int, c: int| 0 <= q < r && 0 <= c < g[q].len() ==> !#[trigger] g[q][c],
        decreases grid@.len() - r,
    {
        let row = &grid[r];
        let mut c: usize = 0;
        while c < row.len()
            invariant
                r < grid@.len(),
                g == bool_rows(grid@),
                row@ == g[r as int],
                c <= row@.len(),
                forall|k: int| 0 <= k < c ==> !#[trigger] g[r as int][k],
            decreases row@.len() - c,
        {
            if row[c] {
                proof {
                    assert(g[r as int][c as int]);
                }
                return true;
            }
            c = c + 1;
        }
        r = r + 1;
    }
    false
}

/// A square grid of `n` x `n` coin flips.
fn random_grid(rng: &mut ThreadRng, n: usize) -> (grid: Vec<Vec<bool>>)
    ensures
        is_square(bool_rows(grid@), n as nat),
{
    let mut grid: Vec<Vec<bool>> = Vec::new();
    let mut r: usize = 0;
    while r < n
        invariant
            r <= n,
            grid@.len() == r,
            forall|q: int| 0 <= q < r ==> #[trigger] grid@[q]@.len() == n,
        decreases n - r,
    {
        let mut row: Vec<bool> = Vec::new();
        let mut c: usize = 0;
        while c < n
            invariant
                c <= n,
                row@.len() == c,
            decreases n - c,
        {
            row.push(flip(rng));
            c = c + 1;
        }
        grid.push(row);
        r = r + 1;
    }
    grid
}

/// What a drawn `side(size)`-square grid gives: the puzzle `Random <n>×<n>`
/// with that picture, or none where no cell is filled (such a puzzle cannot
/// be played, and the grid is drawn again).
pub fn puzzle_from_draw(size: usize, grid: Vec<Vec<bool>>) -> (p: Option<Puzzle>)
    requires
        is_square(bool_rows(grid@), side(size)),
    ensures
        p is Some <==> has_filled(bool_rows(grid@)),
        p matches Some(q) ==> q@ == picture_puzzle(generated_name(side(size)), bool_rows(grid@))
            && q.solution == Some(grid),
{
    let n = if size == 0 {
        1
    } else {
        size
    };
    if any_filled(&grid) {
        let name = square_name(n);
        proof {
            assert forall|r: int| 0 <= r < grid@.len() implies #[trigger] grid@[r]@.len()
                >= grid@[0]@.len() by {
                assert(bool_rows(grid@)[r] == grid@[r]@);
                assert(bool_rows(grid@)[0] == grid@[0]@);
            }
        }
        Some(Puzzle::new(name.as_str(), grid))
    } else {
        None
    }
}

/// A random `n` x `n` puzzle, `n` being `size` and at least 1, whose picture
/// has at least one filled cell.  Each cell is a fair coin flip, and a
/// picture with no filled cell is drawn again; should `u64::MAX` pictures in
/// a row have none, the next one, if it has none either, gets its first cell
/// filled.
pub fn generate(size: usize) -> (p: Puzzle)
    ensures
        p.solution is Some,
        is_square(bool_rows(p.solution->0@), side(size)),
        has_filled(bool_rows(p.solution->0@)),
        p@ == picture_puzzle(generated_name(side(size)), bool_rows(p.solution->0@)),
{
    let n = if size == 0 {
        1
    } else {
        size
    };
    let mut rng = thread_generator();
    let mut tries: u64 = 0;
    loop
        invariant
            n as nat == side(size),
        decreases u64::MAX - tries,
    {
        let mut grid = random_grid(&mut rng, n);
        if tries == u64::MAX && !any_filled(&grid) {
            let ghost g0 = grid@;
            let mut first = grid.remove(0);
            first.set(0, true);
            grid.insert(0, first);
            proof {
                let g = bool_rows(grid@);
                assert(grid@ =~= g0.update(0, first));
                assert(g[0][0]);
                assert(is_square(g, side(size))) by {
                    assert forall|r: int| 0 <= r < n implies #[trigger] g[r].len() == n by {
                        assert(g[r] == grid@[r]@);
                        assert(bool_rows(g0)[r] == g0[r]@);
                    }
                }
            }
        }
        match puzzle_from_draw(size, grid) {
            Some(p) => {
                return p;
            },
            None => {},
        }
        tries = tries + 1;
    }
}

} // verus!
