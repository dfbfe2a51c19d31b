//! The game state: the puzzle menu, the board being played, the cursor, the
//! timer and the best times, with the moves a player makes on them.
use std::collections::HashSet;
use std::time::{Duration, Instant};
use vstd::prelude::*;

use crate::clock::{
    clock_now, duration_of_secs, millis_of, seconds, time_between, time_since, whole_millis,
};
pub use crate::menu::MenuItem;
use crate::menu::{
    build_menu_items, entry_after, entry_before, first_puzzle_entry, lemma_entry_after,
    lemma_entry_before, lemma_menu_spec, menu_lines, menu_spec, sizes_of, MenuLine,
};
use crate::puzzle::{clue_of, clue_satisfied, filled_cells, CellState, Puzzle, PuzzleView};
use crate::save::BestTimes;
use crate::text::{chars_of, decimal, push_chars, push_decimal};

verus! {

broadcast use vstd::std_specs::hash::group_hash_axioms;

/// Which screen the game shows.
#[derive(PartialEq, Eq, Structural, Clone, Copy, Debug)]
pub enum AppState {
    Splash,
    Menu,
    Playing,
    Solved,
    Quit,
}

/// How long a fill, cross or erase stays held, in milliseconds: a move within
/// this time of the last one paints the cell it lands on the same way.
pub const HOLD_MS: u128 = 100;

/// The views of the rows of a board.
pub open spec fn board_view(b: Seq<Vec<CellState>>) -> Seq<Seq<CellState>> {
    b.map_values(|r: Vec<CellState>| r@)
}

/// A board of `rows` rows of `cols` empty cells.
pub open spec fn blank_board(rows: nat, cols: nat) -> Seq<Seq<CellState>> {
    Seq::new(rows, |r: int| Seq::new(cols, |c: int| CellState::Empty))
}

/// Cell `(r, c)` of board `b` set to `v`.
pub open spec fn board_set(b: Seq<Seq<CellState>>, r: int, c: int, v: CellState) -> Seq<
    Seq<CellState>,
> {
    b.update(r, b[r].update(c, v))
}

/// `b` has `rows` rows of `cols` cells.
pub open spec fn board_fits(b: Seq<Seq<CellState>>, rows: nat, cols: nat) -> bool {
    b.len() == rows && forall|r: int| 0 <= r < rows ==> #[trigger] b[r].len() == cols
}

/// A puzzle that the game can show and play: at least one row and column,
/// sizes that the cursor arithmetic (in `i32`) can hold, a clue for every
/// row and column, and a picture, where there is one, of the puzzle's size.
pub open spec fn playable(p: PuzzleView) -> bool {
    &&& 1 <= p.rows <= i32::MAX
    &&& 1 <= p.cols <= i32::MAX
    &&& p.row_clues.len() == p.rows
    &&& p.col_clues.len() == p.cols
    &&& p.solution matches Some(s) ==> s.len() == p.rows && forall|r: int|
        0 <= r < p.rows ==> #[trigger] s[r].len() == p.cols
}

/// What checking a board against puzzle `p` reads: its picture over its
/// rows and columns, or, without a picture, a clue for each of its rows and
/// columns.
pub open spec fn checkable(p: PuzzleView) -> bool {
    match p.solution {
        Some(s) => s.len() >= p.rows && forall|r: int| 0 <= r < p.rows ==> #[trigger] s[r].len() >= p.cols,
        None => p.row_clues.len() >= p.rows && p.col_clues.len() >= p.cols,
    }
}

/// The whole game.
pub struct App {
    pub state: AppState,
    pub puzzles: Vec<Puzzle>,
    pub current_puzzle_index: usize,
    pub board: Vec<Vec<CellState>>,
    pub cursor_row: usize,
    pub cursor_col: usize,
    pub start_time: Option<Instant>,
    pub elapsed: Duration,
    pub menu_selection: usize,
    pub solved_puzzles: HashSet<usize>,
    pub menu_items: Vec<MenuItem>,
    pub best_times: BestTimes,
    pub last_fill_time: Option<Instant>,
    pub last_cross_time: Option<Instant>,
    pub last_erase_time: Option<Instant>,
}

impl App {
    /// The puzzle being played.
    pub open spec fn puzzle(&self) -> PuzzleView {
        self.puzzles@[self.current_puzzle_index as int]@
    }

    /// The board, row by row.
    pub open spec fn cells(&self) -> Seq<Seq<CellState>> {
        board_view(self.board@)
    }

    /// The menu, line by line.
    pub open spec fn menu(&self) -> Seq<MenuLine> {
        menu_lines(self.menu_items@)
    }

    /// A consistent game: at least one puzzle, each playable, the current
    /// one among them; the menu built from them with the selection on one
    /// of its lines; and, while a puzzle is shown, a board of its size with
    /// the cursor on it.
    pub open spec fn wf(&self) -> bool {
        &&& self.puzzles@.len() > 0
        &&& forall|i: int| 0 <= i < self.puzzles@.len() ==> playable(#[trigger] self.puzzles@[i]@)
        &&& self.current_puzzle_index < self.puzzles@.len()
        &&& self.menu() == menu_spec(sizes_of(self.puzzles@))
        &&& self.menu_selection < self.menu_items@.len()
        &&& (self.state == AppState::Playing || self.state == AppState::Solved) ==> {
            &&& board_fits(self.cells(), self.puzzle().rows, self.puzzle().cols)
            &&& self.cursor_row < self.puzzle().rows
            &&& self.cursor_col < self.puzzle().cols
        }
    }
}

/// Sets one cell of a board.
fn put(board: &mut Vec<Vec<CellState>>, r: usize, c: usize, v: CellState)
    requires
        r < old(board)@.len(),
        c < old(board)@[r as int]@.len(),
    ensures
        board_view(final(board)@) == board_set(board_view(old(board)@), r as int, c as int, v),
{
    let ghost b0 = board_view(board@);
    board[r][c] = v;
    proof {
        assert(board_view(board@) =~= board_set(b0, r as int, c as int, v));
    }
}

/// A board of `rows` rows of `cols` empty cells.
fn blank(rows: usize, cols: usize) -> (board: Vec<Vec<CellState>>)
    ensures
        board_view(board@) == blank_board(rows as nat, cols as nat),
{
    let mut board: Vec<Vec<CellState>> = Vec::new();
    let mut r: usize = 0;
    while r < rows
        invariant
            r <= rows,
            board_view(board@) == blank_board(r as nat, cols as nat),
        decreases rows - r,
    {
        let mut row: Vec<CellState> = Vec::new();
        let mut c: usize = 0;
        while c < cols
            invariant
                c <= cols,
                r < rows,
                board_view(board@) == blank_board(r as nat, cols as nat),
                row@ == Seq::new(c as nat, |k: int| CellState::Empty),
            decreases cols - c,
        {
            row.push(CellState::Empty);
            proof {
                assert(row@ =~= Seq::new((c + 1) as nat, |k: int| CellState::Empty));
            }
            c = c + 1;
        }
        let ghost b0 = board@;
        board.push(row);
        proof {
            assert(board_view(b0).len() == b0.len());
            assert(board@ == b0.push(row));
            assert(board_view(board@)[r as int] == row@);
            assert(board_view(board@) =~= blank_board((r + 1) as nat, cols as nat)) by {
                assert forall|q: int| 0 <= q < r + 1 implies #[trigger] board_view(board@)[q]
                    == blank_board((r + 1) as nat, cols as nat)[q] by {
                    if q < r {
                        assert(board@[q] == b0[q]);
                        assert(board_view(b0)[q] == blank_board(r as nat, cols as nat)[q]);
                    }
                }
            }
        }
        r = r + 1;
    }
    board
}

/// The picture puzzle of a rectangular picture of a size the game handles
/// can be played.
pub proof fn lemma_picture_playable(name: Seq<char>, s: Seq<Seq<bool>>, rows: nat, cols: nat)
    requires
        crate::puzzle::rectangular(s, rows, cols),
        1 <= rows <= i32::MAX,
        1 <= cols <= i32::MAX,
    ensures
        playable(crate::puzzle::picture_puzzle(name, s)),
{
    assert(s[0].len() == cols);
}

impl App {
    /// The game at its start screen, with the built-in puzzles, the menu on
    /// the first puzzle, and as solved each puzzle with a best time.
    pub fn new(best_times: BestTimes) -> (app: App)
        ensures
            app.wf(),
            opening(app, best_times@),
            app.puzzles@.len() == 13,
            forall|k: int|
                0 <= k < 13 ==> #[trigger] app.puzzles@[k]@ == crate::puzzle::picture_puzzle(
                    crate::puzzle::preset_name(k),
                    crate::puzzle::pattern_picture(crate::puzzle::preset_pattern(k)),
                ),
    {
        let puzzles = Puzzle::presets();
        proof {
            assert forall|i: int| 0 <= i < puzzles@.len() implies playable(
                #[trigger] puzzles@[i]@,
            ) by {
                lemma_picture_playable(
                    crate::puzzle::preset_name(i),
                    crate::puzzle::pattern_picture(crate::puzzle::preset_pattern(i)),
                    crate::puzzle::preset_side(i),
                    crate::puzzle::preset_side(i),
                );
            }
        }
        App::assemble(puzzles, best_times)
    }

    /// The game with the one puzzle `puzzle`, started at once.
    pub fn with_puzzle(puzzle: Puzzle, best_times: BestTimes) -> (app: App)
        requires
            playable(puzzle@),
        ensures
            app.wf(),
            app.puzzles@ == seq![puzzle],
            exists|a: App| opening(a, best_times@) && a.puzzles@ == seq![puzzle] && started(a, app, 0),
    {
        let mut puzzles: Vec<Puzzle> = Vec::new();
        puzzles.push(puzzle);
        let mut app = App::assemble(puzzles, best_times);
        let ghost a = app;
        app.load_puzzle(0);
        app
    }

    /// The game at its start screen with `puzzles`.
    fn assemble(puzzles: Vec<Puzzle>, best_times: BestTimes) -> (app: App)
        requires
            puzzles@.len() > 0,
            forall|i: int| 0 <= i < puzzles@.len() ==> playable(#[trigger] puzzles@[i]@),
        ensures
            app.wf(),
            opening(app, best_times@),
            app.puzzles == puzzles,
    {
        let menu_items = build_menu_items(puzzles.as_slice());
        proof {
            lemma_menu_spec(sizes_of(puzzles@));
            let m = menu_lines(menu_items@);
            assert(m[m.len() - 1] is PuzzleEntry);
        }
        let initial_selection = first_puzzle_entry(menu_items.as_slice());
        let mut solved_puzzles: HashSet<usize> = HashSet::new();
        let mut i: usize = 0;
        while i < puzzles.len()
            invariant
                i <= puzzles@.len(),
                solved_puzzles@ == Set::new(
                    |j: usize| j < i && best_times@.contains_key(puzzles@[j as int].name@),
                ),
            decreases puzzles@.len() - i,
        {
            if best_times.contains(puzzles[i].name.as_str()) {
                solved_puzzles.insert(i);
            }
            proof {
                assert(solved_puzzles@ =~= Set::new(
                    |j: usize| j < i + 1 && best_times@.contains_key(puzzles@[j as int].name@),
                ));
            }
            i = i + 1;
        }
        let app = App {
            state: AppState::Splash,
            puzzles,
            current_puzzle_index: 0,
            board: Vec::new(),
            cursor_row: 0,
            cursor_col: 0,
            start_time: None,
            elapsed: duration_of_secs(0),
            menu_selection: initial_selection,
            solved_puzzles,
            menu_items,
            best_times,
            last_fill_time: None,
            last_cross_time: None,
            last_erase_time: None,
        };
        proof {
            assert(app.cells() =~= Seq::<Seq<CellState>>::empty());
        }
        app
    }

    /// Starts puzzle `index`: an empty board of its size, the cursor at the
    /// top left, the timer started, nothing held.
    pub fn load_puzzle(&mut self, index: usize)
        requires
            index < old(self).puzzles@.len(),
        ensures
            started(*old(self), *final(self), index),
            old(self).wf() ==> final(self).wf(),
    {
        self.current_puzzle_index = index;
        let rows = self.puzzles[index].rows;
        let cols = self.puzzles[index].cols;
        self.board = blank(rows, cols);
        self.cursor_row = 0;
        self.cursor_col = 0;
        self.start_time = Some(clock_now());
        self.elapsed = duration_of_secs(0);
        self.last_fill_time = None;
        self.last_cross_time = None;
        self.last_erase_time = None;
        self.state = AppState::Playing;
        proof {
            if old(self).wf() {
                assert(playable(self.puzzles@[index as int]@));
            }
        }
    }

    /// Fills the cell under the cursor, and holds the fill.
    pub fn fill_cell(&mut self)
        requires
            old(self).cursor_row < old(self).board@.len(),
            old(self).cursor_col < old(self).board@[old(self).cursor_row as int]@.len(),
        ensures
            filled(*old(self), *final(self)),
            old(self).wf() ==> final(self).wf(),
    {
        put(&mut self.board, self.cursor_row, self.cursor_col, CellState::Filled);
        self.last_fill_time = Some(clock_now());
        self.last_cross_time = None;
        self.last_erase_time = None;
    }

    /// Empties the cell under the cursor, and holds the erase.
    pub fn erase_cell(&mut self)
        requires
            old(self).cursor_row < old(self).board@.len(),
            old(self).cursor_col < old(self).board@[old(self).cursor_row as int]@.len(),
        ensures
            erased(*old(self), *final(self)),
            old(self).wf() ==> final(self).wf(),
    {
        put(&mut self.board, self.cursor_row, self.cursor_col, CellState::Empty);
        self.last_erase_time = Some(clock_now());
        self.last_fill_time = None;
        self.last_cross_time = None;
    }

    /// Crosses out the cell under the cursor, or clears it where it is
    /// crossed out already, and holds the cross.
    pub fn toggle_cross(&mut self)
        requires
            old(self).cursor_row < old(self).board@.len(),
            old(self).cursor_col < old(self).board@[old(self).cursor_row as int]@.len(),
        ensures
            cross_toggled(*old(self), *final(self)),
            old(self).wf() ==> final(self).wf(),
    {
        let r = self.cursor_row;
        let c = self.cursor_col;
        let v = if self.board[r][c] == CellState::Crossed {
            CellState::Empty
        } else {
            CellState::Crossed
        };
        put(&mut self.board, r, c, v);
        self.last_cross_time = Some(clock_now());
        self.last_fill_time = None;
        self.last_erase_time = None;
    }
}

/// `b` is `a` with puzzle `index` started: an empty board of its size, the
/// cursor at the top left, the clock started at no time elapsed, nothing
/// held.
pub open spec fn started(a: App, b: App, index: usize) -> bool {
    &&& b.cells() == blank_board(a.puzzles@[index as int]@.rows, a.puzzles@[index as int]@.cols)
    &&& b.start_time is Some
    &&& b.elapsed == seconds(0)
    &&& b == (App {
        state: AppState::Playing,
        current_puzzle_index: index,
        board: b.board,
        cursor_row: 0,
        cursor_col: 0,
        start_time: b.start_time,
        elapsed: b.elapsed,
        last_fill_time: None,
        last_cross_time: None,
        last_erase_time: None,
        ..a
    })
}

/// `b` is `a` with the cell under the cursor filled and the fill held.
pub open spec fn filled(a: App, b: App) -> bool {
    &&& b.cells() == board_set(a.cells(), a.cursor_row as int, a.cursor_col as int, CellState::Filled)
    &&& b.last_fill_time is Some
    &&& b == (App {
        board: b.board,
        last_fill_time: b.last_fill_time,
        last_cross_time: None,
        last_erase_time: None,
        ..a
    })
}

/// `b` is `a` with the cell under the cursor emptied and the erase held.
pub open spec fn erased(a: App, b: App) -> bool {
    &&& b.cells() == board_set(a.cells(), a.cursor_row as int, a.cursor_col as int, CellState::Empty)
    &&& b.last_erase_time is Some
    &&& b == (App {
        board: b.board,
        last_fill_time: None,
        last_cross_time: None,
        last_erase_time: b.last_erase_time,
        ..a
    })
}

/// `b` is `a` with the cell under the cursor crossed out, or cleared where
/// it was crossed out, and the cross held.
pub open spec fn cross_toggled(a: App, b: App) -> bool {
    let r = a.cursor_row as int;
    let c = a.cursor_col as int;
    &&& b.cells() == board_set(
        a.cells(),
        r,
        c,
        if a.cells()[r][c] == CellState::Crossed {
            CellState::Empty
        } else {
            CellState::Crossed
        },
    )
    &&& b.last_cross_time is Some
    &&& b == (App {
        board: b.board,
        last_fill_time: None,
        last_cross_time: b.last_cross_time,
        last_erase_time: None,
        ..a
    })
}

/// `b` is `a` with the cursor moved by `dr` rows and `dc` columns, and the
/// cell it lands on painted where, as the clock tells, the fill (else the
/// cross, else the erase) is still held.  Only a fill, cross or erase that
/// was made can be held.
pub open spec fn moved_and_painted(a: App, b: App, dr: i32, dc: i32) -> bool {
    let m = cursor_moved(a, dr, dc);
    let r = m.cursor_row as int;
    let c = m.cursor_col as int;
    ||| b == m
    ||| a.last_fill_time is Some && b.cells() == board_set(m.cells(), r, c, CellState::Filled)
        && b.last_fill_time is Some && b == (App {
        board: b.board,
        last_fill_time: b.last_fill_time,
        ..m
    })
    ||| a.last_cross_time is Some && b.cells() == board_set(m.cells(), r, c, CellState::Crossed)
        && b.last_cross_time is Some && b == (App {
        board: b.board,
        last_cross_time: b.last_cross_time,
        ..m
    })
    ||| a.last_erase_time is Some && b.cells() == board_set(m.cells(), r, c, CellState::Empty)
        && b.last_erase_time is Some && b == (App {
        board: b.board,
        last_erase_time: b.last_erase_time,
        ..m
    })
}

/// `b` is `a` with every cell of the board emptied.
pub open spec fn board_reset(a: App, b: App) -> bool {
    &&& b.cells() == blank_board(a.puzzle().rows, a.puzzle().cols)
    &&& b == (App { board: b.board, ..a })
}

/// `a` with the menu selection on the previous puzzle entry, if any.
pub open spec fn menu_moved_up(a: App) -> App {
    App {
        menu_selection: match entry_before(a.menu(), a.menu_selection as int) {
            Some(j) => j as usize,
            None => a.menu_selection,
        },
        ..a
    }
}

/// `a` with the menu selection on the next puzzle entry, if any.
pub open spec fn menu_moved_down(a: App) -> App {
    App {
        menu_selection: match entry_after(a.menu(), a.menu_selection as int) {
            Some(j) => j as usize,
            None => a.menu_selection,
        },
        ..a
    }
}

/// The puzzle after the current one, the first after the last.
pub open spec fn next_index(a: App) -> usize {
    ((a.current_puzzle_index + 1) % (a.puzzles@.len() as int)) as usize
}

/// The time of a solve, in milliseconds: the whole milliseconds of the
/// stopped clock, cut to `u64`.
pub open spec fn solve_ms(b: App) -> u64 {
    millis_of(b.elapsed) as u64
}

/// `b` is `a` after the board was checked: unchanged where it does not
/// solve the puzzle; else the clock of the round stopped (`b.elapsed`, read
/// from the clock where the round has a start), the puzzle solved, and the
/// whole milliseconds of `b.elapsed`, cut to `u64`, recorded as its best time
/// where they beat the best so far (`improved`, which tells that the best
/// times changed).
pub open spec fn solve_checked(a: App, b: App, improved: bool) -> bool {
    if !board_solves(a.puzzle(), a.cells()) {
        b == a && !improved
    } else {
        &&& improved == improves(a.best_times@, a.puzzle().name, solve_ms(b))
        &&& b.best_times@ == (if improved {
            a.best_times@.insert(a.puzzle().name, solve_ms(b))
        } else {
            a.best_times@
        })
        &&& b.solved_puzzles@ == a.solved_puzzles@.insert(a.current_puzzle_index)
        &&& a.start_time is None ==> b.elapsed == a.elapsed
        &&& b == (App {
            state: AppState::Solved,
            solved_puzzles: b.solved_puzzles,
            best_times: b.best_times,
            elapsed: b.elapsed,
            ..a
        })
    }
}

/// `a` is the game at its start screen, with best times `times`: the first
/// puzzle current, no board, the cursor at the top left, no clock and no
/// time elapsed, nothing held, the menu of its puzzles with the selection on
/// the first entry, and as solved each puzzle with a best time.
pub open spec fn opening(a: App, times: Map<Seq<char>, u64>) -> bool {
    &&& a.state == AppState::Splash
    &&& a.current_puzzle_index == 0
    &&& a.cells().len() == 0
    &&& a.cursor_row == 0
    &&& a.cursor_col == 0
    &&& a.start_time is None
    &&& a.elapsed == seconds(0)
    &&& a.last_fill_time is None
    &&& a.last_cross_time is None
    &&& a.last_erase_time is None
    &&& a.menu() == menu_spec(sizes_of(a.puzzles@))
    &&& a.menu_selection < a.menu().len()
    &&& a.menu()[a.menu_selection as int] is PuzzleEntry
    &&& forall|j: int| 0 <= j < a.menu_selection ==> !(#[trigger] a.menu()[j] is PuzzleEntry)
    &&& a.solved_puzzles@ == Set::new(
        |i: usize| i < a.puzzles@.len() && times.contains_key(a.puzzles@[i as int].name@),
    )
    &&& a.best_times@ == times
}

/// `x` brought into `lo..=hi`.
pub open spec fn clamp(x: int, lo: int, hi: int) -> int {
    if x < lo {
        lo
    } else if x > hi {
        hi
    } else {
        x
    }
}

/// The game `a` with its cursor moved by `dr` rows and `dc` columns and
/// kept on the board of the current puzzle.
pub open spec fn cursor_moved(a: App, dr: i32, dc: i32) -> App {
    App {
        cursor_row: clamp(a.cursor_row + dr, 0, a.puzzle().rows - 1) as usize,
        cursor_col: clamp(a.cursor_col + dc, 0, a.puzzle().cols - 1) as usize,
        ..a
    }
}

/// The cursor of `a` can be moved: a current puzzle, with a size and a
/// cursor position that `i32` holds.
pub open spec fn can_move(a: App) -> bool {
    &&& a.current_puzzle_index < a.puzzles@.len()
    &&& 1 <= a.puzzle().rows <= i32::MAX
    &&& 1 <= a.puzzle().cols <= i32::MAX
    &&& a.cursor_row <= i32::MAX
    &&& a.cursor_col <= i32::MAX
}

/// The name under which a puzzle shows in the game: its own once solved,
/// else `Puzzle <number>`, counting from 1.
pub open spec fn display_name(a: App, index: usize) -> Seq<char> {
    if a.solved_puzzles@.contains(index) {
        a.puzzles@[index as int].name@
    } else {
        "Puzzle "@ + decimal((index + 1) as nat)
    }
}

impl App {
    /// Moves the cursor by `dr` rows and `dc` columns, stopping at the edges
    /// of the board.
    pub fn move_cursor(&mut self, dr: i32, dc: i32)
        requires
            can_move(*old(self)),
        ensures
            *final(self) == cursor_moved(*old(self), dr, dc),
            old(self).wf() ==> final(self).wf(),
    {
        let p = &self.puzzles[self.current_puzzle_index];
        let max_row = p.rows as i64 - 1;
        let max_col = p.cols as i64 - 1;
        let r = self.cursor_row as i64 + dr as i64;
        let c = self.cursor_col as i64 + dc as i64;
        let r = if r < 0 {
            0
        } else if r > max_row {
            max_row
        } else {
            r
        };
        let c = if c < 0 {
            0
        } else if c > max_col {
            max_col
        } else {
            c
        };
        self.cursor_row = r as usize;
        self.cursor_col = c as usize;
    }

    /// After a move: fills the cell under the cursor where the fill is still
    /// held (`fill_held`), else crosses it out where the cross is
    /// (`cross_held`), else empties it where the erase is (`erase_held`), and
    /// renews that hold at `now`.
    pub fn paint_held(
        &mut self,
        now: Instant,
        fill_held: bool,
        cross_held: bool,
        erase_held: bool,
    )
        requires
            old(self).cursor_row < old(self).board@.len(),
            old(self).cursor_col < old(self).board@[old(self).cursor_row as int]@.len(),
        ensures
            fill_held ==> final(self).cells() == board_set(
                old(self).cells(),
                old(self).cursor_row as int,
                old(self).cursor_col as int,
                CellState::Filled,
            ) && *final(self) == (App {
                board: final(self).board,
                last_fill_time: Some(now),
                ..*old(self)
            }),
            !fill_held && cross_held ==> final(self).cells() == board_set(
                old(self).cells(),
                old(self).cursor_row as int,
                old(self).cursor_col as int,
                CellState::Crossed,
            ) && *final(self) == (App {
                board: final(self).board,
                last_cross_time: Some(now),
                ..*old(self)
            }),
            !fill_held && !cross_held && erase_held ==> final(self).cells() == board_set(
                old(self).cells(),
                old(self).cursor_row as int,
                old(self).cursor_col as int,
                CellState::Empty,
            ) && *final(self) == (App {
                board: final(self).board,
                last_erase_time: Some(now),
                ..*old(self)
            }),
            !fill_held && !cross_held && !erase_held ==> *final(self) == *old(self),
            old(self).wf() ==> final(self).wf(),
    {
        if fill_held {
            put(&mut self.board, self.cursor_row, self.cursor_col, CellState::Filled);
            self.last_fill_time = Some(now);
        } else if cross_held {
            put(&mut self.board, self.cursor_row, self.cursor_col, CellState::Crossed);
            self.last_cross_time = Some(now);
        } else if erase_held {
            put(&mut self.board, self.cursor_row, self.cursor_col, CellState::Empty);
            self.last_erase_time = Some(now);
        }
    }

    /// Moves the cursor, then paints the cell it lands on where the fill, the
    /// cross or the erase is still held: where the last fill (else the last
    /// cross, else the last erase) was less than `HOLD_MS` ago, as the clock
    /// tells.
    pub fn move_and_apply(&mut self, dr: i32, dc: i32)
        requires
            can_move(*old(self)),
            board_fits(old(self).cells(), old(self).puzzle().rows, old(self).puzzle().cols),
        ensures
            moved_and_painted(*old(self), *final(self), dr, dc),
            old(self).wf() ==> final(self).wf(),
    {
        self.move_cursor(dr, dc);
        proof {
            let cells = old(self).cells();
            assert(cells[self.cursor_row as int].len() == old(self).puzzle().cols);
            assert(cells[self.cursor_row as int] == self.board@[self.cursor_row as int]@);
        }
        let now = clock_now();
        let fill_held = match &self.last_fill_time {
            Some(t) => whole_millis(&time_between(&now, t)) < HOLD_MS,
            None => false,
        };
        let cross_held = match &self.last_cross_time {
            Some(t) => whole_millis(&time_between(&now, t)) < HOLD_MS,
            None => false,
        };
        let erase_held = match &self.last_erase_time {
            Some(t) => whole_millis(&time_between(&now, t)) < HOLD_MS,
            None => false,
        };
        self.paint_held(now, fill_held, cross_held, erase_held);
    }

    /// Empties every cell of the board.
    pub fn reset_board(&mut self)
        requires
            old(self).current_puzzle_index < old(self).puzzles@.len(),
        ensures
            board_reset(*old(self), *final(self)),
            old(self).wf() ==> final(self).wf(),
    {
        let p = &self.puzzles[self.current_puzzle_index];
        self.board = blank(p.rows, p.cols);
    }

    /// The time on the clock of the round: since its start (a reading of the
    /// clock, of which nothing more is stated), or no time at all before a
    /// puzzle is started.
    pub fn live_elapsed(&self) -> (d: Duration)
        ensures
            self.start_time is None ==> d == seconds(0),
    {
        match &self.start_time {
            Some(s) => time_since(s),
            None => duration_of_secs(0),
        }
    }

    /// The time that the screen shows for the round: frozen at the time
    /// recorded when the puzzle was solved, else the running clock (see
    /// `live_elapsed`).
    pub fn shown_elapsed(&self) -> (d: Duration)
        ensures
            self.state == AppState::Solved ==> d == self.elapsed,
            self.state != AppState::Solved && self.start_time is None ==> d == seconds(0),
    {
        if self.state == AppState::Solved {
            self.elapsed
        } else {
            self.live_elapsed()
        }
    }

    /// The best time of puzzle `index`, in milliseconds, if it has one.
    pub fn best_time_ms(&self, index: usize) -> (t: Option<u64>)
        requires
            index < self.puzzles@.len(),
        ensures
            t == (if self.best_times@.contains_key(self.puzzles@[index as int]@.name) {
                Some(self.best_times@[self.puzzles@[index as int]@.name])
            } else {
                None
            }),
    {
        self.best_times.get(self.puzzles[index].name.as_str())
    }

    /// The name under which puzzle `index` shows: its own once solved, else
    /// `Puzzle <index + 1>`.
    pub fn puzzle_display_name(&self, index: usize) -> (name: String)
        requires
            self.solved_puzzles@.contains(index) ==> index < self.puzzles@.len(),
            !self.solved_puzzles@.contains(index) ==> index < usize::MAX,
        ensures
            name@ == display_name(*self, index),
    {
        if self.solved_puzzles.contains(&index) {
            self.puzzles[index].name.clone()
        } else {
            let mut name = String::new();
            let word = chars_of("Puzzle ");
            push_chars(&mut name, word.as_slice());
            push_decimal(&mut name, index + 1);
            proof {
                assert(name@ =~= "Puzzle "@ + decimal((index + 1) as nat));
            }
            name
        }
    }

    /// Moves the menu selection up to the previous puzzle entry, if any.
    pub fn menu_up(&mut self)
        requires
            old(self).menu_selection <= old(self).menu_items@.len(),
        ensures
            *final(self) == menu_moved_up(*old(self)),
            old(self).wf() ==> final(self).wf(),
    {
        proof {
            lemma_entry_before(self.menu(), self.menu_selection as int);
        }
        if self.menu_selection == 0 {
            return;
        }
        let mut prev = self.menu_selection - 1;
        loop
            invariant
                *self == *old(self),
                self.menu_selection <= self.menu_items@.len(),
                prev < self.menu_selection,
                entry_before(self.menu(), self.menu_selection as int) == entry_before(
                    self.menu(),
                    prev + 1,
                ),
            decreases prev,
        {
            if let MenuItem::PuzzleEntry(_) = self.menu_items[prev] {
                proof {
                    assert(self.menu()[prev as int] is PuzzleEntry);
                }
                self.menu_selection = prev;
                return;
            }
            proof {
                assert(!(self.menu()[prev as int] is PuzzleEntry));
            }
            if prev == 0 {
                proof {
                    assert(entry_before(self.menu(), 0) is None);
                    assert(entry_before(self.menu(), 1) is None);
                }
                return;
            }
            prev = prev - 1;
        }
    }

    /// Moves the menu selection down to the next puzzle entry, if any.
    pub fn menu_down(&mut self)
        requires
            old(self).menu_selection < usize::MAX,
        ensures
            *final(self) == menu_moved_down(*old(self)),
            old(self).wf() ==> final(self).wf(),
    {
        proof {
            lemma_entry_after(self.menu(), self.menu_selection as int);
        }
        let mut next = self.menu_selection + 1;
        while next < self.menu_items.len()
            invariant
                *self == *old(self),
                self.menu_selection < next,
                next <= self.menu_items@.len() || next == self.menu_selection + 1,
                entry_after(self.menu(), self.menu_selection as int) == entry_after(
                    self.menu(),
                    next - 1,
                ),
            decreases self.menu_items@.len() - next,
        {
            if let MenuItem::PuzzleEntry(_) = self.menu_items[next] {
                proof {
                    assert(self.menu()[next as int] is PuzzleEntry);
                }
                self.menu_selection = next;
                return;
            }
            proof {
                assert(!(self.menu()[next as int] is PuzzleEntry));
            }
            next = next + 1;
        }
    }

    /// Starts the puzzle after the current one, the first after the last.
    pub fn next_puzzle(&mut self)
        requires
            old(self).puzzles@.len() > 0,
            old(self).current_puzzle_index < usize::MAX,
        ensures
            started(*old(self), *final(self), next_index(*old(self))),
            old(self).wf() ==> final(self).wf(),
    {
        let next = (self.current_puzzle_index + 1) % self.puzzles.len();
        self.load_puzzle(next);
    }
}

/// Column `c` of board `b`, over its first `h` rows.
pub open spec fn board_column(b: Seq<Seq<CellState>>, c: int, h: nat) -> Seq<CellState> {
    Seq::new(h, |r: int| b[r][c])
}

/// Board `b` solves puzzle `p`: where the picture is known, the filled
/// cells are exactly those of the picture; where it is not, the filled
/// cells of every row and column make its clue.
pub open spec fn board_solves(p: PuzzleView, b: Seq<Seq<CellState>>) -> bool {
    match p.solution {
        Some(s) => forall|r: int, c: int|
            0 <= r < p.rows && 0 <= c < p.cols ==> s[r][c] == (#[trigger] b[r][c]
                == CellState::Filled),
        None => {
            &&& forall|r: int|
                0 <= r < p.rows ==> clue_of(filled_cells(#[trigger] b[r])) == p.row_clues[r]
            &&& forall|c: int|
                0 <= c < p.cols ==> clue_of(filled_cells(#[trigger] board_column(b, c, p.rows)))
                    == p.col_clues[c]
        },
    }
}

/// A time of `ms` milliseconds beats the best time of `name` in `times`:
/// there is none yet, or it is longer.
pub open spec fn improves(times: Map<Seq<char>, u64>, name: Seq<char>, ms: u64) -> bool {
    !times.contains_key(name) || ms < times[name]
}

/// Whether `board` solves `p`.
fn board_matches(p: &Puzzle, board: &Vec<Vec<CellState>>) -> (ok: bool)
    requires
        checkable(p@),
        board_fits(board_view(board@), p@.rows, p@.cols),
    ensures
        ok == board_solves(p@, board_view(board@)),
{
    let ghost b = board_view(board@);
    match &p.solution {
        Some(sol) => {
            let ghost s = p@.solution->0;
            let mut r: usize = 0;
            while r < p.rows
                invariant
                    r <= p.rows,
                    checkable(p@),
                    p@.solution == Some(s),
                    b == board_view(board@),
                    board_fits(b, p@.rows, p@.cols),
                    s == crate::puzzle::bool_rows(sol@),
                    forall|q: int, c: int|
                        0 <= q < r && 0 <= c < p.cols ==> s[q][c] == (#[trigger] b[q][c]
                            == CellState::Filled),
                decreases p.rows - r,
            {
                let mut c: usize = 0;
                while c < p.cols
                    invariant
                        r < p.rows,
                        c <= p.cols,
                        checkable(p@),
                        p@.solution == Some(s),
                        b == board_view(board@),
                        board_fits(b, p@.rows, p@.cols),
                        s == crate::puzzle::bool_rows(sol@),
                        forall|q: int, k: int|
                            0 <= q < r && 0 <= k < p.cols ==> s[q][k] == (#[trigger] b[q][k]
                                == CellState::Filled),
                        forall|k: int|
                            0 <= k < c ==> s[r as int][k] == (#[trigger] b[r as int][k]
                                == CellState::Filled),
                    decreases p.cols - c,
                {
                    proof {
                        assert(s[r as int] == sol@[r as int]@);
                        assert(b[r as int] == board@[r as int]@);
                    }
                    if sol[r][c] != (board[r][c] == CellState::Filled) {
                        proof {
                            assert(!(s[r as int][c as int] == (b[r as int][c as int]
                                == CellState::Filled)));
                        }
                        return false;
                    }
                    c = c + 1;
                }
                r = r + 1;
            }
            true
        },
        None => {
            let mut r: usize = 0;
            while r < p.rows
                invariant
                    r <= p.rows,
                    checkable(p@),
                    p@.solution is None,
                    b == board_view(board@),
                    board_fits(b, p@.rows, p@.cols),
                    forall|q: int|
                        0 <= q < r ==> clue_of(filled_cells(#[trigger] b[q])) == p@.row_clues[q],
                decreases p.rows - r,
            {
                proof {
                    assert(b[r as int] == board@[r as int]@);
                    assert(p@.row_clues[r as int] == p.row_clues@[r as int]@);
                }
                if !clue_satisfied(board[r].as_slice(), p.row_clues[r].as_slice()) {
                    return false;
                }
                r = r + 1;
            }
            let mut c: usize = 0;
            while c < p.cols
                invariant
                    c <= p.cols,
                    checkable(p@),
                    p@.solution is None,
                    b == board_view(board@),
                    board_fits(b, p@.rows, p@.cols),
                    forall|q: int|
                        0 <= q < p.rows ==> clue_of(filled_cells(#[trigger] b[q])) == p@.row_clues[q],
                    forall|k: int|
                        0 <= k < c ==> clue_of(filled_cells(#[trigger] board_column(b, k, p@.rows)))
                            == p@.col_clues[k],
                decreases p.cols - c,
            {
                let mut col: Vec<CellState> = Vec::new();
                let mut r: usize = 0;
                while r < p.rows
                    invariant
                        r <= p.rows,
                        c < p.cols,
                        b == board_view(board@),
                        board_fits(b, p@.rows, p@.cols),
                        col@ == board_column(b, c as int, r as nat),
                    decreases p.rows - r,
                {
                    proof {
                        assert(b[r as int] == board@[r as int]@);
                    }
                    col.push(board[r][c]);
                    proof {
                        assert(col@ =~= board_column(b, c as int, (r + 1) as nat));
                    }
                    r = r + 1;
                }
                proof {
                    assert(p@.col_clues[c as int] == p.col_clues@[c as int]@);
                }
                if !clue_satisfied(col.as_slice(), p.col_clues[c].as_slice()) {
                    return false;
                }
                c = c + 1;
            }
            true
        },
    }
}

impl App {
    /// Marks the current puzzle solved, at a time of `ms` milliseconds: it
    /// joins the solved puzzles, the time becomes its best where it beats
    /// the best so far, and the game shows it solved.  Tells whether the
    /// best times changed, which is when they are to be saved.
    pub fn record_solve(&mut self, ms: u64) -> (improved: bool)
        requires
            old(self).current_puzzle_index < old(self).puzzles@.len(),
        ensures
            improved == improves(old(self).best_times@, old(self).puzzle().name, ms),
            final(self).best_times@ == (if improved {
                old(self).best_times@.insert(old(self).puzzle().name, ms)
            } else {
                old(self).best_times@
            }),
            final(self).solved_puzzles@ == old(self).solved_puzzles@.insert(
                old(self).current_puzzle_index,
            ),
            *final(self) == (App {
                state: AppState::Solved,
                solved_puzzles: final(self).solved_puzzles,
                best_times: final(self).best_times,
                ..*old(self)
            }),
    {
        self.solved_puzzles.insert(self.current_puzzle_index);
        let name = self.puzzles[self.current_puzzle_index].name.as_str();
        let improved = match self.best_times.get(name) {
            Some(prev) => ms < prev,
            None => true,
        };
        if improved {
            self.best_times.insert(name, ms);
        }
        self.state = AppState::Solved;
        improved
    }

    /// Whether the board solves the current puzzle; where it does, stops the
    /// clock of the round and records the solve with the time on it (see
    /// `record_solve`).  Tells whether the best times changed, which is when
    /// they are to be saved.
    pub fn check_solved(&mut self) -> (improved: bool)
        requires
            old(self).current_puzzle_index < old(self).puzzles@.len(),
            checkable(old(self).puzzle()),
            board_fits(old(self).cells(), old(self).puzzle().rows, old(self).puzzle().cols),
        ensures
            solve_checked(*old(self), *final(self), improved),
            old(self).wf() && (old(self).state == AppState::Playing || old(self).state
                == AppState::Solved) ==> final(self).wf(),
    {
        if !board_matches(&self.puzzles[self.current_puzzle_index], &self.board) {
            return false;
        }
        if let Some(start) = &self.start_time {
            self.elapsed = time_since(start);
        }
        let ms = #[verifier::truncate] (whole_millis(&self.elapsed) as u64);
        self.record_solve(ms)
    }
}

/// A recorded time never makes a best time worse: after a solve in `ms`
/// milliseconds, the puzzle has a best time, no longer than `ms` and no
/// longer than the one it had.
pub proof fn lemma_best_time_never_worse(times: Map<Seq<char>, u64>, name: Seq<char>, ms: u64)
    ensures
        ({
            let after = if improves(times, name, ms) {
                times.insert(name, ms)
            } else {
                times
            };
            &&& after.contains_key(name)
            &&& after[name] <= ms
            &&& times.contains_key(name) ==> after[name] <= times[name]
            &&& forall|k: Seq<char>| k != name ==> #[trigger] after.contains_key(k) == times.contains_key(k)
                && after[k] == times[k]
        }),
{
}

/// Wherever the cursor is moved, it lands on the board.
pub proof fn lemma_cursor_stays_on_board(a: App, dr: i32, dc: i32)
    requires
        can_move(a),
    ensures
        cursor_moved(a, dr, dc).cursor_row < a.puzzle().rows,
        cursor_moved(a, dr, dc).cursor_col < a.puzzle().cols,
{
}

/// A board that solves a puzzle made from a picture meets every clue of
/// it: the filled cells of each row and column make that line's clue.
pub proof fn lemma_solved_board_meets_clues(name: Seq<char>, s: Seq<Seq<bool>>, b: Seq<Seq<CellState>>)
    requires
        s.len() > 0,
        crate::puzzle::rectangular(s, s.len(), s[0].len()),
        board_fits(b, s.len(), s[0].len()),
        board_solves(crate::puzzle::picture_puzzle(name, s), b),
    ensures
        ({
            let p = crate::puzzle::picture_puzzle(name, s);
            &&& forall|r: int| 0 <= r < p.rows ==> clue_of(filled_cells(#[trigger] b[r])) == p.row_clues[r]
            &&& forall|c: int|
                0 <= c < p.cols ==> clue_of(filled_cells(#[trigger] board_column(b, c, p.rows)))
                    == p.col_clues[c]
        }),
{
    let p = crate::puzzle::picture_puzzle(name, s);
    assert forall|r: int| 0 <= r < p.rows implies clue_of(filled_cells(#[trigger] b[r]))
        == p.row_clues[r] by {
        assert forall|c: int| 0 <= c < s[r].len() implies filled_cells(b[r])[c] == s[r][c] by {
            assert(s[r][c] == (b[r][c] == CellState::Filled));
        }
        assert(filled_cells(b[r]) =~= s[r]);
    }
    assert forall|c: int| 0 <= c < p.cols implies clue_of(
        filled_cells(#[trigger] board_column(b, c, p.rows)),
    ) == p.col_clues[c] by {
        let col = crate::puzzle::column(s, c, p.rows as int);
        assert forall|r: int| 0 <= r < p.rows implies filled_cells(board_column(b, c, p.rows))[r]
            == col[r] by {
            assert(s[r][c] == (b[r][c] == CellState::Filled));
        }
        assert(filled_cells(board_column(b, c, p.rows)) =~= col);
    }
}

} // verus!
