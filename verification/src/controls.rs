//! The controls: which key does what on which screen, and the game's answer
//! to a key.
use vstd::prelude::*;

use crate::app::{
    board_fits, board_reset, can_move, cross_toggled, cursor_moved, erased, filled, menu_moved_down,
    menu_moved_up, moved_and_painted, next_index, playable, solve_checked, started, App, AppState,
};
use crate::menu::{lemma_menu_spec, sizes_of, MenuItem, MenuLine};
use crate::puzzle::Puzzle;

verus! {

/// A key as the game reads it.
#[derive(Clone, Copy, PartialEq, Eq, Structural, Debug)]
pub enum Key {
    Up,
    Down,
    Left,
    Right,
    ShiftUp,
    ShiftDown,
    ShiftLeft,
    ShiftRight,
    Enter,
    Esc,
    Char(char),
    Other,
}

/// What a key asks of the game.
#[derive(Clone, Copy, PartialEq, Eq, Structural, Debug)]
pub enum Command {
    /// Nothing.
    Nothing,
    /// Go to another screen.
    Show(AppState),
    /// Select the previous puzzle in the menu.
    MenuUp,
    /// Select the next puzzle in the menu.
    MenuDown,
    /// Start the selected puzzle.
    PlaySelected,
    /// Move the cursor by one cell, painting while a fill or cross is held.
    Step(i32, i32),
    /// Move the cursor by five cells.
    Jump(i32, i32),
    /// Put the cursor on the first row.
    FirstRow,
    /// Put the cursor on the last row.
    LastRow,
    /// Put the cursor on the first column.
    FirstColumn,
    /// Put the cursor on the last column.
    LastColumn,
    /// Fill the cell under the cursor, then see whether the puzzle is solved.
    Fill,
    /// Empty the cell under the cursor.
    Erase,
    /// Cross out the cell under the cursor, or clear its cross.
    Cross,
    /// Empty the whole board.
    Reset,
    /// Start the next puzzle.
    NextPuzzle,
}

/// The controls: on the start screen any key opens the menu; in the menu
/// `↑`/`k` and `↓`/`j` move, `Enter`/`Space` plays and `q` quits; while
/// playing the arrows and `hjkl` move one cell, with `Shift` or as `HJKL`
/// five, `g`/`G` go to the first and last row, `0`/`$` to the first and last
/// column, `Space` fills, `e`/`E` erases, `x`/`X` crosses out, `r` resets,
/// `Esc` goes back to the menu and `q` quits; once solved, `n` plays the
/// next puzzle, `Esc` goes back to the menu and `q` quits.
pub open spec fn key_command(state: AppState, key: Key) -> Command {
    match state {
        AppState::Splash => Command::Show(AppState::Menu),
        AppState::Menu => match key {
            Key::Char('q') => Command::Show(AppState::Quit),
            Key::Up | Key::Char('k') => Command::MenuUp,
            Key::Down | Key::Char('j') => Command::MenuDown,
            Key::Enter | Key::Char(' ') => Command::PlaySelected,
            _ => Command::Nothing,
        },
        AppState::Playing => match key {
            Key::Char('q') => Command::Show(AppState::Quit),
            Key::Esc => Command::Show(AppState::Menu),
            Key::Up | Key::Char('k') => Command::Step(-1i32, 0),
            Key::Down | Key::Char('j') => Command::Step(1, 0),
            Key::Left | Key::Char('h') => Command::Step(0, -1i32),
            Key::Right | Key::Char('l') => Command::Step(0, 1),
            Key::ShiftUp | Key::Char('K') => Command::Jump(-5i32, 0),
            Key::ShiftDown | Key::Char('J') => Command::Jump(5, 0),
            Key::ShiftLeft | Key::Char('H') => Command::Jump(0, -5i32),
            Key::ShiftRight | Key::Char('L') => Command::Jump(0, 5),
            Key::Char('g') => Command::FirstRow,
            Key::Char('G') => Command::LastRow,
            Key::Char('0') => Command::FirstColumn,
            Key::Char('$') => Command::LastColumn,
            Key::Char(' ') => Command::Fill,
            Key::Char('e') | Key::Char('E') => Command::Erase,
            Key::Char('x') | Key::Char('X') => Command::Cross,
            Key::Char('r') => Command::Reset,
            _ => Command::Nothing,
        },
        AppState::Solved => match key {
            Key::Char('q') => Command::Show(AppState::Quit),
            Key::Esc => Command::Show(AppState::Menu),
            Key::Char('n') => Command::NextPuzzle,
            _ => Command::Nothing,
        },
        AppState::Quit => Command::Nothing,
    }
}

/// What key `key` asks of the game on screen `state`.
pub fn command_for(state: AppState, key: Key) -> (c: Command)
    ensures
        c == key_command(state, key),
{
    match state {
        AppState::Splash => Command::Show(AppState::Menu),
        AppState::Menu => match key {
            Key::Char('q') => Command::Show(AppState::Quit),
            Key::Up | Key::Char('k') => Command::MenuUp,
            Key::Down | Key::Char('j') => Command::MenuDown,
            Key::Enter | Key::Char(' ') => Command::PlaySelected,
            _ => Command::Nothing,
        },
        AppState::Playing => match key {
            Key::Char('q') => Command::Show(AppState::Quit),
            Key::Esc => Command::Show(AppState::Menu),
            Key::Up | Key::Char('k') => Command::Step(-1, 0),
            Key::Down | Key::Char('j') => Command::Step(1, 0),
            Key::Left | Key::Char('h') => Command::Step(0, -1),
            Key::Right | Key::Char('l') => Command::Step(0, 1),
            Key::ShiftUp | Key::Char('K') => Command::Jump(-5, 0),
            Key::ShiftDown | Key::Char('J') => Command::Jump(5, 0),
            Key::ShiftLeft | Key::Char('H') => Command::Jump(0, -5),
            Key::ShiftRight | Key::Char('L') => Command::Jump(0, 5),
            Key::Char('g') => Command::FirstRow,
            Key::Char('G') => Command::LastRow,
            Key::Char('0') => Command::FirstColumn,
            Key::Char('$') => Command::LastColumn,
            Key::Char(' ') => Command::Fill,
            Key::Char('e') | Key::Char('E') => Command::Erase,
            Key::Char('x') | Key::Char('X') => Command::Cross,
            Key::Char('r') => Command::Reset,
            _ => Command::Nothing,
        },
        AppState::Solved => match key {
            Key::Char('q') => Command::Show(AppState::Quit),
            Key::Esc => Command::Show(AppState::Menu),
            Key::Char('n') => Command::NextPuzzle,
            _ => Command::Nothing,
        },
        AppState::Quit => Command::Nothing,
    }
}

/// `b` is the game `a` after command `cmd`; `save` tells whether the best
/// times changed.
pub open spec fn command_done(a: App, b: App, cmd: Command, save: bool) -> bool {
    match cmd {
        Command::Nothing => b == a && !save,
        Command::Show(st) => b == (App { state: st, ..a }) && !save,
        Command::MenuUp => b == menu_moved_up(a) && !save,
        Command::MenuDown => b == menu_moved_down(a) && !save,
        Command::PlaySelected => !save && match a.menu()[a.menu_selection as int] {
            MenuLine::PuzzleEntry(i) => started(a, b, i),
            MenuLine::Header(_) => b == a,
        },
        Command::Step(dr, dc) => moved_and_painted(a, b, dr, dc) && !save,
        Command::Jump(dr, dc) => b == cursor_moved(a, dr, dc) && !save,
        Command::FirstRow => b == (App { cursor_row: 0, ..a }) && !save,
        Command::LastRow => b == (App { cursor_row: (a.puzzle().rows - 1) as usize, ..a }) && !save,
        Command::FirstColumn => b == (App { cursor_col: 0, ..a }) && !save,
        Command::LastColumn => b == (App { cursor_col: (a.puzzle().cols - 1) as usize, ..a })
            && !save,
        Command::Fill => exists|m: App| filled(a, m) && solve_checked(m, b, save),
        Command::Erase => erased(a, b) && !save,
        Command::Cross => cross_toggled(a, b) && !save,
        Command::Reset => board_reset(a, b) && !save,
        Command::NextPuzzle => started(a, b, next_index(a)) && !save,
    }
}

/// While playing, each direction key moves the cursor its own way: the
/// left arrow or `h` one column left, the right arrow or `l` one column
/// right, the up arrow or `k` one row up, the down arrow or `j` one row down,
/// and with `Shift` (or as `H`, `L`, `K`, `J`) five, stopping at the edge of
/// the board; the other coordinate stays.
pub proof fn lemma_direction_keys(a: App, b: App, key: Key, save: bool)
    requires
        a.state == AppState::Playing,
        a.cursor_row < a.puzzle().rows,
        a.cursor_col < a.puzzle().cols,
        command_done(a, b, key_command(a.state, key), save),
    ensures
        key == Key::Left || key == Key::Char('h') ==> b.cursor_row == a.cursor_row && b.cursor_col
            == (if a.cursor_col >= 1 {
            a.cursor_col - 1
        } else {
            0
        }),
        key == Key::Right || key == Key::Char('l') ==> b.cursor_row == a.cursor_row && b.cursor_col
            == (if a.cursor_col + 1 < a.puzzle().cols {
            a.cursor_col + 1
        } else {
            a.cursor_col as int
        }),
        key == Key::Up || key == Key::Char('k') ==> b.cursor_col == a.cursor_col && b.cursor_row
            == (if a.cursor_row >= 1 {
            a.cursor_row - 1
        } else {
            0
        }),
        key == Key::Down || key == Key::Char('j') ==> b.cursor_col == a.cursor_col && b.cursor_row
            == (if a.cursor_row + 1 < a.puzzle().rows {
            a.cursor_row + 1
        } else {
            a.cursor_row as int
        }),
        key == Key::ShiftLeft || key == Key::Char('H') ==> b.cursor_row == a.cursor_row
            && b.cursor_col == (if a.cursor_col >= 5 {
            a.cursor_col - 5
        } else {
            0
        }),
        key == Key::ShiftRight || key == Key::Char('L') ==> b.cursor_row == a.cursor_row
            && b.cursor_col == (if a.cursor_col + 5 < a.puzzle().cols {
            a.cursor_col + 5
        } else {
            a.puzzle().cols - 1
        }),
        key == Key::ShiftUp || key == Key::Char('K') ==> b.cursor_col == a.cursor_col
            && b.cursor_row == (if a.cursor_row >= 5 {
            a.cursor_row - 5
        } else {
            0
        }),
        key == Key::ShiftDown || key == Key::Char('J') ==> b.cursor_col == a.cursor_col
            && b.cursor_row == (if a.cursor_row + 5 < a.puzzle().rows {
            a.cursor_row + 5
        } else {
            a.puzzle().rows - 1
        }),
{
}

/// Whether the game's cursor can be moved.
fn movable(app: &App) -> (ok: bool)
    ensures
        ok == can_move(*app),
{
    if app.current_puzzle_index >= app.puzzles.len() {
        return false;
    }
    let p = &app.puzzles[app.current_puzzle_index];
    1 <= p.rows && p.rows <= 2147483647 && 1 <= p.cols && p.cols <= 2147483647
        && app.cursor_row <= 2147483647 && app.cursor_col <= 2147483647
}

/// Whether the board has the size of the current puzzle.
fn board_in_shape(app: &App) -> (ok: bool)
    requires
        app.current_puzzle_index < app.puzzles@.len(),
    ensures
        ok == board_fits(app.cells(), app.puzzle().rows, app.puzzle().cols),
{
    let p = &app.puzzles[app.current_puzzle_index];
    if app.board.len() != p.rows {
        return false;
    }
    let mut r: usize = 0;
    while r < app.board.len()
        invariant
            r <= app.board@.len(),
            app.current_puzzle_index < app.puzzles@.len(),
            p@ == app.puzzle(),
            app.board@.len() == p.rows,
            forall|q: int| 0 <= q < r ==> #[trigger] app.cells()[q].len() == p.cols,
        decreases app.board@.len() - r,
    {
        proof {
            assert(app.cells()[r as int] == app.board@[r as int]@);
        }
        if app.board[r].len() != p.cols {
            return false;
        }
        r = r + 1;
    }
    true
}

/// Whether the game can show and play puzzle `p`.
pub fn is_playable(p: &Puzzle) -> (ok: bool)
    ensures
        ok == playable(p@),
{
    if !(1 <= p.rows && p.rows <= 2147483647 && 1 <= p.cols && p.cols <= 2147483647) {
        return false;
    }
    if p.row_clues.len() != p.rows || p.col_clues.len() != p.cols {
        return false;
    }
    match &p.solution {
        None => true,
        Some(sol) => {
            if sol.len() != p.rows {
                return false;
            }
            let ghost s = p@.solution->0;
            let mut r: usize = 0;
            while r < sol.len()
                invariant
                    r <= sol@.len(),
                    sol@.len() == p.rows,
                    p@.solution == Some(s),
                    s == crate::puzzle::bool_rows(sol@),
                    forall|q: int| 0 <= q < r ==> #[trigger] s[q].len() == p.cols,
                decreases sol@.len() - r,
            {
                proof {
                    assert(s[r as int] == sol@[r as int]@);
                }
                if sol[r].len() != p.cols {
                    proof {
                        assert(s[r as int].len() != p.cols);
                    }
                    return false;
                }
                r = r + 1;
            }
            true
        },
    }
}

/// Whether the cursor is on a cell of the board.
fn on_board(app: &App) -> (ok: bool)
    ensures
        ok == (app.cursor_row < app.board@.len() && app.cursor_col
            < app.board@[app.cursor_row as int]@.len()),
{
    app.cursor_row < app.board.len() && app.cursor_col < app.board[app.cursor_row].len()
}

impl App {
    /// The game's answer to key `key`: it does what the controls ask of
    /// that key on the current screen (see `key_command`).  Tells whether
    /// the best times changed, which is when they are to be saved.  Changing
    /// screens, and keys that ask nothing, need nothing of the game; what the
    /// other commands need (a board of the puzzle's size, the cursor on it)
    /// always holds of a consistent game, and where it does not, the key is
    /// passed over.
    pub fn handle_key(&mut self, key: Key) -> (save: bool)
        ensures
            key_command(old(self).state, key) matches Command::Show(st) ==> *final(self) == (App {
                state: st,
                ..*old(self)
            }) && !save,
            key_command(old(self).state, key) == Command::Nothing ==> *final(self) == *old(self)
                && !save,
            old(self).wf() ==> final(self).wf(),
            old(self).wf() ==> command_done(
                *old(self),
                *final(self),
                key_command(old(self).state, key),
                save,
            ),
    {
        let cmd = command_for(self.state, key);
        let ghost a = *self;
        proof {
            if a.wf() {
                if a.state == AppState::Playing || a.state == AppState::Solved {
                    assert(playable(a.puzzle()));
                }
            }
        }
        let save = match cmd {
            Command::Nothing => false,
            Command::Show(st) => {
                self.state = st;
                false
            },
            Command::MenuUp => {
                if self.menu_selection <= self.menu_items.len() {
                    self.menu_up();
                }
                false
            },
            Command::MenuDown => {
                if self.menu_selection < self.menu_items.len() {
                    self.menu_down();
                }
                false
            },
            Command::PlaySelected => {
                self.play_selected();
                false
            },
            Command::Step(dr, dc) => {
                if movable(self) && board_in_shape(self) {
                    self.move_and_apply(dr, dc);
                }
                false
            },
            Command::Jump(dr, dc) => {
                if movable(self) {
                    self.move_cursor(dr, dc);
                }
                false
            },
            Command::FirstRow => {
                self.cursor_row = 0;
                false
            },
            Command::LastRow => {
                if self.current_puzzle_index < self.puzzles.len() {
                    let rows = self.puzzles[self.current_puzzle_index].rows;
                    if rows > 0 {
                        self.cursor_row = rows - 1;
                    }
                }
                false
            },
            Command::FirstColumn => {
                self.cursor_col = 0;
                false
            },
            Command::LastColumn => {
                if self.current_puzzle_index < self.puzzles.len() {
                    let cols = self.puzzles[self.current_puzzle_index].cols;
                    if cols > 0 {
                        self.cursor_col = cols - 1;
                    }
                }
                false
            },
            Command::Fill => self.fill_and_check(),
            Command::Erase => {
                if on_board(self) {
                    self.erase_cell();
                }
                false
            },
            Command::Cross => {
                if on_board(self) {
                    self.toggle_cross();
                }
                false
            },
            Command::Reset => {
                if self.current_puzzle_index < self.puzzles.len() {
                    self.reset_board();
                }
                false
            },
            Command::NextPuzzle => {
                if self.puzzles.len() > 0 && self.current_puzzle_index < usize::MAX {
                    self.next_puzzle();
                }
                false
            },
        };
        save
    }

    /// Starts the puzzle whose entry is selected in the menu, if a puzzle
    /// entry is.
    fn play_selected(&mut self)
        ensures
            old(self).wf() ==> final(self).wf(),
            old(self).wf() ==> match old(self).menu()[old(self).menu_selection as int] {
                MenuLine::PuzzleEntry(i) => started(*old(self), *final(self), i),
                MenuLine::Header(_) => *final(self) == *old(self),
            },
    {
        if self.menu_selection < self.menu_items.len() {
            proof {
                if self.wf() {
                    lemma_menu_spec(sizes_of(self.puzzles@));
                    assert(self.menu()[self.menu_selection as int]
                        == self.menu_items@[self.menu_selection as int]@);
                }
            }
            if let MenuItem::PuzzleEntry(i) = self.menu_items[self.menu_selection] {
                if i < self.puzzles.len() {
                    self.load_puzzle(i);
                }
            }
        }
    }

    /// Fills the cell under the cursor, then sees whether the puzzle is
    /// solved.
    fn fill_and_check(&mut self) -> (save: bool)
        ensures
            old(self).wf() && old(self).state == AppState::Playing ==> final(self).wf(),
            old(self).wf() && old(self).state == AppState::Playing ==> exists|m: App|
                filled(*old(self), m) && solve_checked(m, *final(self), save),
    {
        let ghost a = *self;
        proof {
            if a.wf() && a.state == AppState::Playing {
                assert(a.cells()[a.cursor_row as int] == a.board@[a.cursor_row as int]@);
                assert(playable(a.puzzle()));
            }
        }
        if on_board(self) && self.current_puzzle_index < self.puzzles.len() {
            self.fill_cell();
            let ghost m = *self;
            proof {
                if a.wf() && a.state == AppState::Playing {
                    assert(m.puzzle() == a.puzzle());
                    assert forall|r: int| 0 <= r < m.puzzle().rows implies #[trigger] m.cells()[r].len()
                        == m.puzzle().cols by {
                        assert(a.cells()[r].len() == a.puzzle().cols);
                    }
                }
            }
            if is_playable(&self.puzzles[self.current_puzzle_index]) && board_in_shape(self) {
                let save = self.check_solved();
                proof {
                    assert(filled(a, m) && solve_checked(m, *self, save));
                }
                save
            } else {
                false
            }
        } else {
            false
        }
    }
}

} // verus!
