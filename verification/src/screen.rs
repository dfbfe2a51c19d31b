//! What the screens show: the lines of text of the menu, the board with its
//! clues and borders, and the headings, each piece of text with the paint
//! it is drawn in.
use vstd::prelude::*;

use crate::app::{board_column, display_name, App, AppState};
use crate::menu::{MenuItem, MenuLine};
use crate::puzzle::{clue_of, clue_satisfied, filled_cells, CellState, PuzzleView};
use crate::text::{chars_of, decimal, push_char, push_chars, push_decimal};

verus! {

/// How a piece of text is drawn.
#[derive(Clone, Copy, PartialEq, Eq, Structural, Debug)]
pub enum Paint {
    /// The terminal's own colours.
    Plain,
    /// The big title of the start screen.
    Logo,
    /// The line under the title.
    Tagline,
    /// The prompt to press a key.
    Prompt,
    /// A size heading of the menu.
    Heading,
    /// A solved puzzle in the menu.
    SolvedEntry,
    /// A puzzle not solved yet in the menu.
    OpenEntry,
    /// A clue that the board does not meet yet.
    Clue,
    /// A clue that the board meets.
    ClueMet,
    /// The line between the column clues and the board.
    Separator,
    /// The borders of the board.
    Border,
    /// An empty cell.
    EmptyCell,
    /// An empty cell under the cursor.
    EmptyCursor,
    /// A filled cell.
    FilledCell,
    /// A filled cell under the cursor.
    FilledCursor,
    /// A crossed-out cell.
    CrossedCell,
    /// A crossed-out cell under the cursor.
    CrossedCursor,
}

/// The views of pieces of painted text.
pub open spec fn pieces_view(v: Seq<(String, Paint)>) -> Seq<(Seq<char>, Paint)> {
    v.map_values(|s: (String, Paint)| (s.0@, s.1))
}

/// `n` spaces.
pub open spec fn spaces(n: nat) -> Seq<char> {
    Seq::new(n, |i: int| ' ')
}

/// `s` right-aligned in a field of width `w` (the `{:>w}` form).
pub open spec fn pad_left(s: Seq<char>, w: nat) -> Seq<char> {
    if s.len() < w {
        spaces((w - s.len()) as nat) + s
    } else {
        s
    }
}

fn push_literal(out: &mut String, lit: &str)
    ensures
        final(out)@ == old(out)@ + lit@,
{
    let cs = chars_of(lit);
    push_chars(out, cs.as_slice());
}

fn push_spaces(out: &mut String, n: usize)
    ensures
        final(out)@ == old(out)@ + spaces(n as nat),
{
    let ghost o = out@;
    let mut i: usize = 0;
    while i < n
        invariant
            i <= n,
            out@ == o + spaces(i as nat),
        decreases n - i,
    {
        push_char(out, ' ');
        proof {
            assert(o + spaces((i + 1) as nat) =~= (o + spaces(i as nat)).push(' '));
        }
        i = i + 1;
    }
}

/// A piece of text in one paint.
fn piece(text: &str, paint: Paint) -> (p: (String, Paint))
    ensures
        p.0@ == text@,
        p.1 == paint,
{
    (String::from_str(text), paint)
}

/// `n` spaces, unpainted.
fn blank_piece(n: usize) -> (p: (String, Paint))
    ensures
        p.0@ == spaces(n as nat),
        p.1 == Paint::Plain,
{
    let mut s = String::new();
    push_spaces(&mut s, n);
    proof {
        assert(s@ =~= spaces(n as nat));
    }
    (s, Paint::Plain)
}

// ── texts ────────────────────────────────────────────────────────────────────

/// The paint of line `i` of the start screen's art: the title on lines 1 to
/// 6, the tagline on line 8, the prompt on lines 11 to 13.
pub open spec fn splash_paint_spec(i: int) -> Paint {
    if 1 <= i <= 6 {
        Paint::Logo
    } else if i == 8 {
        Paint::Tagline
    } else if 11 <= i <= 13 {
        Paint::Prompt
    } else {
        Paint::Plain
    }
}

/// The paint of line `i` of the start screen's art.
pub fn splash_paint(i: usize) -> (p: Paint)
    ensures
        p == splash_paint_spec(i as int),
{
    if 1 <= i && i <= 6 {
        Paint::Logo
    } else if i == 8 {
        Paint::Tagline
    } else if 11 <= i && i <= 13 {
        Paint::Prompt
    } else {
        Paint::Plain
    }
}

/// Where content of length `content` starts when centred in the span of
/// length `len` from `start`: half the room left over after it, none where
/// it does not fit.
pub open spec fn centre_spec(start: u16, len: u16, content: u16) -> int {
    start + (if len > content {
        (len - content) / 2
    } else {
        0
    })
}

/// Where content of length `content` starts when centred in the span of
/// length `len` from `start`.
pub fn centre(start: u16, len: u16, content: u16) -> (pos: u16)
    requires
        centre_spec(start, len, content) <= u16::MAX,
    ensures
        pos == centre_spec(start, len, content),
{
    start + len.saturating_sub(content) / 2
}

/// The heading of the board screen: the game, the puzzle's name and the
/// time, between bars.
pub open spec fn playing_header_spec(name: Seq<char>, time: Seq<char>) -> Seq<char> {
    "PICROSSH   \u{2502}   "@ + name + "   \u{2502}   "@ + time
}

/// The heading of the board screen.
pub fn playing_header(name: &str, time: &str) -> (text: String)
    ensures
        text@ == playing_header_spec(name@, time@),
{
    let mut text = String::new();
    push_literal(&mut text, "PICROSSH   \u{2502}   ");
    push_literal(&mut text, name);
    push_literal(&mut text, "   \u{2502}   ");
    push_literal(&mut text, time);
    proof {
        assert(text@ =~= playing_header_spec(name@, time@));
    }
    text
}

/// The keys shown under the board: those of a solved puzzle, or those of
/// play.
pub open spec fn playing_footer_spec(state: AppState) -> Seq<char> {
    if state == AppState::Solved {
        "SOLVED!   Esc = menu   n = next   q = quit"@
    } else {
        "Space = fill   x = cross   r = reset   hjkl / arrows = move   g/G = top/bot   Esc = menu"@
    }
}

/// The keys shown under the board.
pub fn playing_footer(state: AppState) -> (text: String)
    ensures
        text@ == playing_footer_spec(state),
{
    if state == AppState::Solved {
        String::from_str("SOLVED!   Esc = menu   n = next   q = quit")
    } else {
        String::from_str(
            "Space = fill   x = cross   r = reset   hjkl / arrows = move   g/G = top/bot   Esc = menu",
        )
    }
}

/// The message over a solved board: the puzzle's name and the time.
pub open spec fn solved_message_spec(name: Seq<char>, time: Seq<char>) -> Seq<char> {
    "\n  \u{2726}  SOLVED!  \u{2726}\n\n  "@ + name + "\n\n  Time: "@ + time + "\n"@
}

/// The message over a solved board.
pub fn solved_message(name: &str, time: &str) -> (text: String)
    ensures
        text@ == solved_message_spec(name@, time@),
{
    let mut text = String::new();
    push_literal(&mut text, "\n  \u{2726}  SOLVED!  \u{2726}\n\n  ");
    push_literal(&mut text, name);
    push_literal(&mut text, "\n\n  Time: ");
    push_literal(&mut text, time);
    push_literal(&mut text, "\n");
    proof {
        assert(text@ =~= solved_message_spec(name@, time@));
    }
    text
}

/// The line of a menu entry: a tick before a solved puzzle, its name as the
/// game shows it, and its size.
pub open spec fn entry_text(a: App, i: usize) -> Seq<char> {
    let p = a.puzzles@[i as int]@;
    let size = " ("@ + decimal(p.rows) + seq!['\u{d7}'] + decimal(p.cols) + seq![')'];
    if a.solved_puzzles@.contains(i) {
        "  \u{2713} "@ + display_name(a, i) + size
    } else {
        "    "@ + display_name(a, i) + size
    }
}

/// The painted line of one menu line.
pub open spec fn menu_piece(a: App, m: MenuLine) -> (Seq<char>, Paint) {
    match m {
        MenuLine::Header(label) => ("  "@ + label, Paint::Heading),
        MenuLine::PuzzleEntry(i) => (
            entry_text(a, i),
            if a.solved_puzzles@.contains(i) {
                Paint::SolvedEntry
            } else {
                Paint::OpenEntry
            },
        ),
    }
}

/// Every entry of the menu names a puzzle of the game.
pub open spec fn entries_known(a: App) -> bool {
    forall|j: int|
        0 <= j < a.menu().len() && #[trigger] a.menu()[j] is PuzzleEntry ==> a.menu()[j]->PuzzleEntry_0
            < a.puzzles@.len()
}

/// The painted lines of the menu, one for each menu line.
pub fn menu_list(app: &App) -> (lines: Vec<(String, Paint)>)
    requires
        entries_known(*app),
    ensures
        pieces_view(lines@) == app.menu().map_values(|m: MenuLine| menu_piece(*app, m)),
{
    let mut lines: Vec<(String, Paint)> = Vec::new();
    let mut j: usize = 0;
    while j < app.menu_items.len()
        invariant
            j <= app.menu_items@.len(),
            entries_known(*app),
            pieces_view(lines@) == app.menu().take(j as int).map_values(
                |m: MenuLine| menu_piece(*app, m),
            ),
        decreases app.menu_items@.len() - j,
    {
        let ghost m = app.menu()[j as int];
        proof {
            assert(m == app.menu_items@[j as int]@);
        }
        let line = match &app.menu_items[j] {
            MenuItem::Header(label) => {
                let mut s = String::new();
                push_literal(&mut s, "  ");
                push_literal(&mut s, label.as_str());
                proof {
                    assert(s@ =~= "  "@ + label@);
                }
                (s, Paint::Heading)
            },
            MenuItem::PuzzleEntry(i) => {
                let i = *i;
                proof {
                    assert(app.menu()[j as int] is PuzzleEntry);
                    assert(app.puzzles.len() == app.puzzles@.len());
                }
                let p = &app.puzzles[i];
                let solved = app.solved_puzzles.contains(&i);
                let name = app.puzzle_display_name(i);
                let mut s = String::new();
                if solved {
                    push_literal(&mut s, "  \u{2713} ");
                } else {
                    push_literal(&mut s, "    ");
                }
                push_literal(&mut s, name.as_str());
                push_literal(&mut s, " (");
                push_decimal(&mut s, p.rows);
                push_char(&mut s, '\u{d7}');
                push_decimal(&mut s, p.cols);
                push_char(&mut s, ')');
                proof {
                    assert(s@ =~= entry_text(*app, i));
                }
                (
                    s,
                    if solved {
                        Paint::SolvedEntry
                    } else {
                        Paint::OpenEntry
                    },
                )
            },
        };
        let ghost before = lines@;
        lines.push(line);
        proof {
            assert(app.menu().take(j + 1) =~= app.menu().take(j as int).push(m));
            assert(pieces_view(lines@) =~= pieces_view(before).push(menu_piece(*app, m)));
            assert(app.menu().take(j + 1).map_values(|m: MenuLine| menu_piece(*app, m))
                =~= app.menu().take(j as int).map_values(|m: MenuLine| menu_piece(*app, m)).push(
                menu_piece(*app, m),
            ));
        }
        j = j + 1;
    }
    proof {
        assert(app.menu().take(app.menu_items@.len() as int) =~= app.menu());
    }
    lines
}

// ── the board ────────────────────────────────────────────────────────────────

/// The numbers of a clue separated by spaces.
pub open spec fn join_spaces(cl: Seq<usize>) -> Seq<char>
    decreases cl.len(),
{
    if cl.len() == 0 {
        seq![]
    } else if cl.len() == 1 {
        decimal(cl[0] as nat)
    } else {
        join_spaces(cl.drop_last()) + seq![' '] + decimal(cl.last() as nat)
    }
}

/// The text of a clue lists its numbers in order: the text of one number is
/// its decimal form, and the text of two clues one after the other is the
/// text of the first, a space, and the text of the second.
pub proof fn lemma_join_spaces_in_order(a: Seq<usize>, b: Seq<usize>)
    requires
        a.len() > 0,
        b.len() > 0,
    ensures
        join_spaces(a + b) == join_spaces(a) + seq![' '] + join_spaces(b),
        join_spaces(seq![b[0]]) == decimal(b[0] as nat),
    decreases b.len(),
{
    let ab = a + b;
    assert(ab.last() == b.last());
    if b.len() == 1 {
        assert(ab.drop_last() =~= a);
        assert(b[0] == b.last());
    } else {
        let b2 = b.drop_last();
        lemma_join_spaces_in_order(a, b2);
        assert(ab.drop_last() =~= a + b2);
        assert(join_spaces(a) + seq![' '] + join_spaces(b2) + seq![' '] + decimal(b.last() as nat)
            =~= join_spaces(a) + seq![' '] + (join_spaces(b2) + seq![' '] + decimal(b.last() as nat)));
    }
}

/// The length of the widest text of a list of clues; 0 for no clue.
pub open spec fn widest_text(cls: Seq<Seq<usize>>) -> nat
    decreases cls.len(),
{
    if cls.len() == 0 {
        0
    } else {
        let w = widest_text(cls.drop_last());
        let l = join_spaces(cls.last()).len();
        if l > w {
            l
        } else {
            w
        }
    }
}

/// The length of the longest of a list of clues; 0 for no clue.
pub open spec fn longest(cls: Seq<Seq<usize>>) -> nat
    decreases cls.len(),
{
    if cls.len() == 0 {
        0
    } else {
        let w = longest(cls.drop_last());
        let l = cls.last().len();
        if l > w {
            l
        } else {
            w
        }
    }
}

/// The width of the row clues to the left of the board: that of the widest
/// one, 1 where there is none.
pub open spec fn row_clue_width(p: PuzzleView) -> nat {
    if p.row_clues.len() == 0 {
        1
    } else {
        widest_text(p.row_clues)
    }
}

/// The number of lines of column clues above the board: the length of the
/// longest one, 1 where there is none.
pub open spec fn col_clue_height(p: PuzzleView) -> nat {
    if p.col_clues.len() == 0 {
        1
    } else {
        longest(p.col_clues)
    }
}

/// The width that the board and its clues need: the row clues, a margin,
/// the borders and the cells, each cell two wide with a border between.
pub open spec fn grid_width(p: PuzzleView) -> int {
    row_clue_width(p) + 2 + (p.cols * 3 - 1) + 2
}

/// The height that the board and its clues need: the column clues, the line
/// under them, the borders and the rows, with a border between each two.
pub open spec fn grid_height(p: PuzzleView) -> int {
    (col_clue_height(p) + 1 + 1 + p.rows * 2) as int
}

/// A painted piece of text, in mathematical terms.
pub open spec fn cell_piece(v: CellState, cursor: bool) -> (Seq<char>, Paint) {
    match v {
        CellState::Empty => ("  "@, if cursor { Paint::EmptyCursor } else { Paint::EmptyCell }),
        CellState::Filled => (
            "\u{2588}\u{2588}"@,
            if cursor {
                Paint::FilledCursor
            } else {
                Paint::FilledCell
            },
        ),
        CellState::Crossed => (
            " X"@,
            if cursor {
                Paint::CrossedCursor
            } else {
                Paint::CrossedCell
            },
        ),
    }
}

/// The horizontal rule over `n` of `cols` cells: two bars for each cell, with
/// `mid` between two cells.
pub open spec fn rule_pieces(n: nat, cols: nat, mid: Seq<char>, paint: Paint) -> Seq<
    (Seq<char>, Paint),
>
    decreases n,
{
    if n == 0 {
        seq![]
    } else {
        rule_pieces((n - 1) as nat, cols, mid, paint) + seq![("\u{2500}\u{2500}"@, paint)] + (if n
            < cols {
            seq![(mid, paint)]
        } else {
            seq![]
        })
    }
}

/// A horizontal rule of the board: `lead` spaces, the left end, the rule
/// over the cells and the right end.
pub open spec fn rule_line(
    lead: nat,
    left: Seq<char>,
    mid: Seq<char>,
    right: Seq<char>,
    cols: nat,
    paint: Paint,
) -> Seq<(Seq<char>, Paint)> {
    seq![(spaces(lead), Paint::Plain), (left, paint)] + rule_pieces(cols, cols, mid, paint) + seq![
        (right, paint),
    ]
}

/// Column `c` of board `b` meets its clue.
pub open spec fn col_met(p: PuzzleView, b: Seq<Seq<CellState>>, c: int) -> bool {
    b.len() > 0 && clue_of(filled_cells(board_column(b, c, p.rows))) == p.col_clues[c]
}

/// Row `r` of board `b` meets its clue.
pub open spec fn row_met(p: PuzzleView, b: Seq<Seq<CellState>>, r: int) -> bool {
    b.len() > 0 && clue_of(filled_cells(b[r])) == p.row_clues[r]
}

/// The text of `clue` on line `d` of `h` lines of column clues: the clue's
/// numbers stand at the bottom, one to a line, two wide.
pub open spec fn clue_cell(clue: Seq<usize>, d: int, h: nat) -> Seq<char> {
    let offset = h - clue.len();
    if d >= offset {
        pad_left(decimal(clue[d - offset] as nat), 2)
    } else {
        spaces(2)
    }
}

/// The column clues of `n` of the columns on line `d`, a space between two.
pub open spec fn col_clue_pieces(p: PuzzleView, b: Seq<Seq<CellState>>, d: int, n: nat) -> Seq<
    (Seq<char>, Paint),
>
    decreases n,
{
    if n == 0 {
        seq![]
    } else {
        let c = n - 1;
        col_clue_pieces(p, b, d, (n - 1) as nat) + seq![
            (
                clue_cell(p.col_clues[c], d, col_clue_height(p)),
                if col_met(p, b, c) {
                    Paint::ClueMet
                } else {
                    Paint::Clue
                },
            ),
        ] + (if n < p.cols {
            seq![(spaces(1), Paint::Plain)]
        } else {
            seq![]
        })
    }
}

/// Line `d` of the column clues.
pub open spec fn col_clue_line(p: PuzzleView, b: Seq<Seq<CellState>>, d: int) -> Seq<
    (Seq<char>, Paint),
> {
    seq![(spaces(row_clue_width(p) + 1), Paint::Plain), (spaces(1), Paint::Plain)]
        + col_clue_pieces(p, b, d, p.cols)
}

/// The cells of `n` of the columns of row `r`, a border between two.
pub open spec fn cell_pieces(
    p: PuzzleView,
    b: Seq<Seq<CellState>>,
    r: int,
    cr: int,
    cc: int,
    n: nat,
) -> Seq<(Seq<char>, Paint)>
    decreases n,
{
    if n == 0 {
        seq![]
    } else {
        let c = n - 1;
        cell_pieces(p, b, r, cr, cc, (n - 1) as nat) + seq![cell_piece(b[r][c], r == cr && c == cc)]
            + (if n < p.cols {
            seq![("\u{2502}"@, Paint::Border)]
        } else {
            seq![]
        })
    }
}

/// Row `r` of the board: its clue right-aligned, a space, and its cells
/// between borders.
pub open spec fn data_line(p: PuzzleView, b: Seq<Seq<CellState>>, r: int, cr: int, cc: int) -> Seq<
    (Seq<char>, Paint),
> {
    seq![
        (
            pad_left(join_spaces(p.row_clues[r]), row_clue_width(p)),
            if row_met(p, b, r) {
                Paint::ClueMet
            } else {
                Paint::Clue
            },
        ),
        (spaces(1), Paint::Plain),
        ("\u{2502}"@, Paint::Border),
    ] + cell_pieces(p, b, r, cr, cc, p.cols) + seq![("\u{2502}"@, Paint::Border)]
}

/// The first `n` lines of column clues.
pub open spec fn clue_lines(p: PuzzleView, b: Seq<Seq<CellState>>, n: nat) -> Seq<
    Seq<(Seq<char>, Paint)>,
>
    decreases n,
{
    if n == 0 {
        seq![]
    } else {
        clue_lines(p, b, (n - 1) as nat).push(col_clue_line(p, b, n - 1))
    }
}

/// The lines of the first `n` rows of the board, a rule between two.
pub open spec fn row_lines(p: PuzzleView, b: Seq<Seq<CellState>>, cr: int, cc: int, n: nat) -> Seq<
    Seq<(Seq<char>, Paint)>,
>
    decreases n,
{
    if n == 0 {
        seq![]
    } else {
        let prev = row_lines(p, b, cr, cc, (n - 1) as nat).push(data_line(p, b, n - 1, cr, cc));
        if n < p.rows {
            prev.push(
                rule_line(
                    row_clue_width(p) + 1,
                    "\u{251c}"@,
                    "\u{253c}"@,
                    "\u{2524}"@,
                    p.cols,
                    Paint::Border,
                ),
            )
        } else {
            prev
        }
    }
}

/// The board screen's lines: the column clues, a separating rule, the board
/// in its borders with the row clues to its left, the cursor on cell
/// `(cr, cc)`.
pub open spec fn grid_lines_spec(p: PuzzleView, b: Seq<Seq<CellState>>, cr: int, cc: int) -> Seq<
    Seq<(Seq<char>, Paint)>,
> {
    let w = row_clue_width(p);
    clue_lines(p, b, col_clue_height(p)) + seq![
        rule_line(
            w,
            " \u{2500}\u{252c}"@,
            "\u{252c}"@,
            "\u{2500}"@,
            p.cols,
            Paint::Separator,
        ),
        rule_line(w + 1, "\u{250c}"@, "\u{252c}"@, "\u{2510}"@, p.cols, Paint::Border),
    ] + row_lines(p, b, cr, cc, p.rows) + seq![
        rule_line(w + 1, "\u{2514}"@, "\u{2534}"@, "\u{2518}"@, p.cols, Paint::Border),
    ]
}

/// The views of lines of painted text.
pub open spec fn lines_view(v: Seq<Vec<(String, Paint)>>) -> Seq<Seq<(Seq<char>, Paint)>> {
    v.map_values(|l: Vec<(String, Paint)>| pieces_view(l@))
}

/// The numbers of a clue separated by spaces.
fn clue_text(cl: &Vec<usize>) -> (s: String)
    ensures
        s@ == join_spaces(cl@),
{
    let mut s = String::new();
    let mut i: usize = 0;
    proof {
        assert(cl@.take(0) =~= Seq::<usize>::empty());
        assert(s@ =~= join_spaces(cl@.take(0)));
    }
    while i < cl.len()
        invariant
            i <= cl@.len(),
            s@ == join_spaces(cl@.take(i as int)),
        decreases cl@.len() - i,
    {
        let ghost s0 = s@;
        if i > 0 {
            push_char(&mut s, ' ');
        }
        push_decimal(&mut s, cl[i]);
        proof {
            let t = cl@.take(i + 1);
            assert(t.drop_last() =~= cl@.take(i as int));
            assert(t.last() == cl@[i as int]);
            if i == 0 {
                assert(t.len() == 1);
                assert(s@ =~= decimal(t[0] as nat));
            } else {
                assert(s@ =~= s0 + seq![' '] + decimal(t.last() as nat));
            }
        }
        i = i + 1;
    }
    proof {
        assert(cl@.take(cl@.len() as int) =~= cl@);
    }
    s
}

/// The number of characters of a string.
fn char_count(s: &String) -> (n: usize)
    ensures
        n == s@.len(),
{
    chars_of(s.as_str()).len()
}

/// `s` right-aligned in a field of width `w`.
fn padded(s: String, w: usize) -> (r: String)
    ensures
        r@ == pad_left(s@, w as nat),
{
    let n = char_count(&s);
    if n < w {
        let mut r = String::new();
        push_spaces(&mut r, w - n);
        push_literal(&mut r, s.as_str());
        proof {
            assert(r@ =~= pad_left(s@, w as nat));
        }
        r
    } else {
        s
    }
}

/// The width of the row clues of `p`.
fn row_clue_width_of(p: &crate::puzzle::Puzzle) -> (w: usize)
    ensures
        w == row_clue_width(p@),
{
    if p.row_clues.len() == 0 {
        return 1;
    }
    let ghost cls = p@.row_clues;
    let mut w: usize = 0;
    let mut i: usize = 0;
    proof {
        assert(cls.take(0) =~= Seq::<Seq<usize>>::empty());
    }
    while i < p.row_clues.len()
        invariant
            i <= p.row_clues@.len(),
            cls == p@.row_clues,
            cls.len() == p.row_clues@.len(),
            w == widest_text(cls.take(i as int)),
        decreases p.row_clues@.len() - i,
    {
        let t = clue_text(&p.row_clues[i]);
        let l = char_count(&t);
        proof {
            let c = cls.take(i + 1);
            assert(c.drop_last() =~= cls.take(i as int));
            assert(c.last() == cls[i as int]);
            assert(cls[i as int] == p.row_clues@[i as int]@);
        }
        if l > w {
            w = l;
        }
        i = i + 1;
    }
    proof {
        assert(cls.take(cls.len() as int) =~= cls);
    }
    w
}

/// The number of lines of column clues of `p`.
fn col_clue_height_of(p: &crate::puzzle::Puzzle) -> (h: usize)
    ensures
        h == col_clue_height(p@),
{
    if p.col_clues.len() == 0 {
        return 1;
    }
    let ghost cls = p@.col_clues;
    let mut h: usize = 0;
    let mut i: usize = 0;
    proof {
        assert(cls.take(0) =~= Seq::<Seq<usize>>::empty());
    }
    while i < p.col_clues.len()
        invariant
            i <= p.col_clues@.len(),
            cls == p@.col_clues,
            cls.len() == p.col_clues@.len(),
            h == longest(cls.take(i as int)),
        decreases p.col_clues@.len() - i,
    {
        let l = p.col_clues[i].len();
        proof {
            let c = cls.take(i + 1);
            assert(c.drop_last() =~= cls.take(i as int));
            assert(c.last() == cls[i as int]);
            assert(cls[i as int] == p.col_clues@[i as int]@);
        }
        if l > h {
            h = l;
        }
        i = i + 1;
    }
    proof {
        assert(cls.take(cls.len() as int) =~= cls);
    }
    h
}

/// The width and height that the board of `p` and its clues need on the
/// screen.
pub fn grid_size(p: &crate::puzzle::Puzzle) -> (size: (usize, usize))
    requires
        p.cols >= 1,
        grid_width(p@) <= usize::MAX,
        grid_height(p@) <= usize::MAX,
    ensures
        size.0 == grid_width(p@),
        size.1 == grid_height(p@),
{
    let w = row_clue_width_of(p);
    let h = col_clue_height_of(p);
    (w + 2 + (p.cols * 3 - 1) + 2, h + 1 + 1 + p.rows * 2)
}

/// Whether a board of `size` (width, height; see `grid_size`) fits in an
/// area of `width` x `height` terminal cells. Where it does not, the screen
/// asks for a larger terminal in place of the board.
pub fn fits_area(size: (usize, usize), width: u16, height: u16) -> (fits: bool)
    ensures
        fits == (size.0 <= width && size.1 <= height),
{
    size.0 <= width as usize && size.1 <= height as usize
}

/// A horizontal rule of the board.
fn rule(lead: usize, left: &str, mid: &str, right: &str, cols: usize, paint: Paint) -> (line: Vec<
    (String, Paint),
>)
    ensures
        pieces_view(line@) == rule_line(lead as nat, left@, mid@, right@, cols as nat, paint),
{
    let mut line: Vec<(String, Paint)> = Vec::new();
    line.push(blank_piece(lead));
    line.push(piece(left, paint));
    let ghost head = pieces_view(line@);
    let mut c: usize = 0;
    proof {
        assert(head =~= seq![(spaces(lead as nat), Paint::Plain), (left@, paint)]);
        assert(pieces_view(line@) =~= head + rule_pieces(0, cols as nat, mid@, paint));
    }
    while c < cols
        invariant
            c <= cols,
            head == seq![(spaces(lead as nat), Paint::Plain), (left@, paint)],
            pieces_view(line@) == head + rule_pieces(c as nat, cols as nat, mid@, paint),
        decreases cols - c,
    {
        let ghost before = pieces_view(line@);
        line.push(piece("\u{2500}\u{2500}", paint));
        if c + 1 < cols {
            line.push(piece(mid, paint));
        }
        proof {
            let rp = rule_pieces(c as nat, cols as nat, mid@, paint);
            if c + 1 < cols {
                assert(pieces_view(line@) =~= before + seq![("\u{2500}\u{2500}"@, paint)] + seq![
                    (mid@, paint),
                ]);
            } else {
                assert(pieces_view(line@) =~= before + seq![("\u{2500}\u{2500}"@, paint)]);
            }
            assert(pieces_view(line@) =~= head + rule_pieces((c + 1) as nat, cols as nat, mid@, paint));
        }
        c = c + 1;
    }
    let ghost before = pieces_view(line@);
    line.push(piece(right, paint));
    proof {
        assert(pieces_view(line@) =~= before.push((right@, paint)));
        assert(pieces_view(line@) =~= rule_line(lead as nat, left@, mid@, right@, cols as nat, paint));
    }
    line
}

/// The painted text of a cell.
fn cell_text(v: CellState, cursor: bool) -> (p: (String, Paint))
    ensures
        (p.0@, p.1) == cell_piece(v, cursor),
{
    match v {
        CellState::Empty => piece(
            "  ",
            if cursor {
                Paint::EmptyCursor
            } else {
                Paint::EmptyCell
            },
        ),
        CellState::Filled => piece(
            "\u{2588}\u{2588}",
            if cursor {
                Paint::FilledCursor
            } else {
                Paint::FilledCell
            },
        ),
        CellState::Crossed => piece(
            " X",
            if cursor {
                Paint::CrossedCursor
            } else {
                Paint::CrossedCell
            },
        ),
    }
}

/// The text of a clue on a line of column clues.
fn clue_cell_text(clue: &Vec<usize>, d: usize, h: usize) -> (s: String)
    requires
        clue@.len() <= h,
        d < h,
    ensures
        s@ == clue_cell(clue@, d as int, h as nat),
{
    let offset = h - clue.len();
    if d >= offset {
        let mut n = String::new();
        push_decimal(&mut n, clue[d - offset]);
        proof {
            assert(n@ =~= decimal(clue@[d - offset] as nat));
        }
        padded(n, 2)
    } else {
        let mut s = String::new();
        push_spaces(&mut s, 2);
        proof {
            assert(s@ =~= spaces(2));
        }
        s
    }
}

/// Whether column `c` of the board meets its clue.
fn column_met(p: &crate::puzzle::Puzzle, board: &Vec<Vec<CellState>>, c: usize) -> (ok: bool)
    requires
        c < p.cols,
        crate::app::playable(p@),
        crate::app::board_fits(crate::app::board_view(board@), p@.rows, p@.cols),
    ensures
        ok == col_met(p@, crate::app::board_view(board@), c as int),
{
    let ghost b = crate::app::board_view(board@);
    if board.len() == 0 {
        return false;
    }
    let mut col: Vec<CellState> = Vec::new();
    let mut r: usize = 0;
    while r < p.rows
        invariant
            r <= p.rows,
            c < p.cols,
            b == crate::app::board_view(board@),
            crate::app::board_fits(b, p@.rows, p@.cols),
            col@ == board_column(b, c as int, r as nat),
        decreases p.rows - r,
    {
        proof {
            assert(b[r as int] == board@[r as int]@);
        }
        col.push(board[r][c]);
        proof {
            assert(col@ =~= board_column(b, c as int, (r + 1) as nat));
        }
        r = r + 1;
    }
    proof {
        assert(p@.col_clues[c as int] == p.col_clues@[c as int]@);
    }
    clue_satisfied(col.as_slice(), p.col_clues[c].as_slice())
}

proof fn lemma_longest(cls: Seq<Seq<usize>>, i: int)
    requires
        0 <= i < cls.len(),
    ensures
        cls[i].len() <= longest(cls),
    decreases cls.len(),
{
    if i < cls.len() - 1 {
        lemma_longest(cls.drop_last(), i);
    }
}

/// Line `d` of the column clues.
fn col_clue_row(p: &crate::puzzle::Puzzle, board: &Vec<Vec<CellState>>, d: usize, w: usize, h: usize) -> (line: Vec<
    (String, Paint),
>)
    requires
        crate::app::playable(p@),
        crate::app::board_fits(crate::app::board_view(board@), p@.rows, p@.cols),
        w == row_clue_width(p@),
        h == col_clue_height(p@),
        d < h,
        w + 1 <= usize::MAX,
    ensures
        pieces_view(line@) == col_clue_line(p@, crate::app::board_view(board@), d as int),
{
    let ghost b = crate::app::board_view(board@);
    let mut line: Vec<(String, Paint)> = Vec::new();
    line.push(blank_piece(w + 1));
    line.push(blank_piece(1));
    let ghost head = pieces_view(line@);
    proof {
        assert(head =~= seq![(spaces(w as nat + 1), Paint::Plain), (spaces(1), Paint::Plain)]);
        assert(pieces_view(line@) =~= head + col_clue_pieces(p@, b, d as int, 0));
    }
    let mut c: usize = 0;
    while c < p.cols
        invariant
            c <= p.cols,
            crate::app::playable(p@),
            b == crate::app::board_view(board@),
            crate::app::board_fits(b, p@.rows, p@.cols),
            h == col_clue_height(p@),
            d < h,
            head == seq![(spaces(w as nat + 1), Paint::Plain), (spaces(1), Paint::Plain)],
            pieces_view(line@) == head + col_clue_pieces(p@, b, d as int, c as nat),
        decreases p.cols - c,
    {
        let ghost before = pieces_view(line@);
        proof {
            assert(p@.col_clues[c as int] == p.col_clues@[c as int]@);
            lemma_longest(p@.col_clues, c as int);
        }
        let text = clue_cell_text(&p.col_clues[c], d, h);
        let met = column_met(p, board, c);
        line.push(
            (
                text,
                if met {
                    Paint::ClueMet
                } else {
                    Paint::Clue
                },
            ),
        );
        if c + 1 < p.cols {
            line.push(blank_piece(1));
        }
        proof {
            let pc = (
                clue_cell(p@.col_clues[c as int], d as int, col_clue_height(p@)),
                if col_met(p@, b, c as int) {
                    Paint::ClueMet
                } else {
                    Paint::Clue
                },
            );
            if c + 1 < p.cols {
                assert(pieces_view(line@) =~= before + seq![pc] + seq![(spaces(1), Paint::Plain)]);
            } else {
                assert(pieces_view(line@) =~= before + seq![pc]);
            }
            assert(pieces_view(line@) =~= head + col_clue_pieces(p@, b, d as int, (c + 1) as nat));
        }
        c = c + 1;
    }
    line
}

/// Row `r` of the board with its clue.
fn data_row(
    p: &crate::puzzle::Puzzle,
    board: &Vec<Vec<CellState>>,
    r: usize,
    cr: usize,
    cc: usize,
    w: usize,
) -> (line: Vec<(String, Paint)>)
    requires
        r < p.rows,
        crate::app::playable(p@),
        crate::app::board_fits(crate::app::board_view(board@), p@.rows, p@.cols),
        w == row_clue_width(p@),
    ensures
        pieces_view(line@) == data_line(
            p@,
            crate::app::board_view(board@),
            r as int,
            cr as int,
            cc as int,
        ),
{
    let ghost b = crate::app::board_view(board@);
    proof {
        assert(p@.row_clues[r as int] == p.row_clues@[r as int]@);
        assert(b[r as int] == board@[r as int]@);
    }
    let clue = padded(clue_text(&p.row_clues[r]), w);
    let met = board.len() > 0 && clue_satisfied(board[r].as_slice(), p.row_clues[r].as_slice());
    let mut line: Vec<(String, Paint)> = Vec::new();
    line.push(
        (
            clue,
            if met {
                Paint::ClueMet
            } else {
                Paint::Clue
            },
        ),
    );
    line.push(blank_piece(1));
    line.push(piece("\u{2502}", Paint::Border));
    let ghost head = pieces_view(line@);
    proof {
        assert(head =~= seq![
            (
                pad_left(join_spaces(p@.row_clues[r as int]), row_clue_width(p@)),
                if row_met(p@, b, r as int) {
                    Paint::ClueMet
                } else {
                    Paint::Clue
                },
            ),
            (spaces(1), Paint::Plain),
            ("\u{2502}"@, Paint::Border),
        ]);
        assert(pieces_view(line@) =~= head + cell_pieces(p@, b, r as int, cr as int, cc as int, 0));
    }
    let mut c: usize = 0;
    while c < p.cols
        invariant
            c <= p.cols,
            r < p.rows,
            crate::app::playable(p@),
            b == crate::app::board_view(board@),
            crate::app::board_fits(b, p@.rows, p@.cols),
            pieces_view(line@) == head + cell_pieces(p@, b, r as int, cr as int, cc as int, c as nat),
        decreases p.cols - c,
    {
        let ghost before = pieces_view(line@);
        proof {
            assert(b[r as int] == board@[r as int]@);
        }
        line.push(cell_text(board[r][c], r == cr && c == cc));
        if c + 1 < p.cols {
            line.push(piece("\u{2502}", Paint::Border));
        }
        proof {
            let pc = cell_piece(b[r as int][c as int], r == cr && c == cc);
            if c + 1 < p.cols {
                assert(pieces_view(line@) =~= before + seq![pc] + seq![("\u{2502}"@, Paint::Border)]);
            } else {
                assert(pieces_view(line@) =~= before + seq![pc]);
            }
            assert(pieces_view(line@) =~= head + cell_pieces(
                p@,
                b,
                r as int,
                cr as int,
                cc as int,
                (c + 1) as nat,
            ));
        }
        c = c + 1;
    }
    let ghost before = pieces_view(line@);
    line.push(piece("\u{2502}", Paint::Border));
    proof {
        assert(pieces_view(line@) =~= before.push(("\u{2502}"@, Paint::Border)));
        assert(pieces_view(line@) =~= data_line(p@, b, r as int, cr as int, cc as int));
    }
    line
}

/// The lines of the board screen: the column clues over the board, the row
/// clues to its left, the cursor's cell painted as such.
pub fn grid_lines(app: &App) -> (lines: Vec<Vec<(String, Paint)>>)
    requires
        app.current_puzzle_index < app.puzzles@.len(),
        crate::app::playable(app.puzzle()),
        crate::app::board_fits(app.cells(), app.puzzle().rows, app.puzzle().cols),
        row_clue_width(app.puzzle()) + 1 <= usize::MAX,
    ensures
        lines_view(lines@) == grid_lines_spec(
            app.puzzle(),
            app.cells(),
            app.cursor_row as int,
            app.cursor_col as int,
        ),
{
    let p = &app.puzzles[app.current_puzzle_index];
    let ghost pv = p@;
    let ghost b = app.cells();
    let w = row_clue_width_of(p);
    let h = col_clue_height_of(p);
    let mut lines: Vec<Vec<(String, Paint)>> = Vec::new();
    let mut d: usize = 0;
    proof {
        assert(lines_view(lines@) =~= clue_lines(pv, b, 0));
    }
    while d < h
        invariant
            d <= h,
            pv == p@,
            b == app.cells(),
            crate::app::playable(pv),
            crate::app::board_fits(b, pv.rows, pv.cols),
            w == row_clue_width(pv),
            h == col_clue_height(pv),
            w + 1 <= usize::MAX,
            lines_view(lines@) == clue_lines(pv, b, d as nat),
        decreases h - d,
    {
        let line = col_clue_row(p, &app.board, d, w, h);
        let ghost before = lines_view(lines@);
        lines.push(line);
        proof {
            assert(lines_view(lines@) =~= before.push(col_clue_line(pv, b, d as int)));
        }
        d = d + 1;
    }
    let ghost head = lines_view(lines@);
    lines.push(rule(w, " \u{2500}\u{252c}", "\u{252c}", "\u{2500}", p.cols, Paint::Separator));
    lines.push(rule(w + 1, "\u{250c}", "\u{252c}", "\u{2510}", p.cols, Paint::Border));
    let ghost head2 = lines_view(lines@);
    proof {
        assert(head2 =~= head + seq![
            rule_line(w as nat, " \u{2500}\u{252c}"@, "\u{252c}"@, "\u{2500}"@, pv.cols, Paint::Separator),
            rule_line((w + 1) as nat, "\u{250c}"@, "\u{252c}"@, "\u{2510}"@, pv.cols, Paint::Border),
        ]);
        assert(lines_view(lines@) =~= head2 + row_lines(pv, b, app.cursor_row as int, app.cursor_col as int, 0));
    }
    let mut r: usize = 0;
    while r < p.rows
        invariant
            r <= p.rows,
            pv == p@,
            b == app.cells(),
            crate::app::playable(pv),
            crate::app::board_fits(b, pv.rows, pv.cols),
            w == row_clue_width(pv),
            w + 1 <= usize::MAX,
            lines_view(lines@) == head2 + row_lines(
                pv,
                b,
                app.cursor_row as int,
                app.cursor_col as int,
                r as nat,
            ),
        decreases p.rows - r,
    {
        let ghost before = lines_view(lines@);
        let line = data_row(p, &app.board, r, app.cursor_row, app.cursor_col, w);
        lines.push(line);
        if r + 1 < p.rows {
            lines.push(rule(w + 1, "\u{251c}", "\u{253c}", "\u{2524}", p.cols, Paint::Border));
        }
        proof {
            let dl = data_line(pv, b, r as int, app.cursor_row as int, app.cursor_col as int);
            let rl = rule_line((w + 1) as nat, "\u{251c}"@, "\u{253c}"@, "\u{2524}"@, pv.cols, Paint::Border);
            if r + 1 < p.rows {
                assert(lines_view(lines@) =~= before.push(dl).push(rl));
            } else {
                assert(lines_view(lines@) =~= before.push(dl));
            }
            assert(lines_view(lines@) =~= head2 + row_lines(
                pv,
                b,
                app.cursor_row as int,
                app.cursor_col as int,
                (r + 1) as nat,
            ));
        }
        r = r + 1;
    }
    let ghost before = lines_view(lines@);
    lines.push(rule(w + 1, "\u{2514}", "\u{2534}", "\u{2518}", p.cols, Paint::Border));
    proof {
        assert(lines_view(lines@) =~= before.push(
            rule_line((w + 1) as nat, "\u{2514}"@, "\u{2534}"@, "\u{2518}"@, pv.cols, Paint::Border),
        ));
        assert(lines_view(lines@) =~= grid_lines_spec(
            pv,
            b,
            app.cursor_row as int,
            app.cursor_col as int,
        ));
    }
    lines
}

proof fn lemma_clue_lines_len(p: PuzzleView, b: Seq<Seq<CellState>>, n: nat)
    ensures
        clue_lines(p, b, n).len() == n,
    decreases n,
{
    if n > 0 {
        lemma_clue_lines_len(p, b, (n - 1) as nat);
    }
}

proof fn lemma_row_lines_len(p: PuzzleView, b: Seq<Seq<CellState>>, cr: int, cc: int, n: nat)
    requires
        n <= p.rows,
    ensures
        n > 0 ==> row_lines(p, b, cr, cc, n).len() == if n < p.rows {
            2 * n as int
        } else {
            2 * n - 1
        },
    decreases n,
{
    if n > 1 {
        lemma_row_lines_len(p, b, cr, cc, (n - 1) as nat);
    } else if n == 1 {
        assert(row_lines(p, b, cr, cc, 0).len() == 0);
    }
}

/// The board screen has as many lines as `grid_height` makes room for.
pub proof fn lemma_grid_height(p: PuzzleView, b: Seq<Seq<CellState>>, cr: int, cc: int)
    requires
        p.rows >= 1,
    ensures
        grid_lines_spec(p, b, cr, cc).len() == grid_height(p),
{
    lemma_clue_lines_len(p, b, col_clue_height(p));
    lemma_row_lines_len(p, b, cr, cc, p.rows);
}

} // verus!
