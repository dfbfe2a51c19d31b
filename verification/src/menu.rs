//! The puzzle menu: the puzzles grouped by size under a heading for each
//! size, and the moves of the selection between puzzle entries.
use vstd::prelude::*;

use crate::puzzle::Puzzle;
use crate::text::{chars_of, decimal, push_char, push_chars, push_decimal};

verus! {

/// A line of the puzzle menu: a size heading, or the puzzle at an index.
#[derive(Clone)]
pub enum MenuItem {
    Header(String),
    PuzzleEntry(usize),
}

/// What a menu line shows, in mathematical terms.
pub enum MenuLine {
    Header(Seq<char>),
    PuzzleEntry(usize),
}

impl View for MenuItem {
    type V = MenuLine;

    open spec fn view(&self) -> MenuLine {
        match self {
            MenuItem::Header(s) => MenuLine::Header(s@),
            MenuItem::PuzzleEntry(i) => MenuLine::PuzzleEntry(*i),
        }
    }
}

/// The views of a list of menu items.
pub open spec fn menu_lines(items: Seq<MenuItem>) -> Seq<MenuLine> {
    items.map_values(|m: MenuItem| m@)
}

/// The heading of a size group: `── <rows>×<cols> ──`.
pub open spec fn size_label(rows: usize, cols: usize) -> Seq<char> {
    "\u{2500}\u{2500} "@ + decimal(rows as nat) + seq!['\u{d7}'] + decimal(cols as nat)
        + " \u{2500}\u{2500}"@
}

/// The sizes of a list of puzzles, in order.
pub open spec fn sizes_of(ps: Seq<Puzzle>) -> Seq<(usize, usize)> {
    ps.map_values(|p: Puzzle| (p.rows, p.cols))
}

/// The menu of puzzles of the given sizes: each puzzle in order, with a
/// heading before each run of puzzles of one size.
pub open spec fn menu_spec(sizes: Seq<(usize, usize)>) -> Seq<MenuLine>
    decreases sizes.len(),
{
    if sizes.len() == 0 {
        seq![]
    } else {
        let i = sizes.len() - 1;
        let prev = menu_spec(sizes.drop_last());
        let with_head = if i == 0 || sizes[i - 1] != sizes[i] {
            prev.push(MenuLine::Header(size_label(sizes[i].0, sizes[i].1)))
        } else {
            prev
        };
        with_head.push(MenuLine::PuzzleEntry(i as usize))
    }
}

fn heading(rows: usize, cols: usize) -> (label: String)
    ensures
        label@ == size_label(rows, cols),
{
    let mut label = String::new();
    let open = chars_of("\u{2500}\u{2500} ");
    let close = chars_of(" \u{2500}\u{2500}");
    push_chars(&mut label, open.as_slice());
    push_decimal(&mut label, rows);
    push_char(&mut label, '\u{d7}');
    push_decimal(&mut label, cols);
    push_chars(&mut label, close.as_slice());
    proof {
        assert(label@ =~= size_label(rows, cols));
    }
    label
}

/// The menu of `puzzles`: a heading for each run of puzzles of one size,
/// then an entry for each puzzle of the run.
pub fn build_menu_items(puzzles: &[Puzzle]) -> (items: Vec<MenuItem>)
    ensures
        menu_lines(items@) == menu_spec(sizes_of(puzzles@)),
{
    let ghost sizes = sizes_of(puzzles@);
    let mut items: Vec<MenuItem> = Vec::new();
    let mut last_size: Option<(usize, usize)> = None;
    let mut i: usize = 0;
    proof {
        assert(sizes.take(0) =~= Seq::<(usize, usize)>::empty());
        assert(menu_lines(items@) =~= Seq::<MenuLine>::empty());
    }
    while i < puzzles.len()
        invariant
            i <= puzzles@.len(),
            sizes == sizes_of(puzzles@),
            menu_lines(items@) == menu_spec(sizes.take(i as int)),
            last_size == (if i == 0 {
                None
            } else {
                Some(sizes[i - 1])
            }),
        decreases puzzles@.len() - i,
    {
        let p = &puzzles[i];
        let new_group = match last_size {
            None => true,
            Some(s) => s.0 != p.rows || s.1 != p.cols,
        };
        let ghost before = items@;
        if new_group {
            items.push(MenuItem::Header(heading(p.rows, p.cols)));
            last_size = Some((p.rows, p.cols));
        }
        items.push(MenuItem::PuzzleEntry(i));
        proof {
            let t = sizes.take(i + 1);
            assert(t.drop_last() =~= sizes.take(i as int));
            assert(t[i as int] == sizes[i as int]);
            if i > 0 {
                assert(t[i - 1] == sizes[i - 1]);
            }
            assert(sizes[i as int] == (p.rows, p.cols));
            if new_group {
                assert(menu_lines(items@) =~= menu_lines(before).push(
                    MenuLine::Header(size_label(p.rows, p.cols)),
                ).push(MenuLine::PuzzleEntry(i)));
            } else {
                assert(menu_lines(items@) =~= menu_lines(before).push(MenuLine::PuzzleEntry(i)));
            }
        }
        i = i + 1;
    }
    proof {
        assert(sizes.take(puzzles@.len() as int) =~= sizes);
    }
    items
}

/// The position of the first puzzle entry of the menu, or 0 where there is
/// none.
pub fn first_puzzle_entry(items: &[MenuItem]) -> (pos: usize)
    ensures
        (exists|i: int| 0 <= i < items@.len() && items@[i] is PuzzleEntry) ==> {
            &&& pos < items@.len()
            &&& items@[pos as int] is PuzzleEntry
            &&& forall|j: int| 0 <= j < pos ==> !(#[trigger] items@[j] is PuzzleEntry)
        },
        (forall|i: int| 0 <= i < items@.len() ==> !(#[trigger] items@[i] is PuzzleEntry)) ==> pos
            == 0,
{
    let mut i: usize = 0;
    while i < items.len()
        invariant
            i <= items@.len(),
            forall|j: int| 0 <= j < i ==> !(#[trigger] items@[j] is PuzzleEntry),
        decreases items@.len() - i,
    {
        if let MenuItem::PuzzleEntry(_) = items[i] {
            return i;
        }
        i = i + 1;
    }
    0
}

/// The last puzzle entry of the menu before line `sel`, if any.
pub open spec fn entry_before(menu: Seq<MenuLine>, sel: int) -> Option<int>
    decreases sel,
{
    if sel <= 0 {
        None
    } else if menu[sel - 1] is PuzzleEntry {
        Some(sel - 1)
    } else {
        entry_before(menu, sel - 1)
    }
}

/// The first puzzle entry of the menu after line `sel`, if any.
pub open spec fn entry_after(menu: Seq<MenuLine>, sel: int) -> Option<int>
    decreases menu.len() - sel,
{
    if sel + 1 >= menu.len() {
        None
    } else if menu[sel + 1] is PuzzleEntry {
        Some(sel + 1)
    } else {
        entry_after(menu, sel + 1)
    }
}

/// The entry before a line, where there is one, is a puzzle entry above it.
pub proof fn lemma_entry_before(menu: Seq<MenuLine>, sel: int)
    requires
        sel <= menu.len(),
    ensures
        entry_before(menu, sel) matches Some(j) ==> 0 <= j < sel && menu[j] is PuzzleEntry,
    decreases sel,
{
    if sel > 0 {
        lemma_entry_before(menu, sel - 1);
    }
}

/// The entry after a line, where there is one, is a puzzle entry below it.
pub proof fn lemma_entry_after(menu: Seq<MenuLine>, sel: int)
    requires
        0 <= sel,
    ensures
        entry_after(menu, sel) matches Some(j) ==> sel < j < menu.len() && menu[j] is PuzzleEntry,
    decreases menu.len() - sel,
{
    if sel + 1 < menu.len() {
        lemma_entry_after(menu, sel + 1);
    }
}

/// The menu has a line for every puzzle, ends with the entry of the last
/// one, and each entry names one of them.
pub proof fn lemma_menu_spec(sizes: Seq<(usize, usize)>)
    ensures
        menu_spec(sizes).len() >= sizes.len(),
        sizes.len() > 0 ==> menu_spec(sizes).last() == MenuLine::PuzzleEntry(
            (sizes.len() - 1) as usize,
        ),
        forall|j: int|
            0 <= j < menu_spec(sizes).len() && #[trigger] menu_spec(sizes)[j] is PuzzleEntry
                ==> menu_spec(sizes)[j]->PuzzleEntry_0 < sizes.len(),
    decreases sizes.len(),
{
    if sizes.len() > 0 {
        let prev = sizes.drop_last();
        lemma_menu_spec(prev);
        let m0 = menu_spec(prev);
        let m = menu_spec(sizes);
        assert forall|j: int| 0 <= j < m.len() && #[trigger] m[j] is PuzzleEntry implies m[j]->PuzzleEntry_0
            < sizes.len() by {
            if j < m0.len() {
                assert(m[j] == m0[j]);
            }
        }
    }
}

proof fn lemma_entry_before_last(menu: Seq<MenuLine>, sel: int, j: int)
    requires
        sel <= menu.len(),
        entry_before(menu, sel) == Some(j),
    ensures
        forall|k: int| j < k < sel ==> !(#[trigger] menu[k] is PuzzleEntry),
    decreases sel,
{
    if sel > 0 && !(menu[sel - 1] is PuzzleEntry) {
        lemma_entry_before_last(menu, sel - 1, j);
    }
}

proof fn lemma_entry_after_first(menu: Seq<MenuLine>, sel: int, j: int)
    requires
        0 <= sel,
        entry_after(menu, sel) == Some(j),
    ensures
        forall|k: int| sel < k < j ==> !(#[trigger] menu[k] is PuzzleEntry),
    decreases menu.len() - sel,
{
    if sel + 1 < menu.len() && !(menu[sel + 1] is PuzzleEntry) {
        lemma_entry_after_first(menu, sel + 1, j);
    }
}

proof fn lemma_entry_after_skips(menu: Seq<MenuLine>, from: int, to: int)
    requires
        0 <= from < to < menu.len(),
        menu[to] is PuzzleEntry,
        forall|k: int| from < k < to ==> !(#[trigger] menu[k] is PuzzleEntry),
    ensures
        entry_after(menu, from) == Some(to),
    decreases to - from,
{
    if from + 1 < to {
        lemma_entry_after_skips(menu, from + 1, to);
    }
}

proof fn lemma_entry_before_skips(menu: Seq<MenuLine>, from: int, to: int)
    requires
        0 <= to < from <= menu.len(),
        menu[to] is PuzzleEntry,
        forall|k: int| to < k < from ==> !(#[trigger] menu[k] is PuzzleEntry),
    ensures
        entry_before(menu, from) == Some(to),
    decreases from - to,
{
    if to + 1 < from {
        lemma_entry_before_skips(menu, from - 1, to);
    }
}

/// Moving the selection up to the previous puzzle and then down comes back
/// to where it was, as does moving down and then up.
pub proof fn lemma_menu_moves_undo(menu: Seq<MenuLine>, sel: int)
    requires
        0 <= sel < menu.len(),
        menu[sel] is PuzzleEntry,
    ensures
        entry_before(menu, sel) matches Some(j) ==> entry_after(menu, j) == Some(sel),
        entry_after(menu, sel) matches Some(j) ==> entry_before(menu, j) == Some(sel),
{
    lemma_entry_before(menu, sel);
    lemma_entry_after(menu, sel);
    if let Some(j) = entry_before(menu, sel) {
        lemma_entry_before_last(menu, sel, j);
        lemma_entry_after_skips(menu, j, sel);
    }
    if let Some(j) = entry_after(menu, sel) {
        lemma_entry_after_first(menu, sel, j);
        lemma_entry_before_skips(menu, j, sel);
    }
}

} // verus!
