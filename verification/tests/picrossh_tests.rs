use picrossh::app::{App, AppState};
use picrossh::clock::{format_clock, format_time};
use picrossh::controls::{command_for, is_playable, Command, Key};
use picrossh::generate::{generate, puzzle_from_draw};
use picrossh::menu::{build_menu_items, first_puzzle_entry, MenuItem};
use picrossh::non::{export_file_name, export_non, parse_non, write_non};
use picrossh::puzzle::{clue_satisfied, derive_clues, CellState, Puzzle};
use picrossh::save::BestTimes;
use picrossh::solver::{solve, solve_by_logic, solve_line, Cell};
use picrossh::screen::{
    centre, fits_area, grid_lines, grid_size, menu_list, playing_footer, playing_header, solved_message,
    splash_paint, Paint,
};
use std::time::Duration;

fn grid(rows: &[&str]) -> Vec<Vec<bool>> {
    rows.iter().map(|r| r.chars().map(|c| c == '#').collect()).collect()
}

fn clues_of_grid(g: &[Vec<bool>]) -> (Vec<Vec<usize>>, Vec<Vec<usize>>) {
    let rows: Vec<Vec<usize>> = g.iter().map(|r| derive_clues(r)).collect();
    let cols: Vec<Vec<usize>> = (0..g[0].len())
        .map(|c| {
            let col: Vec<bool> = g.iter().map(|r| r[c]).collect();
            derive_clues(&col)
        })
        .collect();
    (rows, cols)
}

fn menu_label(item: &MenuItem) -> String {
    match item {
        MenuItem::Header(s) => format!("H:{}", s),
        MenuItem::PuzzleEntry(i) => format!("P:{}", i),
    }
}

// ── clues ───────────────────────────────────────────────────────────────────

#[test]
fn derive_clues_counts_runs() {
    assert_eq!(derive_clues(&[true, true, false, true]), vec![2, 1]);
    assert_eq!(derive_clues(&[false, true, true, true, false, false, true, true]), vec![3, 2]);
    assert_eq!(derive_clues(&[true, true, true, true, true]), vec![5]);
}

#[test]
fn derive_clues_of_blank_line_is_zero() {
    assert_eq!(derive_clues(&[false, false, false]), vec![0]);
    assert_eq!(derive_clues(&[]), vec![0]);
}

#[test]
fn clue_satisfied_reads_filled_cells_only() {
    let (e, f, x) = (CellState::Empty, CellState::Filled, CellState::Crossed);
    assert!(clue_satisfied(&[f, f, x, f], &[2, 1]));
    assert!(!clue_satisfied(&[f, f, x, f], &[3]));
    assert!(clue_satisfied(&[e, x, e], &[0]));
    assert!(!clue_satisfied(&[e, x, e], &[]));
}

// ── puzzles ─────────────────────────────────────────────────────────────────

#[test]
fn puzzle_new_derives_clues() {
    let p = Puzzle::new("L", grid(&["#..", "#..", "###"]));
    assert_eq!(p.name, "L");
    assert_eq!(p.rows, 3);
    assert_eq!(p.cols, 3);
    assert_eq!(p.row_clues, vec![vec![1], vec![1], vec![3]]);
    assert_eq!(p.col_clues, vec![vec![3], vec![1], vec![1]]);
    assert_eq!(p.solution, Some(grid(&["#..", "#..", "###"])));
}

#[test]
fn puzzle_from_clues_has_no_picture() {
    let p = Puzzle::from_clues("C".to_string(), 2, 3, vec![vec![3], vec![1]], vec![vec![2], vec![1], vec![1]]);
    assert_eq!(p.name, "C");
    assert_eq!(p.rows, 2);
    assert_eq!(p.cols, 3);
    assert!(p.solution.is_none());
    assert_eq!(p.row_clues, vec![vec![3], vec![1]]);
    assert_eq!(p.col_clues, vec![vec![2], vec![1], vec![1]]);
}

#[test]
fn presets_are_the_thirteen_builtin_puzzles() {
    let ps = Puzzle::presets();
    let names: Vec<&str> = ps.iter().map(|p| p.name.as_str()).collect();
    assert_eq!(
        names,
        vec![
            "Plus", "Hourglass", "Diamond", "Steps", "Z Shape", "House", "Heart", "Arrow",
            "Letter T", "Ladder", "Frame", "Big Cross", "H Letter",
        ]
    );
    let sides: Vec<(usize, usize)> = ps.iter().map(|p| (p.rows, p.cols)).collect();
    let mut expected = vec![(5, 5); 5];
    expected.extend(vec![(10, 10); 5]);
    expected.extend(vec![(15, 15); 3]);
    assert_eq!(sides, expected);
    assert_eq!(ps[0].row_clues, vec![vec![1], vec![1], vec![5], vec![1], vec![1]]);
    assert_eq!(ps[0].col_clues, vec![vec![1], vec![1], vec![5], vec![1], vec![1]]);
    assert_eq!(ps[1].row_clues, vec![vec![5], vec![3], vec![1], vec![3], vec![5]]);
    assert_eq!(ps[10].row_clues[1], vec![1, 1]);
    for p in &ps {
        assert!(is_playable(p));
    }
}

// ── solver ──────────────────────────────────────────────────────────────────

#[test]
fn solve_finds_the_picture_of_every_preset() {
    for p in Puzzle::presets() {
        assert_eq!(solve(&p), p.solution.clone(), "preset {}", p.name);
    }
}

/// Every placement of `clue` in a line of `n` cells.
fn placements(n: usize, clue: &[usize]) -> Vec<Vec<bool>> {
    fn place(n: usize, clue: &[usize], pos: usize, line: Vec<bool>, out: &mut Vec<Vec<bool>>) {
        if clue.is_empty() {
            out.push(line);
            return;
        }
        let len = clue[0];
        let mut s = pos;
        while s + len <= n {
            let mut next = line.clone();
            for cell in next.iter_mut().skip(s).take(len) {
                *cell = true;
            }
            place(n, &clue[1..], s + len + 1, next, out);
            s += 1;
        }
    }
    if clue == [0] {
        return vec![vec![false; n]];
    }
    let mut out = Vec::new();
    place(n, clue, 0, vec![false; n], &mut out);
    out
}

/// Line logic alone, to a fixed point: each row and column keeps the cells
/// on which all its placements that agree with the grid agree.
fn line_logic(p: &Puzzle) -> Vec<Vec<Option<bool>>> {
    let mut g = vec![vec![None; p.cols]; p.rows];
    let row_ps: Vec<Vec<Vec<bool>>> = p.row_clues.iter().map(|c| placements(p.cols, c)).collect();
    let col_ps: Vec<Vec<Vec<bool>>> = p.col_clues.iter().map(|c| placements(p.rows, c)).collect();
    let mut changed = true;
    while changed {
        changed = false;
        for r in 0..p.rows {
            let fit: Vec<&Vec<bool>> = row_ps[r]
                .iter()
                .filter(|l| (0..p.cols).all(|c| g[r][c].map_or(true, |v| v == l[c])))
                .collect();
            for c in 0..p.cols {
                if g[r][c].is_none() && !fit.is_empty() && fit.iter().all(|l| l[c] == fit[0][c]) {
                    g[r][c] = Some(fit[0][c]);
                    changed = true;
                }
            }
        }
        for c in 0..p.cols {
            let fit: Vec<&Vec<bool>> = col_ps[c]
                .iter()
                .filter(|l| (0..p.rows).all(|r| g[r][c].map_or(true, |v| v == l[r])))
                .collect();
            for r in 0..p.rows {
                if g[r][c].is_none() && !fit.is_empty() && fit.iter().all(|l| l[r] == fit[0][r]) {
                    g[r][c] = Some(fit[0][r]);
                    changed = true;
                }
            }
        }
    }
    g
}

#[test]
fn presets_need_no_guessing() {
    for p in Puzzle::presets() {
        let g = line_logic(&p);
        let s = p.solution.clone().expect("picture");
        for r in 0..p.rows {
            for c in 0..p.cols {
                assert_eq!(g[r][c], Some(s[r][c]), "preset {} at ({}, {})", p.name, r, c);
            }
        }
    }
}

#[test]
fn presets_solve_by_logic_alone() {
    for p in Puzzle::presets() {
        assert_eq!(solve_by_logic(&p), p.solution.clone(), "preset {}", p.name);
    }
}

#[test]
fn logic_alone_stalls_on_an_ambiguous_puzzle() {
    let p = Puzzle::from_clues(
        "Diagonal".to_string(),
        2,
        2,
        vec![vec![1], vec![1]],
        vec![vec![1], vec![1]],
    );
    assert_eq!(solve_by_logic(&p), None);
    assert!(solve(&p).is_some());
}

#[test]
fn logic_alone_rejects_contradictory_clues() {
    let p = Puzzle::from_clues("Bad".to_string(), 1, 1, vec![vec![1]], vec![vec![0]]);
    assert_eq!(solve_by_logic(&p), None);
    assert_eq!(solve(&p), None);
}

#[test]
fn solve_line_marks_the_overlap() {
    let line = vec![Cell::Unknown; 5];
    let r = solve_line(&[3], &line).expect("fits");
    assert_eq!(r, vec![Cell::Unknown, Cell::Unknown, Cell::Filled, Cell::Unknown, Cell::Unknown]);
    let r = solve_line(&[1, 1], &[Cell::Unknown; 3]).expect("fits");
    assert_eq!(r, vec![Cell::Filled, Cell::Empty, Cell::Filled]);
    let r = solve_line(&[0], &[Cell::Unknown; 2]).expect("fits");
    assert_eq!(r, vec![Cell::Empty, Cell::Empty]);
}

#[test]
fn solve_line_rejects_a_line_that_cannot_fit() {
    assert_eq!(solve_line(&[0], &[Cell::Unknown, Cell::Filled]), None);
    assert_eq!(solve_line(&[3], &[Cell::Unknown, Cell::Empty, Cell::Unknown]), None);
    assert_eq!(solve_line(&[2, 2], &[Cell::Unknown; 4]), None);
}

#[test]
fn solve_line_settles_in_one_pass() {
    let lines: Vec<(Vec<usize>, Vec<Cell>)> = vec![
        (vec![3], vec![Cell::Unknown; 5]),
        (vec![1, 2], vec![Cell::Unknown, Cell::Filled, Cell::Unknown, Cell::Unknown, Cell::Unknown]),
        (vec![2], vec![Cell::Unknown, Cell::Unknown, Cell::Filled, Cell::Unknown]),
        (vec![4], vec![Cell::Unknown; 6]),
    ];
    for (clues, line) in lines {
        let once = solve_line(&clues, &line).expect("fits");
        assert_eq!(solve_line(&clues, &once), Some(once.clone()));
    }
}

#[test]
fn solve_picks_the_first_solution_in_reading_order() {
    let p = Puzzle::from_clues(
        "Diagonal".to_string(),
        2,
        2,
        vec![vec![1], vec![1]],
        vec![vec![1], vec![1]],
    );
    assert_eq!(solve(&p), Some(grid(&["#.", ".#"])));
    let q = Puzzle::from_clues(
        "Pairs".to_string(),
        2,
        3,
        vec![vec![1], vec![1]],
        vec![vec![1], vec![0], vec![1]],
    );
    assert_eq!(solve(&q), Some(grid(&["#..", "..#"])));
}

#[test]
fn solve_result_meets_every_clue() {
    for p in Puzzle::presets() {
        let s = solve(&p).expect("preset has a solution");
        let (rows, cols) = clues_of_grid(&s);
        assert_eq!(rows, p.row_clues);
        assert_eq!(cols, p.col_clues);
    }
}

#[test]
fn solve_works_from_clues_alone() {
    let p = Puzzle::from_clues(
        "T".to_string(),
        3,
        3,
        vec![vec![3], vec![1], vec![1]],
        vec![vec![1], vec![3], vec![1]],
    );
    assert_eq!(solve(&p), Some(grid(&["###", ".#.", ".#."])));
}

#[test]
fn solve_reports_contradictory_clues() {
    let p = Puzzle::from_clues("Bad".to_string(), 2, 2, vec![vec![2], vec![2]], vec![vec![0], vec![0]]);
    assert_eq!(solve(&p), None);
    let q = Puzzle::from_clues("Long".to_string(), 1, 2, vec![vec![3]], vec![vec![1], vec![1]]);
    assert_eq!(solve(&q), None);
}

#[test]
fn solve_needs_guessing_when_two_pictures_fit() {
    let p = Puzzle::from_clues("Two".to_string(), 2, 2, vec![vec![1], vec![1]], vec![vec![1], vec![1]]);
    let s = solve(&p).expect("two pictures fit");
    assert!(s == grid(&["#.", ".#"]) || s == grid(&[".#", "#."]));
}

// ── .non format ─────────────────────────────────────────────────────────────

#[test]
fn parse_non_reads_a_full_file() {
    let text = "catalogue \"x\"\ntitle \"Tee\"\nwidth 3\nheight 2\n\nrows\n3\n1\n\ncolumns\n1\n2\n1\n\ngoal\n111\n010\n";
    let p = parse_non(text).expect("valid file");
    assert_eq!(p.name, "Tee");
    assert_eq!(p.rows, 2);
    assert_eq!(p.cols, 3);
    assert_eq!(p.row_clues, vec![vec![3], vec![1]]);
    assert_eq!(p.col_clues, vec![vec![1], vec![2], vec![1]]);
    assert_eq!(p.solution, Some(vec![vec![true, true, true], vec![false, true, false]]));
}

#[test]
fn parse_non_without_goal_or_title() {
    let text = "# a comment\r\nrows\r\n 1, 1 \r\ncolumns\r\n1\r\n0\r\n1\r\n";
    let p = parse_non(text).expect("valid file");
    assert_eq!(p.name, "Untitled");
    assert_eq!(p.rows, 1);
    assert_eq!(p.cols, 3);
    assert_eq!(p.row_clues, vec![vec![1, 1]]);
    assert!(p.solution.is_none());
}

#[test]
fn parse_non_errors() {
    assert_eq!(parse_non("rows\n1,x\ncolumns\n1\n").err(), Some("Invalid clue value: 'x'".to_string()));
    assert_eq!(parse_non("title \"a\"\n").err(), Some("No row clues found in puzzle file".to_string()));
    assert_eq!(parse_non("rows\n1\n").err(), Some("No column clues found in puzzle file".to_string()));
    assert_eq!(
        parse_non("rows\n1\ncolumns\n1\ngoal\nab\n").err(),
        Some("Empty or invalid goal row: 'ab'".to_string())
    );
    assert_eq!(
        parse_non("rows\n1\n1\ncolumns\n1\ngoal\n1\n").err(),
        Some("Goal has 1 rows but puzzle has 2 rows".to_string())
    );
    assert_eq!(
        parse_non("rows\n1\n1\ncolumns\n1\ngoal\n1\n10\n").err(),
        Some("Goal row 1 has 2 cells but puzzle has 1 columns".to_string())
    );
    assert_eq!(parse_non("rows\n-1\ncolumns\n1\n").err(), Some("Invalid clue value: '-1'".to_string()));
    assert_eq!(parse_non("rows\n\t\ncolumns\n1\n").err(), Some("No row clues found in puzzle file".to_string()));
    assert_eq!(parse_non("rows\n1,\ncolumns\n1\n").err(), Some("Invalid clue value: ''".to_string()));
}

#[test]
fn parse_non_accepts_plus_sign_clues() {
    let p = parse_non("rows\n+2\ncolumns\n1\n1\n").expect("valid");
    assert_eq!(p.row_clues, vec![vec![2]]);
}

#[test]
fn write_non_text() {
    let p = Puzzle::new("Tee", grid(&["###", ".#."]));
    assert_eq!(
        write_non(&p),
        "title \"Tee\"\n\nrows\n3\n1\n\ncolumns\n1\n2\n1\n\ngoal\n111\n010\n"
    );
    let q = Puzzle::from_clues("C".to_string(), 1, 2, vec![vec![1, 0]], vec![vec![1], vec![0]]);
    assert_eq!(write_non(&q), "title \"C\"\n\nrows\n1,0\n\ncolumns\n1\n0\n");
}

#[test]
fn write_then_parse_gives_back_each_preset() {
    for p in Puzzle::presets() {
        let q = parse_non(&write_non(&p)).expect("written file reads back");
        assert_eq!(q.name, p.name);
        assert_eq!(q.rows, p.rows);
        assert_eq!(q.cols, p.cols);
        assert_eq!(q.row_clues, p.row_clues);
        assert_eq!(q.col_clues, p.col_clues);
        assert_eq!(q.solution, p.solution);
    }
}

// ── best times ──────────────────────────────────────────────────────────────

#[test]
fn best_times_insert_and_get() {
    let mut t = BestTimes::new();
    assert_eq!(t.len(), 0);
    assert_eq!(t.get("Plus"), None);
    t.insert("Plus", 5000);
    t.insert("Arrow", 700);
    t.insert("Plus", 4000);
    assert_eq!(t.len(), 2);
    assert_eq!(t.get("Plus"), Some(4000));
    assert_eq!(t.get("Arrow"), Some(700));
    assert!(t.contains("Arrow"));
    assert!(!t.contains("Heart"));
}

#[test]
fn best_times_format_in_name_order() {
    let mut t = BestTimes::new();
    t.insert("Plus", 5000);
    t.insert("Arrow", 700);
    t.insert("House", 12);
    assert_eq!(t.format(), "Arrow\t700\nHouse\t12\nPlus\t5000\n");
    assert_eq!(BestTimes::new().format(), "");
}

#[test]
fn best_times_parse_skips_bad_lines() {
    let t = BestTimes::parse("Plus\t5000\r\nbroken line\nHeart\tabc\nArrow\t+12\nX\tMark\t3\nPlus\t4000");
    assert_eq!(t.len(), 2);
    assert_eq!(t.get("Plus"), Some(4000));
    assert_eq!(t.get("Arrow"), Some(12));
    assert_eq!(t.get("Heart"), None);
    assert_eq!(t.get("X"), None);
}

#[test]
fn best_times_parse_keeps_a_lone_carriage_return_at_the_end() {
    let t = BestTimes::parse("Plus\t5\r");
    assert_eq!(t.get("Plus"), None);
    let u = BestTimes::parse("Plus\t5\r\n");
    assert_eq!(u.get("Plus"), Some(5));
}

#[test]
fn best_times_parse_overflow_is_skipped() {
    let t = BestTimes::parse("A\t18446744073709551615\nB\t18446744073709551616\n");
    assert_eq!(t.get("A"), Some(u64::MAX));
    assert_eq!(t.get("B"), None);
}

#[test]
fn best_times_format_then_parse_round_trip() {
    let mut t = BestTimes::new();
    t.insert("Random 5\u{d7}5", 1234);
    t.insert("Heart", 99);
    let u = BestTimes::parse(&t.format());
    assert_eq!(u.len(), 2);
    assert_eq!(u.get("Random 5\u{d7}5"), Some(1234));
    assert_eq!(u.get("Heart"), Some(99));
    assert_eq!(u.format(), t.format());
}

// ── random puzzles ──────────────────────────────────────────────────────────

#[test]
fn generate_gives_a_square_picture_with_a_filled_cell() {
    for size in [1usize, 3, 10] {
        let p = generate(size);
        assert_eq!(p.rows, size);
        assert_eq!(p.cols, size);
        assert_eq!(p.name, format!("Random {}\u{d7}{}", size, size));
        let s = p.solution.clone().expect("picture");
        assert!(s.iter().any(|r| r.iter().any(|&b| b)));
        let (rows, cols) = clues_of_grid(&s);
        assert_eq!(rows, p.row_clues);
        assert_eq!(cols, p.col_clues);
    }
}

#[test]
fn generate_of_zero_is_one_by_one() {
    let p = generate(0);
    assert_eq!(p.rows, 1);
    assert_eq!(p.cols, 1);
    assert_eq!(p.name, "Random 1\u{d7}1");
    assert_eq!(p.solution, Some(vec![vec![true]]));
}

#[test]
fn puzzle_from_draw_rejects_blank_grids() {
    assert!(puzzle_from_draw(2, vec![vec![false, false], vec![false, false]]).is_none());
    let p = puzzle_from_draw(2, vec![vec![false, true], vec![false, false]]).expect("playable");
    assert_eq!(p.name, "Random 2\u{d7}2");
    assert_eq!(p.row_clues, vec![vec![1], vec![0]]);
    assert_eq!(p.col_clues, vec![vec![0], vec![1]]);
}

// ── clock ───────────────────────────────────────────────────────────────────

#[test]
fn format_clock_pads_minutes_and_seconds() {
    assert_eq!(format_clock(0), "00:00");
    assert_eq!(format_clock(65), "01:05");
    assert_eq!(format_clock(599), "09:59");
    assert_eq!(format_clock(3600), "60:00");
    assert_eq!(format_clock(6000), "100:00");
}

#[test]
fn format_time_uses_whole_seconds() {
    assert_eq!(format_time(Duration::from_millis(125_999)), "02:05");
    assert_eq!(format_time(Duration::ZERO), "00:00");
}

// ── menu ────────────────────────────────────────────────────────────────────

#[test]
fn menu_groups_puzzles_by_size() {
    let items = build_menu_items(&Puzzle::presets());
    let labels: Vec<String> = items.iter().map(menu_label).collect();
    assert_eq!(
        labels,
        vec![
            "H:\u{2500}\u{2500} 5\u{d7}5 \u{2500}\u{2500}",
            "P:0",
            "P:1",
            "P:2",
            "P:3",
            "P:4",
            "H:\u{2500}\u{2500} 10\u{d7}10 \u{2500}\u{2500}",
            "P:5",
            "P:6",
            "P:7",
            "P:8",
            "P:9",
            "H:\u{2500}\u{2500} 15\u{d7}15 \u{2500}\u{2500}",
            "P:10",
            "P:11",
            "P:12",
        ]
    );
    assert_eq!(first_puzzle_entry(&items), 1);
}

#[test]
fn first_puzzle_entry_without_entries_is_zero() {
    assert_eq!(first_puzzle_entry(&[]), 0);
    assert_eq!(first_puzzle_entry(&[MenuItem::Header("a".to_string())]), 0);
    assert_eq!(
        first_puzzle_entry(&[MenuItem::Header("a".to_string()), MenuItem::Header("b".to_string()), MenuItem::PuzzleEntry(7)]),
        2
    );
}

#[test]
fn menu_heading_for_each_new_size() {
    let a = Puzzle::new("a", grid(&["#"]));
    let b = Puzzle::new("b", grid(&["##"]));
    let c = Puzzle::new("c", grid(&["#"]));
    let labels: Vec<String> = build_menu_items(&[a, b, c]).iter().map(menu_label).collect();
    assert_eq!(
        labels,
        vec![
            "H:\u{2500}\u{2500} 1\u{d7}1 \u{2500}\u{2500}",
            "P:0",
            "H:\u{2500}\u{2500} 1\u{d7}2 \u{2500}\u{2500}",
            "P:1",
            "H:\u{2500}\u{2500} 1\u{d7}1 \u{2500}\u{2500}",
            "P:2",
        ]
    );
    assert!(build_menu_items(&[]).is_empty());
}

// ── game ────────────────────────────────────────────────────────────────────

fn fresh_app() -> App {
    App::new(BestTimes::new())
}

fn all_empty(app: &App) -> bool {
    app.board.iter().all(|r| r.iter().all(|&c| c == CellState::Empty))
}

#[test]
fn app_new_starts_at_the_splash_screen() {
    let app = fresh_app();
    assert!(app.state == AppState::Splash);
    assert_eq!(app.puzzles.len(), 13);
    assert_eq!(app.menu_selection, 1);
    assert_eq!(app.menu_items.len(), 16);
    assert!(app.board.is_empty());
    assert!(app.solved_puzzles.is_empty());
    assert!(app.start_time.is_none());
    assert_eq!(app.elapsed, Duration::ZERO);
    assert_eq!(app.puzzle_display_name(0), "Puzzle 1");
    assert_eq!(app.puzzle_display_name(12), "Puzzle 13");
}

#[test]
fn app_new_marks_puzzles_with_best_times_solved() {
    let mut t = BestTimes::new();
    t.insert("Heart", 4321);
    t.insert("Unknown", 1);
    let app = App::new(t);
    assert!(app.solved_puzzles.contains(&6));
    assert_eq!(app.solved_puzzles.len(), 1);
    assert_eq!(app.puzzle_display_name(6), "Heart");
    assert_eq!(app.best_time_ms(6), Some(4321));
    assert_eq!(app.best_time_ms(0), None);
}

#[test]
fn load_puzzle_gives_an_empty_board() {
    let mut app = fresh_app();
    app.load_puzzle(5);
    assert!(app.state == AppState::Playing);
    assert_eq!(app.current_puzzle_index, 5);
    assert_eq!(app.board.len(), 10);
    assert!(app.board.iter().all(|r| r.len() == 10));
    assert!(all_empty(&app));
    assert_eq!((app.cursor_row, app.cursor_col), (0, 0));
    assert!(app.start_time.is_some());
    assert_eq!(app.elapsed, Duration::ZERO);
}

#[test]
fn move_cursor_stops_at_the_edges() {
    let mut app = fresh_app();
    app.load_puzzle(0);
    app.move_cursor(-1, -1);
    assert_eq!((app.cursor_row, app.cursor_col), (0, 0));
    app.move_cursor(2, 3);
    assert_eq!((app.cursor_row, app.cursor_col), (2, 3));
    app.move_cursor(10, 10);
    assert_eq!((app.cursor_row, app.cursor_col), (4, 4));
    app.move_cursor(-3, 0);
    assert_eq!((app.cursor_row, app.cursor_col), (1, 4));
}

#[test]
fn fill_erase_and_cross_cells() {
    let mut app = fresh_app();
    app.load_puzzle(0);
    app.fill_cell();
    assert_eq!(app.board[0][0], CellState::Filled);
    assert!(app.last_fill_time.is_some());
    assert!(app.last_cross_time.is_none());
    app.toggle_cross();
    assert_eq!(app.board[0][0], CellState::Crossed);
    assert!(app.last_cross_time.is_some());
    assert!(app.last_fill_time.is_none());
    app.toggle_cross();
    assert_eq!(app.board[0][0], CellState::Empty);
    app.fill_cell();
    app.erase_cell();
    assert_eq!(app.board[0][0], CellState::Empty);
    assert!(app.last_fill_time.is_none());
    assert!(app.last_cross_time.is_none());
    assert!(app.last_erase_time.is_some());
    app.fill_cell();
    assert!(app.last_erase_time.is_none());
}

#[test]
fn paint_held_paints_the_landing_cell() {
    let mut app = fresh_app();
    app.load_puzzle(0);
    app.move_cursor(1, 1);
    let now = std::time::Instant::now();
    app.paint_held(now, true, true, true);
    assert_eq!(app.board[1][1], CellState::Filled);
    assert_eq!(app.last_fill_time, Some(now));
    app.move_cursor(0, 1);
    app.paint_held(now, false, true, true);
    assert_eq!(app.board[1][2], CellState::Crossed);
    assert_eq!(app.last_cross_time, Some(now));
    app.move_cursor(0, -1);
    app.paint_held(now, false, false, true);
    assert_eq!(app.board[1][1], CellState::Empty);
    assert_eq!(app.last_erase_time, Some(now));
    app.move_cursor(0, 2);
    app.paint_held(now, false, false, false);
    assert_eq!(app.board[1][3], CellState::Empty);
}

#[test]
fn move_and_apply_paints_right_after_a_fill() {
    let mut app = fresh_app();
    app.load_puzzle(0);
    app.fill_cell();
    app.move_and_apply(0, 1);
    assert_eq!((app.cursor_row, app.cursor_col), (0, 1));
    // The move follows the fill within the hold time.
    assert_eq!(app.board[0][1], CellState::Filled);
    // Holding the erase while moving empties the landing cell.
    app.move_cursor(0, 1);
    app.fill_cell();
    app.move_cursor(0, -1);
    app.erase_cell();
    app.move_and_apply(0, 1);
    assert_eq!(app.board[0][1], CellState::Empty);
    assert_eq!(app.board[0][2], CellState::Empty);
    let mut quiet = fresh_app();
    quiet.load_puzzle(0);
    quiet.move_and_apply(1, 0);
    assert_eq!(quiet.board[1][0], CellState::Empty);
}

#[test]
fn reset_board_empties_every_cell() {
    let mut app = fresh_app();
    app.load_puzzle(0);
    app.fill_cell();
    app.move_cursor(1, 1);
    app.toggle_cross();
    app.reset_board();
    assert!(all_empty(&app));
    assert_eq!((app.cursor_row, app.cursor_col), (1, 1));
}

fn solve_plus(app: &mut App) -> bool {
    let mut save = false;
    for (r, c) in [(0, 2), (1, 2), (2, 0), (2, 1), (2, 2), (2, 3), (2, 4), (3, 2), (4, 2)] {
        app.cursor_row = r;
        app.cursor_col = c;
        app.fill_cell();
        save = app.check_solved();
    }
    save
}

#[test]
fn check_solved_waits_for_the_whole_picture() {
    let mut app = fresh_app();
    app.load_puzzle(0);
    app.cursor_col = 2;
    app.fill_cell();
    assert!(!app.check_solved());
    assert!(app.state == AppState::Playing);
    assert!(app.solved_puzzles.is_empty());
}

#[test]
fn check_solved_records_the_first_time() {
    let mut app = fresh_app();
    app.load_puzzle(0);
    assert!(solve_plus(&mut app));
    assert!(app.state == AppState::Solved);
    assert!(app.solved_puzzles.contains(&0));
    assert!(app.best_time_ms(0).is_some());
    assert_eq!(app.puzzle_display_name(0), "Plus");
}

#[test]
fn check_solved_records_the_time_on_the_clock() {
    let mut app = fresh_app();
    app.load_puzzle(0);
    app.start_time = Some(std::time::Instant::now() - Duration::from_secs(2));
    assert!(solve_plus(&mut app));
    assert!(app.elapsed >= Duration::from_secs(2));
    assert_eq!(app.best_time_ms(0), Some(app.elapsed.as_millis() as u64));
    assert_eq!(app.shown_elapsed(), app.elapsed);
}

#[test]
fn shown_elapsed_is_frozen_once_solved() {
    let mut app = fresh_app();
    assert_eq!(app.shown_elapsed(), Duration::ZERO);
    app.load_puzzle(0);
    app.state = AppState::Solved;
    app.elapsed = Duration::from_millis(65_432);
    assert_eq!(app.shown_elapsed(), Duration::from_millis(65_432));
    app.state = AppState::Playing;
    app.start_time = None;
    assert_eq!(app.shown_elapsed(), Duration::ZERO);
}

#[test]
fn check_solved_with_a_crossed_cell_still_counts() {
    let mut app = fresh_app();
    app.load_puzzle(0);
    app.cursor_row = 0;
    app.cursor_col = 0;
    app.toggle_cross();
    assert!(solve_plus(&mut app));
    assert!(app.state == AppState::Solved);
}

#[test]
fn check_solved_on_a_puzzle_without_picture_uses_the_clues() {
    let p = Puzzle::from_clues("Two".to_string(), 2, 2, vec![vec![1], vec![1]], vec![vec![1], vec![1]]);
    let mut app = App::with_puzzle(p, BestTimes::new());
    assert!(app.state == AppState::Playing);
    app.fill_cell();
    assert!(!app.check_solved());
    app.cursor_row = 1;
    app.cursor_col = 1;
    app.fill_cell();
    assert!(app.check_solved());
    assert!(app.state == AppState::Solved);
}

#[test]
fn record_solve_keeps_the_best_time() {
    let mut t = BestTimes::new();
    t.insert("Plus", 1000);
    let mut app = App::new(t);
    app.load_puzzle(0);
    assert!(!app.record_solve(1500));
    assert_eq!(app.best_time_ms(0), Some(1000));
    assert!(app.state == AppState::Solved);
    assert!(app.record_solve(900));
    assert_eq!(app.best_time_ms(0), Some(900));
    assert!(!app.record_solve(900));
    assert_eq!(app.best_times.get("Plus"), Some(900));
}

#[test]
fn menu_moves_skip_headings() {
    let mut app = fresh_app();
    assert_eq!(app.menu_selection, 1);
    app.menu_up();
    assert_eq!(app.menu_selection, 1);
    app.menu_down();
    assert_eq!(app.menu_selection, 2);
    for _ in 0..3 {
        app.menu_down();
    }
    assert_eq!(app.menu_selection, 5);
    app.menu_down();
    assert_eq!(app.menu_selection, 7);
    app.menu_up();
    assert_eq!(app.menu_selection, 5);
    for _ in 0..20 {
        app.menu_down();
    }
    assert_eq!(app.menu_selection, 15);
    app.menu_up();
    app.menu_down();
    assert_eq!(app.menu_selection, 15);
}

#[test]
fn next_puzzle_wraps_around() {
    let mut app = fresh_app();
    app.load_puzzle(11);
    app.next_puzzle();
    assert_eq!(app.current_puzzle_index, 12);
    app.next_puzzle();
    assert_eq!(app.current_puzzle_index, 0);
    assert_eq!(app.board.len(), 5);
    assert!(app.state == AppState::Playing);
}

#[test]
fn fits_area_compares_both_sides() {
    assert!(fits_area((40, 20), 40, 20));
    assert!(fits_area((40, 20), 80, 24));
    assert!(!fits_area((41, 20), 40, 20));
    assert!(!fits_area((40, 21), 40, 20));
    assert!(!fits_area((usize::MAX, 1), u16::MAX, u16::MAX));
}

#[test]
fn live_elapsed_is_zero_before_a_round() {
    let app = fresh_app();
    assert_eq!(app.live_elapsed(), Duration::ZERO);
}

// ── controls ────────────────────────────────────────────────────────────────

#[test]
fn command_table() {
    assert_eq!(command_for(AppState::Splash, Key::Other), Command::Show(AppState::Menu));
    assert_eq!(command_for(AppState::Menu, Key::Char('k')), Command::MenuUp);
    assert_eq!(command_for(AppState::Menu, Key::Down), Command::MenuDown);
    assert_eq!(command_for(AppState::Menu, Key::Enter), Command::PlaySelected);
    assert_eq!(command_for(AppState::Menu, Key::Char(' ')), Command::PlaySelected);
    assert_eq!(command_for(AppState::Menu, Key::Esc), Command::Nothing);
    assert_eq!(command_for(AppState::Playing, Key::Char('l')), Command::Step(0, 1));
    assert_eq!(command_for(AppState::Playing, Key::ShiftUp), Command::Jump(-5, 0));
    assert_eq!(command_for(AppState::Playing, Key::Char('J')), Command::Jump(5, 0));
    assert_eq!(command_for(AppState::Playing, Key::Char('$')), Command::LastColumn);
    assert_eq!(command_for(AppState::Playing, Key::Char('E')), Command::Erase);
    assert_eq!(command_for(AppState::Playing, Key::Char('X')), Command::Cross);
    assert_eq!(command_for(AppState::Playing, Key::Char('n')), Command::Nothing);
    assert_eq!(command_for(AppState::Solved, Key::Char('n')), Command::NextPuzzle);
    assert_eq!(command_for(AppState::Solved, Key::Char(' ')), Command::Nothing);
    assert_eq!(command_for(AppState::Quit, Key::Char('q')), Command::Nothing);
    assert_eq!(command_for(AppState::Solved, Key::Char('q')), Command::Show(AppState::Quit));
}

#[test]
fn keys_drive_a_whole_round() {
    let mut app = fresh_app();
    assert!(!app.handle_key(Key::Char('z')));
    assert!(app.state == AppState::Menu);
    app.handle_key(Key::Enter);
    assert!(app.state == AppState::Playing);
    assert_eq!(app.current_puzzle_index, 0);
    // Row 0: the single cell at column 2.
    app.handle_key(Key::Char('l'));
    app.handle_key(Key::Char('l'));
    let mut saved = app.handle_key(Key::Char(' '));
    for (row_moves, col_target) in [(1, 2), (1, 0)] {
        for _ in 0..row_moves {
            app.handle_key(Key::Char('j'));
        }
        app.cursor_col = col_target;
        saved = app.handle_key(Key::Char(' '));
    }
    assert_eq!((app.cursor_row, app.cursor_col), (2, 0));
    for _ in 0..4 {
        app.handle_key(Key::Right);
        saved = app.handle_key(Key::Char(' '));
    }
    app.handle_key(Key::Char('G'));
    app.handle_key(Key::Char('0'));
    app.handle_key(Key::Char('$'));
    assert_eq!((app.cursor_row, app.cursor_col), (4, 4));
    app.cursor_col = 2;
    saved = app.handle_key(Key::Char(' ')) || saved;
    app.handle_key(Key::Up);
    app.cursor_col = 2;
    saved = app.handle_key(Key::Char(' ')) || saved;
    assert!(app.state == AppState::Solved);
    assert!(saved);
    app.handle_key(Key::Char('n'));
    assert!(app.state == AppState::Playing);
    assert_eq!(app.current_puzzle_index, 1);
    app.handle_key(Key::Esc);
    assert!(app.state == AppState::Menu);
    app.handle_key(Key::Char('q'));
    assert!(app.state == AppState::Quit);
}

#[test]
fn keys_jump_and_reset() {
    let mut app = fresh_app();
    app.handle_key(Key::Other);
    for _ in 0..5 {
        app.handle_key(Key::Char('j'));
    }
    assert_eq!(app.menu_selection, 7);
    app.handle_key(Key::Char(' '));
    assert_eq!(app.current_puzzle_index, 5);
    app.handle_key(Key::ShiftDown);
    app.handle_key(Key::Char('L'));
    assert_eq!((app.cursor_row, app.cursor_col), (5, 5));
    app.handle_key(Key::ShiftDown);
    assert_eq!(app.cursor_row, 9);
    app.handle_key(Key::Char('x'));
    assert_eq!(app.board[9][5], CellState::Crossed);
    app.handle_key(Key::Char('g'));
    assert_eq!(app.cursor_row, 0);
    app.handle_key(Key::Char('r'));
    assert!(all_empty(&app));
    app.handle_key(Key::Char(' '));
    app.handle_key(Key::Char('e'));
    assert!(all_empty(&app));
}

// ── screens ─────────────────────────────────────────────────────────────────


fn line_text(line: &[(String, Paint)]) -> String {
    line.iter().map(|(s, _)| s.as_str()).collect()
}

#[test]
fn splash_paints_by_line() {
    let paints: Vec<Paint> = (0..15).map(splash_paint).collect();
    assert_eq!(paints[0], Paint::Plain);
    assert!(paints[1..=6].iter().all(|p| *p == Paint::Logo));
    assert_eq!(paints[7], Paint::Plain);
    assert_eq!(paints[8], Paint::Tagline);
    assert_eq!(paints[9], Paint::Plain);
    assert!(paints[11..=13].iter().all(|p| *p == Paint::Prompt));
    assert_eq!(paints[14], Paint::Plain);
}

#[test]
fn centre_splits_the_room_left_over() {
    assert_eq!(centre(0, 80, 60), 10);
    assert_eq!(centre(3, 81, 60), 13);
    assert_eq!(centre(5, 10, 20), 5);
}

#[test]
fn screen_texts() {
    assert_eq!(playing_header("Puzzle 1", "00:05"), "PICROSSH   \u{2502}   Puzzle 1   \u{2502}   00:05");
    assert_eq!(playing_footer(AppState::Solved), "SOLVED!   Esc = menu   n = next   q = quit");
    assert_eq!(
        playing_footer(AppState::Playing),
        "Space = fill   x = cross   r = reset   hjkl / arrows = move   g/G = top/bot   Esc = menu"
    );
    assert_eq!(
        solved_message("Plus", "01:02"),
        "\n  \u{2726}  SOLVED!  \u{2726}\n\n  Plus\n\n  Time: 01:02\n"
    );
}

#[test]
fn menu_list_shows_names_once_solved() {
    let mut t = BestTimes::new();
    t.insert("Heart", 10);
    let app = App::new(t);
    let list = menu_list(&app);
    assert_eq!(list.len(), 16);
    assert_eq!(list[0], ("  \u{2500}\u{2500} 5\u{d7}5 \u{2500}\u{2500}".to_string(), Paint::Heading));
    assert_eq!(list[1], ("    Puzzle 1 (5\u{d7}5)".to_string(), Paint::OpenEntry));
    assert_eq!(list[8], ("  \u{2713} Heart (10\u{d7}10)".to_string(), Paint::SolvedEntry));
    assert_eq!(list[15], ("    Puzzle 13 (15\u{d7}15)".to_string(), Paint::OpenEntry));
}

#[test]
fn grid_size_of_presets() {
    let ps = Puzzle::presets();
    assert_eq!(grid_size(&ps[0]), (19, 13));
    // House: the widest row clue, "2 4 2", is five wide; the longest column clue has two numbers.
    assert_eq!(ps[5].row_clues[6], vec![2, 4, 2]);
    assert_eq!(ps[5].col_clues[3], vec![4, 4]);
    assert_eq!(grid_size(&ps[5]), (5 + 2 + 29 + 2, 2 + 2 + 20));
}

#[test]
fn grid_lines_of_a_small_board() {
    let p = Puzzle::new("d", grid(&["#.", ".#"]));
    let mut app = App::with_puzzle(p, BestTimes::new());
    let lines = grid_lines(&app);
    let texts: Vec<String> = lines.iter().map(|l| line_text(l)).collect();
    assert_eq!(
        texts,
        vec![
            "    1  1",
            "  \u{2500}\u{252c}\u{2500}\u{2500}\u{252c}\u{2500}\u{2500}\u{2500}",
            "  \u{250c}\u{2500}\u{2500}\u{252c}\u{2500}\u{2500}\u{2510}",
            "1 \u{2502}  \u{2502}  \u{2502}",
            "  \u{251c}\u{2500}\u{2500}\u{253c}\u{2500}\u{2500}\u{2524}",
            "1 \u{2502}  \u{2502}  \u{2502}",
            "  \u{2514}\u{2500}\u{2500}\u{2534}\u{2500}\u{2500}\u{2518}",
        ]
    );
    assert_eq!(lines.len(), grid_size(&app.puzzles[0]).1);
    assert_eq!(lines[3][3], ("  ".to_string(), Paint::EmptyCursor));
    assert_eq!(lines[5][3], ("  ".to_string(), Paint::EmptyCell));
    assert_eq!(lines[0][2], (" 1".to_string(), Paint::Clue));
    app.fill_cell();
    let lines = grid_lines(&app);
    assert_eq!(lines[3][3], ("\u{2588}\u{2588}".to_string(), Paint::FilledCursor));
    assert_eq!(lines[3][0], ("1".to_string(), Paint::ClueMet));
    assert_eq!(lines[5][0], ("1".to_string(), Paint::Clue));
    assert_eq!(lines[0][2], (" 1".to_string(), Paint::ClueMet));
    assert_eq!(lines[0][4], (" 1".to_string(), Paint::Clue));
    app.move_cursor(1, 1);
    app.toggle_cross();
    let lines = grid_lines(&app);
    assert_eq!(lines[5][5], (" X".to_string(), Paint::CrossedCursor));
    assert_eq!(lines[3][3], ("\u{2588}\u{2588}".to_string(), Paint::FilledCell));
}

#[test]
fn grid_lines_stack_column_clues_at_the_bottom() {
    let p = Puzzle::new("s", grid(&["#", ".", "#", "#"]));
    let app = App::with_puzzle(p, BestTimes::new());
    let lines = grid_lines(&app);
    assert_eq!(line_text(&lines[0]), "    1");
    assert_eq!(line_text(&lines[1]), "    2");
    assert_eq!(line_text(&lines[2]), "  \u{2500}\u{252c}\u{2500}\u{2500}\u{2500}");
    assert_eq!(line_text(&lines[4]), "1 \u{2502}  \u{2502}");
    assert_eq!(line_text(&lines[6]), "0 \u{2502}  \u{2502}");
    assert_eq!(lines.len(), 2 + 2 + 4 * 2);
}

// ── export ──────────────────────────────────────────────────────────────────

#[test]
fn export_non_writes_size_and_clues() {
    let p = Puzzle::new("Tee", grid(&["###", ".#."]));
    assert_eq!(
        export_non(&p),
        "title Tee\nwidth 3\nheight 2\nrows\n3\n1\ncolumns\n1\n2\n1\n"
    );
}

#[test]
fn export_file_names() {
    assert_eq!(export_file_name("X Mark"), "x_mark.non");
    assert_eq!(export_file_name("House"), "house.non");
    assert_eq!(export_file_name("ÀB C"), "àb_c.non");
}

#[test]
fn export_then_parse_gives_back_the_clues() {
    for p in Puzzle::presets() {
        let q = parse_non(&export_non(&p)).expect("export reads back");
        assert_eq!(q.name, p.name);
        assert_eq!(q.rows, p.rows);
        assert_eq!(q.cols, p.cols);
        assert_eq!(q.row_clues, p.row_clues);
        assert_eq!(q.col_clues, p.col_clues);
        assert!(q.solution.is_none());
    }
}

// ── laws on concrete values ─────────────────────────────────────────────────

#[test]
fn clue_of_reversed_line_is_reversed() {
    let line = [true, false, true, true, true, false, false, true, true];
    let mut rev = line.to_vec();
    rev.reverse();
    let mut clue = derive_clues(&line);
    assert_eq!(clue, vec![1, 3, 2]);
    clue.reverse();
    assert_eq!(derive_clues(&rev), clue);
}

#[test]
fn clues_join_across_a_blank() {
    let a = [false, true, true];
    let b = [true, false, true];
    let mut joined = a.to_vec();
    joined.push(false);
    joined.extend_from_slice(&b);
    let mut expected = derive_clues(&a);
    expected.extend(derive_clues(&b));
    assert_eq!(derive_clues(&joined), expected);
    assert_eq!(expected, vec![2, 1, 1]);
}

#[test]
fn format_time_of_whole_seconds() {
    assert_eq!(format_time(Duration::from_secs(125)), "02:05");
    assert_eq!(format_time(Duration::from_secs(3600)), "60:00");
}
