# picrossh

A terminal nonogram (picross) game. The game's logic is a library verified
with Verus; a thin program around it draws the screens, reads the keys and
keeps the best times on disk.

## Layout

- `src/` — the verified library
  - `puzzle.rs`: cells, puzzles, clues of a picture, the built-in puzzles
  - `solver.rs`: line logic alone, and with backtracking; sound and complete
  - `non.rs`: the `.non` text format (read, write, export)
  - `text.rs`: the string and number helpers the formats are built on
  - `save.rs`: best times and their text form
  - `generate.rs`: random puzzles
  - `menu.rs`, `app.rs`, `controls.rs`: the game state and its moves
  - `clock.rs`, `screen.rs`: times as `MM:SS` and the texts of the screens
- `tests/` — tests of the library
- `app/` — the program: command line (`play`, `generate`, `solve`,
  `export-non`), terminal loop, drawing, the best-times file
