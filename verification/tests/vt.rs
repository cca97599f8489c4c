//! Engine frames, parsed into cells.

use nirisaver::grid::{Cell, Grid};
use nirisaver::vt::{apply_sgr, xterm_256, Parser, Pen};

fn parse(frame: &str, cols: usize, rows: usize) -> Grid {
    let mut grid = Grid::new(cols, rows);
    Parser::new(Cell::DEFAULT_FG).parse_into(frame, &mut grid);
    grid
}

#[test]
fn plain_rows_land_top_first() {
    let grid = parse("ab\ncd", 2, 2);
    assert_eq!(grid.get(0, 0).ch, 'a');
    assert_eq!(grid.get(1, 0).ch, 'b');
    assert_eq!(grid.get(0, 1).ch, 'c');
    assert_eq!(grid.get(1, 1).ch, 'd');
}

#[test]
fn true_colour_runs_colour_exactly_one_cell() {
    let grid = parse(" \x1b[38;2;12;34;56mX\x1b[0m ", 3, 1);
    assert_eq!(grid.get(0, 0), Cell::blank());
    assert_eq!(grid.get(1, 0), Cell { ch: 'X', fg: [12, 34, 56], bg: None, bold: false });
    assert_eq!(grid.get(2, 0), Cell::blank());
}

#[test]
fn a_block_symbol_occupies_one_cell() {
    // The engine's layout invariant, and the reason there is no width
    // table: a wcwidth-2 symbol here would shift the whole row.
    let grid = parse("\x1b[38;2;255;255;255m▌\x1b[0mX", 2, 1);
    assert_eq!(grid.get(0, 0).ch, '▌');
    assert_eq!(grid.get(1, 0).ch, 'X');
}

#[test]
fn bold_and_background_survive_the_round_trip() {
    let grid = parse("\x1b[1m\x1b[48;2;9;9;9mZ\x1b[0m", 1, 1);
    assert_eq!(
        grid.get(0, 0),
        Cell { ch: 'Z', fg: Cell::DEFAULT_FG, bg: Some([9, 9, 9]), bold: true }
    );
}

#[test]
fn indexed_colour_resolves_through_the_cube() {
    let grid = parse("\x1b[38;5;196mR\x1b[0m", 1, 1);
    assert_eq!(grid.get(0, 0).fg, [255, 0, 0]);
    let grid = parse("\x1b[38;5;244mG\x1b[0m", 1, 1);
    assert_eq!(grid.get(0, 0).fg, [128, 128, 128]);
}

#[test]
fn reverse_video_swaps_the_pair() {
    let grid = parse("\x1b[7m\x1b[38;2;1;2;3mV\x1b[0m", 1, 1);
    let cell = grid.get(0, 0);
    assert_eq!(cell.bg, Some([1, 2, 3]));
    assert_eq!(cell.fg, Cell::DEFAULT_FG);
}

#[test]
fn a_short_frame_blanks_what_it_does_not_reach() {
    let mut grid = Grid::new(4, 2);
    let parser = Parser::new(Cell::DEFAULT_FG);
    parser.parse_into("abcd\nefgh", &mut grid);
    assert_eq!(grid.get(3, 1).ch, 'h');
    parser.parse_into("ab", &mut grid);
    assert_eq!(grid.get(2, 0), Cell::blank());
    assert_eq!(grid.get(0, 1), Cell::blank());
}

#[test]
fn an_identical_frame_reports_no_change() {
    let mut grid = Grid::new(4, 1);
    let parser = Parser::new(Cell::DEFAULT_FG);
    assert!(parser.parse_into("ab", &mut grid));
    assert!(!parser.parse_into("ab", &mut grid));
}

#[test]
fn a_frame_that_moves_back_reports_no_change_it_undoes() {
    let mut grid = Grid::new(2, 1);
    let parser = Parser::new(Cell::DEFAULT_FG);
    assert!(parser.parse_into("ab\rxy", &mut grid));
    let before = grid.clone();
    assert!(!parser.parse_into("ab\rxy", &mut grid));
    assert!(grid == before);
    let mut one = Grid::new(1, 1);
    assert!(parser.parse_into("a\rb", &mut one));
    assert!(!parser.parse_into("a\rb", &mut one));
    assert_eq!(one.get(0, 0).ch, 'b');
    assert!(parser.parse_into("a\rc", &mut one));
}

#[test]
fn a_frame_leaves_the_same_grid_whatever_was_there() {
    let parser = Parser::new([9, 8, 7]);
    let mut a = Grid::new(3, 3);
    let mut b = Grid::new(3, 3);
    parser.parse_into("zzz\nzzz\nzzz", &mut b);
    for frame in ["ab\n\ncdefg", "x\ry\n", "\x1b[31mq\x1b[m\nr"] {
        parser.parse_into(frame, &mut a);
        parser.parse_into(frame, &mut b);
        assert!(a == b, "{frame:?}");
    }
}

#[test]
fn overlong_rows_are_clipped_not_wrapped() {
    let grid = parse("abcdef\nZ", 3, 2);
    assert_eq!(grid.get(2, 0).ch, 'c');
    assert_eq!(grid.get(0, 1).ch, 'Z');
}

#[test]
fn a_non_sgr_sequence_does_not_shift_the_row() {
    let grid = parse("a\x1b[2Jb", 2, 1);
    assert_eq!(grid.get(0, 0).ch, 'a');
    assert_eq!(grid.get(1, 0).ch, 'b');
}

#[test]
fn a_two_character_escape_is_dropped() {
    let grid = parse("a\x1bcb\x1b", 2, 1);
    assert_eq!((grid.get(0, 0).ch, grid.get(1, 0).ch), ('a', 'b'));
}

#[test]
fn a_malformed_extended_colour_does_not_leak_channels_into_codes() {
    // `38;2;1` runs out of channels; the missing ones read as 0 and the
    // `1` that follows must not turn into bold.
    let grid = parse("\x1b[38;2;1mQ\x1b[0m", 1, 1);
    assert!(!grid.get(0, 0).bold);
}

#[test]
fn a_short_true_colour_reads_missing_channels_as_zero() {
    let grid = parse("\x1b[38;2;7mQ", 1, 1);
    assert_eq!(grid.get(0, 0).fg, [7, 0, 0]);
    let grid = parse("\x1b[48;2;300;1;2mQ", 1, 1);
    assert_eq!(grid.get(0, 0).bg, Some([0, 1, 2]));
}

#[test]
fn the_legacy_colours_and_their_resets() {
    let grid = parse("\x1b[31;42mA\x1b[94;103mB\x1b[39;49mC", 3, 1);
    assert_eq!((grid.get(0, 0).fg, grid.get(0, 0).bg), ([205, 0, 0], Some([0, 205, 0])));
    assert_eq!((grid.get(1, 0).fg, grid.get(1, 0).bg), ([92, 92, 255], Some([255, 255, 0])));
    assert_eq!((grid.get(2, 0).fg, grid.get(2, 0).bg), (Cell::DEFAULT_FG, None));
}

#[test]
fn hidden_is_parsed_and_dropped() {
    let grid = parse("\x1b[8mA\x1b[28mB", 2, 1);
    assert_eq!((grid.get(0, 0).ch, grid.get(1, 0).ch), ('A', 'B'));
    assert_eq!(grid.get(0, 0).fg, Cell::DEFAULT_FG);
}

#[test]
fn a_malformed_tail_is_never_applied_as_codes() {
    // An index that is missing, empty, too large or no number.
    for tail in ["38;5", "38;5;", "38;5;256", "38;5;1:2", "48;5;?"] {
        let grid = parse(&format!("\x1b[1m\x1b[{tail}mQ"), 1, 1);
        assert!(grid.get(0, 0).bold, "{tail}");
        assert_eq!((grid.get(0, 0).fg, grid.get(0, 0).bg), (Cell::DEFAULT_FG, None), "{tail}");
    }
    // A kind that is missing, or that there is none of.
    for tail in ["38", "48", "38;7"] {
        let grid = parse(&format!("\x1b[1m\x1b[{tail}mQ"), 1, 1);
        assert!(grid.get(0, 0).bold, "{tail}");
    }
    // What comes behind a malformed tail still counts.
    let grid = parse("\x1b[38;5;;1mQ", 1, 1);
    assert!(grid.get(0, 0).bold);
}

#[test]
fn a_field_that_is_no_kind_is_a_code_of_its_own() {
    // What is no number reads as a reset.
    for codes in ["38;", "48;:", "38;?"] {
        let grid = parse(&format!("\x1b[1m\x1b[{codes}mQ"), 1, 1);
        assert!(!grid.get(0, 0).bold, "{codes}");
    }
    let grid = parse("\x1b[38;;1;2;3mQ", 1, 1);
    assert!(grid.get(0, 0).bold);
    assert_eq!(grid.get(0, 0).fg, Cell::DEFAULT_FG);
}

#[test]
fn no_cell_holds_a_line_break() {
    let grid = parse("a\n\nb\r\x1b\nc\x1b[2\nd", 3, 4);
    assert!(grid.cells().iter().all(|c| c.ch != '\n'));
    assert_eq!(grid.to_text().lines().count(), 4);
}

#[test]
fn an_unset_foreground_takes_the_default() {
    let mut grid = Grid::new(1, 1);
    Parser::new([3, 4, 5]).parse_into("A", &mut grid);
    assert_eq!(grid.get(0, 0).fg, [3, 4, 5]);
}

#[test]
fn the_palette_has_three_parts() {
    assert_eq!(xterm_256(1), [205, 0, 0]);
    assert_eq!(xterm_256(16), [0, 0, 0]);
    assert_eq!(xterm_256(17), [0, 0, 95]);
    assert_eq!(xterm_256(231), [255, 255, 255]);
    assert_eq!(xterm_256(232), [8, 8, 8]);
    assert_eq!(xterm_256(255), [238, 238, 238]);
}

#[test]
fn codes_apply_in_order_and_an_empty_sequence_resets() {
    let mut pen = Pen::reset();
    let params: Vec<char> = "1;7;38;5;9;22".chars().collect();
    apply_sgr(&mut pen, &params);
    assert!(!pen.bold && pen.reverse);
    assert_eq!(pen.fg, Some([255, 0, 0]));
    apply_sgr(&mut pen, &[]);
    assert_eq!((pen.fg, pen.reverse), (None, false));
}
