//! The cell grid and the shapes damage is made of.

use nirisaver::chars;
use nirisaver::damage::{
    bounding_rect, changed_cells, changed_runs, coarsen_to_rows, damaged_runs, merge_spans,
    CellRect, RowSpan,
};
use nirisaver::grid::{Cell, Grid};

fn lit(ch: char) -> Cell {
    Cell { ch, ..Cell::blank() }
}

#[test]
fn a_fresh_buffer_is_entirely_changed() {
    let grid = Grid::new(4, 3);
    let runs = changed_runs(&grid, None, 0);
    assert_eq!(runs.len(), 3);
    assert!(runs.iter().all(|s| s.start == 0 && s.end == 4));
    assert_eq!(changed_cells(&grid, None), 12);
}

#[test]
fn identical_grids_have_no_runs() {
    let grid = Grid::new(4, 3);
    assert!(changed_runs(&grid, Some(&grid.clone()), 0).is_empty());
    assert_eq!(changed_cells(&grid, Some(&grid.clone())), 0);
}

#[test]
fn scattered_changes_stay_separate_runs_without_a_gap() {
    let prev = Grid::new(16, 1);
    let mut next = prev.clone();
    next.set(2, 0, lit('a'));
    next.set(12, 0, lit('b'));
    assert_eq!(
        changed_runs(&next, Some(&prev), 0),
        vec![RowSpan { row: 0, start: 2, end: 3 }, RowSpan { row: 0, start: 12, end: 13 }]
    );
    assert_eq!(changed_cells(&next, Some(&prev)), 2);
}

#[test]
fn a_gap_coalesces_nearby_runs() {
    let prev = Grid::new(16, 1);
    let mut next = prev.clone();
    next.set(2, 0, lit('a'));
    next.set(5, 0, lit('b'));
    next.set(12, 0, lit('c'));
    // 2 and 5 are two cells apart, 5 and 12 are six.
    assert_eq!(
        changed_runs(&next, Some(&prev), 4),
        vec![RowSpan { row: 0, start: 2, end: 6 }, RowSpan { row: 0, start: 12, end: 13 }]
    );
}

#[test]
fn runs_coalesce_below_the_gap_and_not_at_it() {
    let prev = Grid::new(8, 1);
    let mut next = prev.clone();
    next.set(1, 0, lit('a'));
    next.set(4, 0, lit('b'));
    // Two unchanged cells lie between the changed ones.
    assert_eq!(changed_runs(&next, Some(&prev), 2).len(), 2);
    assert_eq!(
        changed_runs(&next, Some(&prev), 3),
        vec![RowSpan { row: 0, start: 1, end: 5 }]
    );
}

#[test]
fn neighbouring_changes_are_one_run_without_a_gap() {
    let prev = Grid::new(8, 1);
    let mut next = prev.clone();
    next.set(3, 0, lit('a'));
    next.set(4, 0, lit('b'));
    assert_eq!(
        changed_runs(&next, Some(&prev), 0),
        vec![RowSpan { row: 0, start: 3, end: 5 }]
    );
}

#[test]
fn a_reshaped_grid_is_entirely_changed() {
    let prev = Grid::new(4, 2);
    let next = Grid::new(5, 2);
    assert_eq!(changed_runs(&next, Some(&prev), 0).len(), 2);
    assert_eq!(changed_cells(&next, Some(&prev)), 10);
}

#[test]
fn damage_covers_both_baselines() {
    // The cell that moved in the buffer is at 1; the one that is stale on
    // screen is at 9. Neither baseline alone names both.
    let base = Grid::new(12, 1);
    let mut next = base.clone();
    next.set(1, 0, lit('x'));
    let mut screen = base.clone();
    screen.set(9, 0, lit('y'));
    next.set(9, 0, Cell::blank());

    let runs = damaged_runs(&next, Some(&base), Some(&screen), 0);
    assert_eq!(
        runs,
        vec![RowSpan { row: 0, start: 1, end: 2 }, RowSpan { row: 0, start: 9, end: 10 }]
    );
}

#[test]
fn identical_stacked_runs_merge_into_one_rectangle() {
    let spans: Vec<_> = (0..4).map(|row| RowSpan { row, start: 3, end: 7 }).collect();
    assert_eq!(merge_spans(&spans), vec![CellRect { col: 3, row: 0, cols: 4, rows: 4 }]);
}

#[test]
fn differing_runs_stay_separate() {
    let spans = vec![RowSpan { row: 0, start: 3, end: 7 }, RowSpan { row: 1, start: 2, end: 7 }];
    assert_eq!(merge_spans(&spans).len(), 2);
}

#[test]
fn a_gap_in_rows_breaks_the_merge() {
    let spans = vec![RowSpan { row: 0, start: 0, end: 2 }, RowSpan { row: 2, start: 0, end: 2 }];
    assert_eq!(merge_spans(&spans).len(), 2);
}

#[test]
fn empty_runs_merge_into_nothing() {
    let empty = RowSpan { row: 3, start: 5, end: 5 };
    assert!(empty.is_empty());
    assert_eq!(empty.len(), 0);
    assert_eq!(merge_spans(&[empty]), vec![]);
}

#[test]
fn coarsening_gives_one_span_per_row() {
    let runs = vec![
        RowSpan { row: 0, start: 1, end: 2 },
        RowSpan { row: 0, start: 9, end: 11 },
        RowSpan { row: 3, start: 4, end: 5 },
    ];
    assert_eq!(
        coarsen_to_rows(&runs),
        vec![RowSpan { row: 0, start: 1, end: 11 }, RowSpan { row: 3, start: 4, end: 5 }]
    );
}

#[test]
fn the_bounding_rectangle_covers_every_run() {
    let runs = vec![RowSpan { row: 2, start: 5, end: 6 }, RowSpan { row: 4, start: 1, end: 9 }];
    assert_eq!(bounding_rect(&runs), Some(CellRect { col: 1, row: 2, cols: 8, rows: 3 }));
    assert_eq!(bounding_rect(&[]), None);
}

#[test]
fn the_bounding_rectangle_does_not_depend_on_the_order() {
    let runs = vec![RowSpan { row: 4, start: 1, end: 9 }, RowSpan { row: 2, start: 5, end: 6 }];
    assert_eq!(bounding_rect(&runs), Some(CellRect { col: 1, row: 2, cols: 8, rows: 3 }));
}

#[test]
fn the_checksum_notices_colour() {
    let mut a = Grid::new(2, 1);
    a.set(0, 0, lit('x'));
    let mut b = a.clone();
    assert_eq!(a.checksum(), b.checksum());
    b.set(0, 0, Cell { ch: 'x', fg: [1, 2, 3], ..Cell::blank() });
    assert_ne!(a.checksum(), b.checksum());
}

#[test]
fn the_checksum_notices_every_part_of_a_cell() {
    let mut a = Grid::new(3, 2);
    a.set(1, 1, lit('x'));
    let cell = a.get(1, 1);
    for other in [
        Cell { ch: 'y', ..cell },
        Cell { fg: [255, 255, 254], ..cell },
        Cell { bg: Some([0, 0, 0]), ..cell },
        Cell { bold: true, ..cell },
    ] {
        let mut b = a.clone();
        b.set(1, 1, other);
        assert_ne!(a.checksum(), b.checksum(), "{other:?}");
    }
}

#[test]
fn the_checksum_is_the_documented_fold() {
    let mut h: u64 = 0xcbf2_9ce4_8422_2325;
    for word in [1u64, 1, u64::from(' '), 0x00ff_ffff, 0, 0] {
        h = (h ^ word).wrapping_mul(0x0100_0000_01b3);
    }
    assert_eq!(Grid::new(1, 1).checksum(), h);
}

#[test]
fn a_grid_as_text_has_its_trailing_blanks_trimmed() {
    let mut grid = Grid::new(4, 3);
    grid.set(1, 0, lit('a'));
    grid.set(3, 2, lit('b'));
    assert_eq!(grid.to_text(), " a\n\n   b\n");
}

#[test]
fn a_reset_blanks_and_reshapes() {
    let mut grid = Grid::new(3, 2);
    grid.set(2, 1, lit('z'));
    grid.reset(3, 2);
    assert!(grid == Grid::new(3, 2));
    grid.set(0, 0, lit('z'));
    grid.reset(5, 1);
    assert!(grid == Grid::new(5, 1));
    assert_eq!((grid.cols(), grid.rows(), grid.cells().len()), (5, 1, 5));
    assert!(!grid.same_shape(&Grid::new(3, 2)));
}

#[test]
fn rows_are_stored_top_first() {
    let mut grid = Grid::new(2, 2);
    grid.set(1, 1, lit('q'));
    assert_eq!(grid.row(0), &[Cell::blank(), Cell::blank()]);
    assert_eq!(grid.row(1), &[Cell::blank(), lit('q')]);
    assert_eq!(grid.get(1, 1).ch, 'q');
}

#[test]
fn a_cell_is_blank_without_ink_and_background() {
    assert!(Cell::blank().is_blank());
    assert!(Cell { ch: '\0', ..Cell::blank() }.is_blank());
    assert!(!lit('.').is_blank());
    assert!(!Cell { bg: Some([0, 0, 0]), ..Cell::blank() }.is_blank());
    assert_eq!(Cell::default(), Cell::blank());
}

#[test]
fn white_space_is_what_unicode_says_it_is() {
    for code in 0..=0x10_ffffu32 {
        if let Some(c) = char::from_u32(code) {
            assert_eq!(chars::is_whitespace(c), c.is_whitespace(), "{code:#x}");
        }
    }
}

#[test]
fn text_primitives_agree_with_str() {
    for s in ["", " a b ", "\t x\u{2003}", "a\r\nb\n\r\nc\r", "\n", "x\n\n", "--a--b--"] {
        let v: Vec<char> = s.chars().collect();
        let text = |t: &[char]| t.iter().collect::<String>();
        assert_eq!(text(chars::trim(&v)), s.trim());
        assert_eq!(text(chars::trim_end(&v)), s.trim_end());
        assert_eq!(text(chars::trim_start(&v)), s.trim_start());
        let lines: Vec<String> = chars::split_lines(&v).iter().map(|l| text(l)).collect();
        assert_eq!(lines, s.lines().map(str::to_string).collect::<Vec<_>>());
        let words: Vec<String> = chars::split_words(&v).iter().map(|l| text(l)).collect();
        assert_eq!(words, s.split_whitespace().map(str::to_string).collect::<Vec<_>>());
        let fields: Vec<String> = chars::split(&v, '\n').iter().map(|l| text(l)).collect();
        assert_eq!(fields, s.split('\n').map(str::to_string).collect::<Vec<_>>());
        assert_eq!(chars::find_last(&v, &['-', '-']), s.rfind("--"));
        assert_eq!(chars::to_text(&v), s);
        assert_eq!(chars::char_count(s), s.chars().count());
    }
}

#[test]
fn numbers_agree_with_str() {
    for s in ["", "0", "+7", "+", "-1", "255", "256", "4294967295", "4294967296", "1x", "00012"] {
        let v: Vec<char> = s.chars().collect();
        assert_eq!(chars::parse_number(&v, u32::MAX), s.parse::<u32>().ok(), "{s:?}");
        assert_eq!(chars::parse_number(&v, 255), s.parse::<u8>().ok().map(u32::from), "{s:?}");
    }
    for n in [0u64, 9, 10, 4242, u64::MAX] {
        let mut out = String::new();
        chars::push_decimal(&mut out, n);
        assert_eq!(out, n.to_string());
        let mut out = String::from("#");
        chars::push_hex(&mut out, n, 16);
        assert_eq!(out, format!("#{n:016x}"));
    }
}

#[test]
fn a_set_cell_reads_back() {
    let mut grid = Grid::new(3, 2);
    let before = grid.get(1, 0);
    grid.set(2, 1, lit('q'));
    assert_eq!(grid.get(2, 1), lit('q'));
    assert_eq!(grid.get(1, 0), before);
}
