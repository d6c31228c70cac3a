use pixel_based::fixed::ONE;
use pixel_based::grid::Grid;
use pixel_based::sweep::{relax, sweep, sweep_line};

fn grid_of(rows: &[&[u64]]) -> Grid<u64> {
    let mut grid = Grid::filled(rows.len(), 0u64).unwrap();
    for (x, row) in rows.iter().enumerate() {
        for (y, &value) in row.iter().enumerate() {
            grid.set(x, y, value);
        }
    }
    grid
}

fn rows_of(grid: &Grid<u64>) -> Vec<Vec<u64>> {
    let n = grid.side();
    (0..n).map(|x| (0..n).map(|y| grid.get(x, y)).collect()).collect()
}

fn rising() -> Grid<u64> {
    grid_of(&[
        &[ONE, 2 * ONE, 3 * ONE],
        &[4 * ONE, 5 * ONE, 6 * ONE],
        &[7 * ONE, 8 * ONE, 9 * ONE],
    ])
}

fn falling_halves() -> Grid<u64> {
    grid_of(&[
        &[9 * ONE / 2, 8 * ONE / 2, 7 * ONE / 2],
        &[6 * ONE / 2, 5 * ONE / 2, 4 * ONE / 2],
        &[3 * ONE / 2, 2 * ONE / 2, ONE / 2],
    ])
}

#[test]
fn filled_grid_holds_the_value_everywhere() {
    let grid = Grid::filled(4, 7u64).unwrap();
    assert_eq!(grid.side(), 4);
    for x in 0..4 {
        for y in 0..4 {
            assert_eq!(grid.get(x, y), 7);
        }
    }
}

#[test]
fn empty_grid_can_be_made() {
    let grid = Grid::filled(0, 1u64).unwrap();
    assert_eq!(grid.side(), 0);
}

#[test]
fn grid_too_large_to_address_is_refused() {
    assert!(Grid::filled(usize::MAX, 0u8).is_none());
    assert!(Grid::filled(usize::MAX / 2, 0u8).is_none());
}

#[test]
fn set_replaces_one_cell_only() {
    let mut grid = Grid::filled(3, 0u64).unwrap();
    grid.set(1, 2, 5);
    assert_eq!(rows_of(&grid), vec![vec![0, 0, 0], vec![0, 0, 5], vec![0, 0, 0]]);
    grid.set(2, 1, 9);
    assert_eq!(rows_of(&grid), vec![vec![0, 0, 0], vec![0, 0, 5], vec![0, 9, 0]]);
    grid.set(1, 2, 6);
    assert_eq!(rows_of(&grid), vec![vec![0, 0, 0], vec![0, 0, 6], vec![0, 9, 0]]);
}

#[test]
fn cells_are_told_apart_by_both_coordinates() {
    let mut grid = Grid::filled(3, (0usize, 0usize)).unwrap();
    for x in 0..3 {
        for y in 0..3 {
            grid.set(x, y, (x, y));
        }
    }
    for x in 0..3 {
        for y in 0..3 {
            assert_eq!(grid.get(x, y), (x, y));
        }
    }
}

#[test]
fn duplicate_is_equal_and_independent() {
    let mut grid = rising();
    let copy = grid.duplicate();
    assert_eq!(rows_of(&copy), rows_of(&grid));
    grid.set(0, 0, 0);
    assert_eq!(copy.get(0, 0), ONE);
    assert_eq!(grid.get(0, 0), 0);
}

#[test]
fn one_line_is_relaxed_in_rising_order() {
    let prev = rising();
    let mut buf = falling_halves();
    sweep_line(&prev, &mut buf, ONE + ONE / 2, 1);
    assert_eq!(
        rows_of(&buf),
        vec![
            vec![19327352832, 17179869184, 15032385536],
            vec![13958643712, 15193446809, 17442935930],
            vec![6442450944, 4294967296, 2147483648],
        ]
    );
}

#[test]
fn one_pass_reads_cells_already_relaxed() {
    let prev = rising();
    let mut buf = falling_halves();
    sweep(&prev, &mut buf, ONE + ONE / 2);
    assert_eq!(
        rows_of(&buf),
        vec![
            vec![10737418240, 10522669875, 10887742095],
            vec![12670153523, 14001593384, 16463683387],
            vec![17115444674, 20833812610, 26651131064],
        ]
    );
    assert_eq!(rows_of(&prev), rows_of(&rising()));
}

#[test]
fn pass_is_line_after_line() {
    let prev = rising();
    let mut whole = falling_halves();
    sweep(&prev, &mut whole, 3 * ONE);
    let mut by_line = falling_halves();
    for x in 0..3 {
        sweep_line(&prev, &mut by_line, 3 * ONE, x);
    }
    assert_eq!(rows_of(&whole), rows_of(&by_line));
}

#[test]
fn several_passes_keep_the_same_own_levels() {
    let prev = rising();
    let mut buf = falling_halves();
    relax(&prev, &mut buf, ONE + ONE / 2, 4);
    assert_eq!(
        rows_of(&buf),
        vec![
            vec![10516880258, 13382001939, 16118746123],
            vec![18286174912, 21025971852, 23658550544],
            vec![25933197581, 28566692099, 31129455058],
        ]
    );
    let mut stepwise = falling_halves();
    for _ in 0..4 {
        sweep(&prev, &mut stepwise, ONE + ONE / 2);
    }
    assert_eq!(rows_of(&buf), rows_of(&stepwise));
}

#[test]
fn no_pass_at_all_changes_nothing() {
    let prev = rising();
    let mut buf = falling_halves();
    relax(&prev, &mut buf, 2 * ONE, 0);
    assert_eq!(rows_of(&buf), rows_of(&falling_halves()));
}

#[test]
fn level_grid_is_steady() {
    let prev = Grid::filled(4, 7 * ONE + 3).unwrap();
    let mut buf = prev.duplicate();
    relax(&prev, &mut buf, 2 * ONE, 5);
    assert_eq!(rows_of(&buf), vec![vec![7 * ONE + 3; 4]; 4]);
}

#[test]
fn pass_stays_inside_the_range_of_both_grids() {
    let prev = rising();
    let mut buf = falling_halves();
    relax(&prev, &mut buf, 5 * ONE, 3);
    for row in rows_of(&buf) {
        for level in row {
            assert!(ONE / 2 <= level && level <= 9 * ONE);
        }
    }
}

#[test]
fn pass_on_an_empty_grid_does_nothing() {
    let prev = Grid::filled(0, 0u64).unwrap();
    let mut buf = Grid::filled(0, 0u64).unwrap();
    relax(&prev, &mut buf, ONE, 3);
    assert_eq!(buf.side(), 0);
}
