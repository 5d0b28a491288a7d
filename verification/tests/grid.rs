use advent_of_rust_2022::{RowGrid, UniformGrid};

fn sample() -> RowGrid<u8> {
    let mut grid = RowGrid::with_width(3);
    grid.push_row(vec![1, 2, 3]);
    grid.push_row(vec![4, 5, 6]);
    grid
}

#[test]
fn row_grid_starts_empty() {
    let grid: RowGrid<u8> = RowGrid::with_width(4);
    assert_eq!(grid.width(), 4);
    assert_eq!(grid.height(), 0);
    assert_eq!(grid.cell(0, 0), None);
    assert_eq!(grid.row(0), None);
    assert_eq!(grid.find(|_| true), None);
    assert_eq!(grid.find_all(|_| true), vec![]);
    assert_eq!(grid.enumerate(), vec![]);
}

#[test]
fn row_grid_cells_follow_pushed_rows() {
    let grid = sample();
    assert_eq!(grid.width(), 3);
    assert_eq!(grid.height(), 2);
    let rows = [[1u8, 2, 3], [4, 5, 6]];
    for y in 0..2 {
        for x in 0..3 {
            assert_eq!(grid.cell(x, y), Some(&rows[y][x]));
        }
    }
}

#[test]
fn row_grid_cell_outside_is_absent() {
    let grid = sample();
    assert_eq!(grid.cell(3, 0), None);
    assert_eq!(grid.cell(0, 2), None);
    assert_eq!(grid.cell(3, 2), None);
    assert_eq!(grid.cell(usize::MAX, 0), None);
    assert_eq!(grid.cell(0, usize::MAX), None);
    assert_eq!(grid.cell(usize::MAX, usize::MAX), None);
}

#[test]
fn row_grid_x_beyond_width_does_not_wrap_into_next_row() {
    let grid = sample();
    assert_eq!(grid.cell(3, 0), None);
    assert_eq!(grid.cell(4, 0), None);
}

#[test]
fn row_grid_row_is_a_slice_of_the_row() {
    let grid = sample();
    assert_eq!(grid.row(0), Some(&[1u8, 2, 3][..]));
    assert_eq!(grid.row(1), Some(&[4u8, 5, 6][..]));
    assert_eq!(grid.row(2), None);
}

#[test]
fn row_grid_column_runs_top_to_bottom() {
    let grid = sample();
    assert_eq!(grid.column(0), Some(vec![&1u8, &4]));
    assert_eq!(grid.column(2), Some(vec![&3u8, &6]));
    assert_eq!(grid.column(3), None);
}

#[test]
fn row_grid_find_returns_first_match_in_row_major_order() {
    let mut grid = RowGrid::with_width(3);
    grid.push_row(vec![0u8, 7, 0]);
    grid.push_row(vec![7, 0, 7]);
    assert_eq!(grid.find(|v| *v == 7), Some((1, 0)));
    assert_eq!(grid.find(|v| *v == 0), Some((0, 0)));
    assert_eq!(grid.find(|v| *v == 9), None);
}

#[test]
fn row_grid_find_prefers_earlier_row_over_smaller_column() {
    let mut grid = RowGrid::with_width(3);
    grid.push_row(vec![0u8, 0, 7]);
    grid.push_row(vec![7, 0, 0]);
    assert_eq!(grid.find(|v| *v == 7), Some((2, 0)));
}

#[test]
fn row_grid_find_all_lists_matches_in_row_major_order() {
    let mut grid = RowGrid::with_width(3);
    grid.push_row(vec![0u8, 7, 0]);
    grid.push_row(vec![7, 0, 7]);
    assert_eq!(grid.find_all(|v| *v == 7), vec![(1, 0), (0, 1), (2, 1)]);
    assert_eq!(grid.find_all(|v| *v == 9), vec![]);
}

#[test]
fn row_grid_enumerate_visits_every_cell_in_row_major_order() {
    let grid = sample();
    assert_eq!(
        grid.enumerate(),
        vec![(0, 0), (1, 0), (2, 0), (0, 1), (1, 1), (2, 1)]
    );
}

#[test]
fn row_grid_of_width_zero_stays_empty() {
    let mut grid: RowGrid<u8> = RowGrid::with_width(0);
    grid.push_row(vec![]);
    assert_eq!(grid.width(), 0);
    assert_eq!(grid.height(), 0);
    assert_eq!(grid.cell(0, 0), None);
    assert_eq!(grid.row(0), None);
    assert_eq!(grid.column(0), None);
    assert_eq!(grid.enumerate(), vec![]);
}

#[test]
fn uniform_grid_is_filled_with_defaults() {
    let grid: UniformGrid<u8> = UniformGrid::new(3, 2);
    assert_eq!(grid.width(), 3);
    assert_eq!(grid.height(), 2);
    for y in 0..2 {
        for x in 0..3 {
            assert_eq!(grid.cell(x, y), Some(&0));
        }
    }
}

#[test]
fn uniform_grid_cell_outside_is_absent() {
    let grid: UniformGrid<u8> = UniformGrid::new(3, 2);
    assert_eq!(grid.cell(3, 0), None);
    assert_eq!(grid.cell(0, 2), None);
    assert_eq!(grid.cell(usize::MAX, usize::MAX), None);
}

#[test]
fn uniform_grid_set_cell_changes_one_cell() {
    let mut grid: UniformGrid<u8> = UniformGrid::new(3, 2);
    grid.set_cell(2, 1, 9);
    for y in 0..2 {
        for x in 0..3 {
            let expected = if (x, y) == (2, 1) { 9 } else { 0 };
            assert_eq!(grid.cell(x, y), Some(&expected));
        }
    }
}

#[test]
fn uniform_grid_find_all_lists_matches_in_row_major_order() {
    let mut grid: UniformGrid<bool> = UniformGrid::new(2, 2);
    grid.set_cell(1, 1, true);
    grid.set_cell(1, 0, true);
    assert_eq!(grid.find_all(|v| *v), vec![(1, 0), (1, 1)]);
    assert_eq!(grid.find_all(|v| !*v), vec![(0, 0), (0, 1)]);
}

#[test]
fn uniform_grid_clone_is_independent() {
    let mut grid: UniformGrid<u8> = UniformGrid::new(2, 1);
    grid.set_cell(0, 0, 5);
    let copy = grid.clone();
    grid.set_cell(0, 0, 6);
    assert_eq!(copy.cell(0, 0), Some(&5));
    assert_eq!(grid.cell(0, 0), Some(&6));
    assert_eq!(copy.width(), 2);
    assert_eq!(copy.height(), 1);
}

#[test]
fn uniform_grid_without_cells() {
    let grid: UniformGrid<u8> = UniformGrid::new(0, 5);
    assert_eq!(grid.width(), 0);
    assert_eq!(grid.height(), 5);
    assert_eq!(grid.cell(0, 0), None);
    assert_eq!(grid.find_all(|_| true), vec![]);
}

#[test]
fn row_grid_cell_mut_changes_one_cell() {
    let mut grid = sample();
    if let Some(cell) = grid.cell_mut(1, 1) {
        *cell = 50;
    }
    assert!(grid.cell_mut(3, 0).is_none());
    assert!(grid.cell_mut(0, 2).is_none());
    assert_eq!(grid.row(0), Some(&[1u8, 2, 3][..]));
    assert_eq!(grid.row(1), Some(&[4u8, 50, 6][..]));
    assert_eq!(grid.width(), 3);
    assert_eq!(grid.height(), 2);
}
