use comfy_wars::grid::Grid;
use comfy_wars::position::Position;

fn numbered(width: i32, height: i32) -> Grid<i32> {
    Grid::filled_with(width, height, |x, y| x + 10 * y)
}

#[test]
fn new_grid_is_filled() {
    let grid = Grid::new(3, 2, 7);
    assert_eq!(grid.width, 3);
    assert_eq!(grid.height, 2);
    assert_eq!(grid.data, vec![7; 6]);
}

#[test]
fn empty_grid_has_no_cells() {
    let grid: Grid<i32> = Grid::new(0, 0, 1);
    assert!(grid.data.is_empty());
    assert!(grid.iter().is_empty());
    assert!(grid.iter_coords().is_empty());
}

#[test]
fn filled_with_stores_row_by_row() {
    let grid = numbered(3, 2);
    assert_eq!(grid.data, vec![0, 1, 2, 10, 11, 12]);
    assert_eq!(*grid.get(2, 1), 12);
    assert_eq!(*grid.get(0, 1), 10);
}

#[test]
fn get_mut_writes_one_cell() {
    let mut grid = Grid::new(3, 3, 0);
    *grid.get_mut(1, 2) = 5;
    assert_eq!(grid.data, vec![0, 0, 0, 0, 0, 0, 0, 5, 0]);
    assert_eq!(*grid.get(1, 2), 5);
}

#[test]
fn clamped_access_equals_plain_access_inside() {
    let grid = numbered(4, 3);
    for y in 0..3 {
        for x in 0..4 {
            assert_eq!(grid.get_clamped(x, y), grid.get(x, y));
            assert_eq!(grid.get_clamped_v(Position::new(x, y)), grid.get(x, y));
        }
    }
}

#[test]
fn clamped_access_saturates_each_axis() {
    let grid = numbered(4, 3);
    assert_eq!(*grid.get_clamped(-1, 1), 10);
    assert_eq!(*grid.get_clamped(4, 1), 13);
    assert_eq!(*grid.get_clamped(2, -5), 2);
    assert_eq!(*grid.get_clamped(2, 3), 22);
    assert_eq!(*grid.get_clamped(-7, -7), 0);
    assert_eq!(*grid.get_clamped(99, 99), 23);
    assert_eq!(*grid.get_clamped(i32::MIN, i32::MAX), 20);
    assert_eq!(*grid.get_clamped_v(Position::new(i32::MAX, i32::MIN)), 3);
}

#[test]
fn clamped_write_goes_to_the_nearest_cell() {
    let mut grid = Grid::new(2, 2, 0);
    *grid.get_clamped_mut(5, -3) = 9;
    assert_eq!(grid.data, vec![0, 9, 0, 0]);
    *grid.get_clamped_mut(0, 1) = 4;
    assert_eq!(grid.data, vec![0, 9, 4, 0]);
}

#[test]
fn iter_goes_row_by_row() {
    let grid = numbered(2, 2);
    let cells: Vec<(i32, i32, i32)> = grid.iter().into_iter().map(|(x, y, v)| (x, y, *v)).collect();
    assert_eq!(cells, vec![(0, 0, 0), (1, 0, 1), (0, 1, 10), (1, 1, 11)]);
}

#[test]
fn iter_coords_pairs_positions_with_values() {
    let grid = numbered(2, 2);
    let cells: Vec<(Position, i32)> =
        grid.iter_coords().into_iter().map(|(p, v)| (p, *v)).collect();
    assert_eq!(
        cells,
        vec![
            (Position::new(0, 0), 0),
            (Position::new(1, 0), 1),
            (Position::new(0, 1), 10),
            (Position::new(1, 1), 11)
        ]
    );
}

#[test]
fn clamp_values_moves_every_cell_into_range() {
    let mut grid = Grid::filled_with(5, 1, |x, _| x * 3 - 4);
    assert_eq!(grid.data, vec![-4, -1, 2, 5, 8]);
    grid.clamp_values(0, 5);
    assert_eq!(grid.data, vec![0, 0, 2, 5, 5]);
    grid.clamp_values(0, 1);
    assert_eq!(grid.data, vec![0, 0, 1, 1, 1]);
    grid.clamp_values(3, 3);
    assert_eq!(grid.data, vec![3, 3, 3, 3, 3]);
}

#[test]
fn mul_inplace_multiplies_cell_by_cell() {
    let mut grid = numbered(3, 2);
    let mask = Grid::filled_with(3, 2, |x, y| (x + y) % 2);
    grid.mul_inplace(&mask);
    assert_eq!(grid.data, vec![0, 1, 0, 10, 0, 12]);
    let mut grid = Grid::new(2, 1, -3);
    grid.mul_inplace(&Grid::new(2, 1, 4));
    assert_eq!(grid.data, vec![-12, -12]);
}

#[test]
fn fill_overwrites_every_cell() {
    let mut grid = numbered(2, 2);
    grid.fill(-1);
    assert_eq!(grid.data, vec![-1; 4]);
    assert_eq!(grid.width, 2);
    assert_eq!(grid.height, 2);
}

#[test]
fn indexing_by_position_reads_the_cell() {
    let grid = numbered(4, 3);
    assert_eq!(grid[Position::new(3, 2)], 23);
    assert_eq!(grid[Position::new(0, 0)], 0);
    for (pos, value) in grid.iter_coords() {
        assert_eq!(grid[pos], *value);
        assert_eq!(grid.get(pos.x, pos.y), value);
    }
}
