use comfy_wars::dijkstra::{dijkstra, dijkstra_path, get_neighbors};
use comfy_wars::grid::Grid;
use comfy_wars::position::Position;

fn ivec2(x: i32, y: i32) -> Position {
    Position::new(x, y)
}

#[test]
fn get_neighbors_test() {
    let grid = Grid::new(10, 10, 0);
    let neighbors = get_neighbors(ivec2(1, 1), &grid);
    assert_eq!(4, neighbors.len());
    assert!(neighbors.contains(&ivec2(0, 1)));
    assert!(neighbors.contains(&ivec2(2, 1)));
    assert!(neighbors.contains(&ivec2(1, 0)));
    assert!(neighbors.contains(&ivec2(1, 2)));

    let neighbors = get_neighbors(ivec2(0, 0), &grid);
    assert_eq!(2, neighbors.len());
    assert!(neighbors.contains(&ivec2(0, 1)));
    assert!(neighbors.contains(&ivec2(1, 0)));
}

#[test]
fn dijkstra_map_test() {
    // basic
    let mut grid = Grid::new(10, 10, 0);
    let pos = ivec2(5, 5);
    *grid.get_clamped_mut(pos.x, pos.y) = 5;
    dijkstra(&mut grid, &[pos], |_| 1);
    assert_eq!(2, *grid.get(2, 5));

    // higher cost
    let mut grid = Grid::new(10, 10, 0);
    let pos = ivec2(5, 5);
    *grid.get_clamped_mut(pos.x, pos.y) = 5;
    dijkstra(&mut grid, &[pos], |_| 2);
    assert_eq!(0, *grid.get(2, 5));
    assert_eq!(1, *grid.get(3, 5));

    // multiple seeds
    let mut grid = Grid::new(10, 10, 0);
    let pos = ivec2(5, 5);
    *grid.get_clamped_mut(pos.x, pos.y) = 5;
    let pos2 = ivec2(1, 4);
    *grid.get_clamped_mut(pos2.x, pos2.y) = 5;
    dijkstra(&mut grid, &[pos, pos2], |_| 1);
    assert_eq!(3, *grid.get(2, 5));
}

#[test]
fn neighbors_keep_the_order_left_right_down_up() {
    let grid = Grid::new(3, 3, 0);
    let n = get_neighbors(ivec2(1, 1), &grid);
    assert_eq!(n, vec![ivec2(0, 1), ivec2(2, 1), ivec2(1, 2), ivec2(1, 0)]);
    let n = get_neighbors(ivec2(-1, 0), &grid);
    assert_eq!(n, vec![ivec2(0, 0)]);
    let n = get_neighbors(ivec2(i32::MAX, i32::MIN), &grid);
    assert!(n.is_empty());
    let single = Grid::new(1, 1, 0);
    assert!(get_neighbors(ivec2(0, 0), &single).is_empty());
}

#[test]
fn path_climbs_to_the_seed() {
    let mut grid = Grid::new(10, 10, 0);
    *grid.get_mut(5, 5) = 5;
    dijkstra(&mut grid, &[ivec2(5, 5)], |_| 1);
    let path = dijkstra_path(&grid, ivec2(2, 5));
    assert_eq!(path, vec![ivec2(2, 5), ivec2(3, 5), ivec2(4, 5), ivec2(5, 5)]);
}

#[test]
fn path_is_empty_without_positive_value_or_outside() {
    let mut grid = Grid::new(4, 4, 0);
    *grid.get_mut(1, 1) = 3;
    assert!(dijkstra_path(&grid, ivec2(2, 2)).is_empty());
    assert!(dijkstra_path(&grid, ivec2(-1, 0)).is_empty());
    assert!(dijkstra_path(&grid, ivec2(0, 4)).is_empty());
    assert!(dijkstra_path(&grid, ivec2(4, 0)).is_empty());
    *grid.get_mut(2, 2) = -7;
    assert!(dijkstra_path(&grid, ivec2(2, 2)).is_empty());
    assert_eq!(dijkstra_path(&grid, ivec2(1, 1)), vec![ivec2(1, 1)]);
}

#[test]
fn path_may_start_in_the_top_row() {
    let mut grid = Grid::new(3, 1, 0);
    *grid.get_mut(0, 0) = 1;
    *grid.get_mut(1, 0) = 2;
    *grid.get_mut(2, 0) = 3;
    assert_eq!(
        dijkstra_path(&grid, ivec2(0, 0)),
        vec![ivec2(0, 0), ivec2(1, 0), ivec2(2, 0)]
    );
}

#[test]
fn path_prefers_the_first_of_equal_neighbors() {
    // left and right of the start hold the same value: left comes first
    let mut grid = Grid::new(3, 3, 0);
    *grid.get_mut(1, 1) = 1;
    *grid.get_mut(0, 1) = 4;
    *grid.get_mut(2, 1) = 4;
    *grid.get_mut(1, 2) = 4;
    *grid.get_mut(1, 0) = 4;
    assert_eq!(dijkstra_path(&grid, ivec2(1, 1)), vec![ivec2(1, 1), ivec2(0, 1)]);
    // down before up
    let mut grid = Grid::new(3, 3, 0);
    *grid.get_mut(1, 1) = 1;
    *grid.get_mut(1, 2) = 4;
    *grid.get_mut(1, 0) = 4;
    assert_eq!(dijkstra_path(&grid, ivec2(1, 1)), vec![ivec2(1, 1), ivec2(1, 2)]);
}

#[test]
fn path_on_a_single_cell_grid() {
    let grid = Grid::new(1, 1, 7);
    assert_eq!(dijkstra_path(&grid, ivec2(0, 0)), vec![ivec2(0, 0)]);
}

#[test]
fn relaxing_twice_changes_nothing() {
    let mut grid = Grid::new(7, 5, 0);
    *grid.get_mut(3, 2) = 6;
    *grid.get_mut(0, 0) = 4;
    let seeds = [ivec2(3, 2), ivec2(0, 0)];
    let cost = |p: Position| if p.x == 2 { 3 } else { 1 };
    dijkstra(&mut grid, &seeds, cost);
    let once = grid.data.clone();
    dijkstra(&mut grid, &seeds, cost);
    assert_eq!(once, grid.data);
}

#[test]
fn relaxing_never_lowers_a_cell_nor_exceeds_the_highest_seed() {
    let mut grid = Grid::new(6, 6, 0);
    *grid.get_mut(1, 1) = 5;
    *grid.get_mut(4, 4) = 9;
    *grid.get_mut(0, 5) = -3;
    let before = grid.data.clone();
    dijkstra(&mut grid, &[ivec2(1, 1), ivec2(4, 4)], |_| 2);
    for (old, new) in before.iter().zip(grid.data.iter()) {
        assert!(old <= new);
        assert!(*new <= 9);
    }
    assert_eq!(*grid.get(4, 3), 7);
    assert_eq!(*grid.get(1, 1), 5);
    assert_eq!(*grid.get(2, 1), 3);
}

#[test]
fn impassable_cells_stay_where_they_are() {
    let mut grid = Grid::new(5, 1, 0);
    *grid.get_mut(0, 0) = 9;
    dijkstra(&mut grid, &[ivec2(0, 0)], |p: Position| if p.x == 2 { 9999 } else { 1 });
    assert_eq!(grid.data, vec![9, 8, 0, 0, 0]);
}

#[test]
fn seeds_outside_the_grid_still_wake_their_neighbors() {
    let mut grid = Grid::new(3, 1, 0);
    *grid.get_mut(1, 0) = 4;
    dijkstra(&mut grid, &[ivec2(-1, 0)], |_| 1);
    assert_eq!(grid.data, vec![3, 4, 0]);
}

#[test]
fn zero_cost_spreads_the_seed_value() {
    let mut grid = Grid::new(3, 2, 0);
    *grid.get_mut(0, 0) = 2;
    dijkstra(&mut grid, &[ivec2(0, 0)], |_| 0);
    assert_eq!(grid.data, vec![2, 2, 2, 2, 2, 2]);
}

#[test]
fn cells_that_nothing_wakes_keep_their_value() {
    // the cell before the 9 could rise, but no raised neighbour asks for it
    let mut grid = Grid::new(7, 1, 0);
    *grid.get_mut(0, 0) = 5;
    *grid.get_mut(6, 0) = 9;
    dijkstra(&mut grid, &[ivec2(0, 0)], |_| 1);
    assert_eq!(grid.data, vec![5, 4, 3, 2, 1, 0, 9]);
}

#[test]
fn a_woken_cell_takes_the_best_of_its_neighbors() {
    let mut grid = Grid::new(7, 1, 0);
    *grid.get_mut(0, 0) = 7;
    *grid.get_mut(6, 0) = 9;
    dijkstra(&mut grid, &[ivec2(0, 0)], |_| 1);
    assert_eq!(grid.data, vec![7, 6, 5, 6, 7, 8, 9]);
}

#[test]
fn relaxing_without_seeds_changes_nothing() {
    let mut grid = Grid::new(3, 1, 0);
    *grid.get_mut(1, 0) = 9;
    dijkstra(&mut grid, &[], |_| 1);
    assert_eq!(grid.data, vec![0, 9, 0]);
}

#[test]
fn the_seed_itself_is_not_visited_first() {
    // the seed is lower than its neighbour; only the neighbours of a raised cell follow
    let mut grid = Grid::new(3, 1, 0);
    *grid.get_mut(1, 0) = 9;
    dijkstra(&mut grid, &[ivec2(0, 0)], |_| 1);
    assert_eq!(grid.data, vec![0, 9, 0]);
    dijkstra(&mut grid, &[ivec2(1, 0)], |_| 1);
    assert_eq!(grid.data, vec![8, 9, 8]);
}
