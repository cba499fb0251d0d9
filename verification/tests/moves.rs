use comfy_wars::game::{
    Actor, GameState, GroundType, Team, TerrainType, UnitType, HP_MAX,
};
use comfy_wars::grid::Grid;
use comfy_wars::movement::{movement_cost, relax_for, IMPASSABLE};
use comfy_wars::position::Position;
use comfy_wars::turn::{
    goal_field, highest_cell, picked, plan_enemy_move, plan_player_move, reach_mask, stamp, Pick,
    BLOCKED_VALUE, ENEMY_GOAL_VALUE, MOVE_BUDGET, PLAYER_GOAL_VALUE,
};

fn p(x: i32, y: i32) -> Position {
    Position::new(x, y)
}

fn unit(x: i32, y: i32, team: Team) -> Actor {
    Actor {
        pos: p(x, y),
        sprite_coords: p(0, 0),
        team,
        unit_type: UnitType::Tank,
        hp: HP_MAX,
        has_moved: false,
    }
}

fn streets(width: i32, height: i32) -> GameState {
    let mut s = GameState::new();
    s.grids.ground = Grid::new(width, height, GroundType::Ground);
    s.grids.terrain = Grid::new(width, height, TerrainType::Street);
    s
}

#[test]
fn planning_constants() {
    assert_eq!(IMPASSABLE, 9999);
    assert_eq!(MOVE_BUDGET, 9);
    assert_eq!(PLAYER_GOAL_VALUE, 99);
    assert_eq!(ENEMY_GOAL_VALUE, 30);
    assert_eq!(BLOCKED_VALUE, -99);
}

#[test]
fn terrain_decides_the_cost_of_open_ground() {
    let mut s = streets(3, 1);
    *s.grids.terrain.get_mut(1, 0) = TerrainType::Plain;
    *s.grids.terrain.get_mut(2, 0) = TerrainType::Forest;
    let cost = movement_cost(&s, Team::Blue);
    assert_eq!(cost(p(0, 0)), 1);
    assert_eq!(cost(p(1, 0)), 2);
    assert_eq!(cost(p(2, 0)), 3);
}

#[test]
fn water_cannot_be_entered_by_any_team() {
    let mut s = streets(2, 2);
    *s.grids.ground.get_mut(1, 1) = GroundType::Water;
    *s.grids.terrain.get_mut(1, 1) = TerrainType::Street;
    for team in [Team::Blue, Team::Red] {
        let cost = movement_cost(&s, team);
        assert_eq!(cost(p(1, 1)), 9999);
        assert_eq!(cost(p(0, 1)), 1);
    }
}

#[test]
fn cells_of_the_other_team_cannot_be_entered() {
    let mut s = streets(3, 1);
    s.entities.insert(unit(0, 0, Team::Blue));
    s.entities.insert(unit(2, 0, Team::Red));
    let blue = movement_cost(&s, Team::Blue);
    assert_eq!(blue(p(0, 0)), 1);
    assert_eq!(blue(p(2, 0)), 9999);
    assert!(blue(p(2, 0)) >= IMPASSABLE);
    let red = movement_cost(&s, Team::Red);
    assert_eq!(red(p(0, 0)), 9999);
    assert_eq!(red(p(2, 0)), 1);
}

#[test]
fn positions_off_the_map_cost_what_the_nearest_cell_costs() {
    let mut s = streets(2, 2);
    *s.grids.ground.get_mut(0, 0) = GroundType::Water;
    *s.grids.terrain.get_mut(1, 1) = TerrainType::Forest;
    s.entities.insert(unit(1, 0, Team::Red));
    let cost = movement_cost(&s, Team::Blue);
    assert_eq!(cost(p(-4, -4)), 9999);
    assert_eq!(cost(p(7, 9)), 3);
    // the unit blocks its own cell only, not the positions that clamp to it
    assert_eq!(cost(p(1, 0)), 9999);
    assert_eq!(cost(p(5, 0)), 1);
}

#[test]
fn relax_for_uses_the_costs_of_the_team() {
    let mut s = streets(4, 1);
    *s.grids.terrain.get_mut(1, 0) = TerrainType::Forest;
    s.entities.insert(unit(3, 0, Team::Red));
    let mut grid = Grid::new(4, 1, 0);
    *grid.get_mut(0, 0) = 9;
    relax_for(&s, Team::Blue, &mut grid, &vec![p(0, 0)]);
    assert_eq!(grid.data, vec![9, 6, 5, 0]);
    let mut grid = Grid::new(4, 1, 0);
    *grid.get_mut(0, 0) = 9;
    relax_for(&s, Team::Red, &mut grid, &vec![p(0, 0)]);
    assert_eq!(grid.data, vec![9, 6, 5, 4]);
}

#[test]
fn stamp_overwrites_the_listed_cells() {
    let mut grid = Grid::filled_with(3, 2, |x, y| x + y);
    stamp(&mut grid, &vec![p(0, 0), p(2, 1), p(0, 0)], -99);
    assert_eq!(grid.data, vec![-99, 1, 2, 1, 2, -99]);
    stamp(&mut grid, &vec![], 5);
    assert_eq!(grid.data, vec![-99, 1, 2, 1, 2, -99]);
}

#[test]
fn highest_cell_is_the_last_of_the_highest() {
    let mut grid = Grid::new(3, 2, 0);
    assert_eq!(highest_cell(&grid), p(2, 1));
    *grid.get_mut(1, 0) = 4;
    assert_eq!(highest_cell(&grid), p(1, 0));
    *grid.get_mut(0, 1) = 4;
    assert_eq!(highest_cell(&grid), p(0, 1));
    *grid.get_mut(2, 0) = 5;
    assert_eq!(highest_cell(&grid), p(2, 0));
}

#[test]
fn picked_selects_units_in_the_order_of_the_directory() {
    let mut s = streets(4, 4);
    let a = s.entities.insert(unit(0, 0, Team::Blue));
    let b = s.entities.insert(unit(1, 0, Team::Red));
    let c = s.entities.insert(unit(2, 0, Team::Blue));
    assert_eq!(picked(&s.entities, Pick::All), (vec![p(0, 0), p(1, 0), p(2, 0)], vec![a, b, c]));
    assert_eq!(picked(&s.entities, Pick::Of(Team::Blue)), (vec![p(0, 0), p(2, 0)], vec![a, c]));
    assert_eq!(picked(&s.entities, Pick::Against(Team::Blue)), (vec![p(1, 0)], vec![b]));
    assert_eq!(picked(&s.entities, Pick::Except(a)), (vec![p(1, 0), p(2, 0)], vec![b, c]));
}

#[test]
fn reach_mask_marks_what_the_budget_pays_for() {
    let s = streets(7, 1);
    assert_eq!(reach_mask(&s, Team::Blue, p(0, 0), 3).data, vec![1, 1, 1, 0, 0, 0, 0]);
    assert_eq!(reach_mask(&s, Team::Blue, p(3, 0), 2).data, vec![0, 0, 1, 1, 1, 0, 0]);
    assert_eq!(reach_mask(&s, Team::Blue, p(0, 0), 9).data, vec![1; 7]);
    assert_eq!(reach_mask(&s, Team::Blue, p(0, 0), 0).data, vec![0; 7]);
}

#[test]
fn reach_mask_stops_at_enemies_and_water() {
    let mut s = streets(7, 1);
    s.entities.insert(unit(2, 0, Team::Red));
    *s.grids.ground.get_mut(5, 0) = GroundType::Water;
    assert_eq!(reach_mask(&s, Team::Blue, p(0, 0), 9).data, vec![1, 1, 0, 0, 0, 0, 0]);
    assert_eq!(reach_mask(&s, Team::Red, p(0, 0), 9).data, vec![1, 1, 1, 1, 1, 0, 0]);
}

#[test]
fn goal_field_falls_off_from_the_goal_within_the_mask() {
    let s = streets(5, 1);
    let mask = reach_mask(&s, Team::Blue, p(0, 0), 4);
    assert_eq!(mask.data, vec![1, 1, 1, 1, 0]);
    let field = goal_field(&s, Team::Blue, &vec![p(3, 0)], 99, &mask);
    assert_eq!(field.data, vec![96, 97, 98, 99, 0]);
    // a goal off the map is written to the nearest cell, but wakes its own neighbours
    let field = goal_field(&s, Team::Blue, &vec![p(9, 0)], 99, &Grid::new(5, 1, 1));
    assert_eq!(field.data, vec![0, 0, 0, 0, 99]);
    let field = goal_field(&s, Team::Blue, &vec![p(5, 0)], 99, &Grid::new(5, 1, 1));
    assert_eq!(field.data, vec![0, 0, 0, 0, 99]);
}

#[test]
fn player_plan_passes_an_ally_on_the_way_to_the_goal() {
    let mut s = streets(5, 1);
    let e = s.entities.insert(unit(0, 0, Team::Blue));
    s.entities.insert(unit(1, 0, Team::Blue));
    let plan = plan_player_move(&s, e, p(0, 0), p(3, 0));
    assert_eq!(plan.move_range.data, vec![1, 1, 1, 1, 1]);
    assert_eq!(plan.field.data, vec![96, 97, 98, 99, 98]);
    assert_eq!(plan.path, vec![p(0, 0), p(1, 0), p(2, 0), p(3, 0)]);
}

#[test]
fn player_plan_of_a_lone_unit_has_no_path() {
    let mut s = streets(5, 1);
    let e = s.entities.insert(unit(0, 0, Team::Blue));
    let plan = plan_player_move(&s, e, p(0, 0), p(3, 0));
    assert_eq!(plan.field.data, vec![-99, 97, 98, 99, 98]);
    assert!(plan.path.is_empty());
}

#[test]
fn player_plan_blocks_the_cells_of_enemies() {
    let mut s = streets(3, 3);
    let e = s.entities.insert(unit(0, 0, Team::Blue));
    s.entities.insert(unit(1, 0, Team::Blue));
    s.entities.insert(unit(2, 2, Team::Red));
    let plan = plan_player_move(&s, e, p(0, 0), p(2, 0));
    assert_eq!(*plan.field.get(2, 2), -99);
    assert_eq!(*plan.move_range.get(2, 2), 0);
    assert_eq!(plan.path, vec![p(0, 0), p(1, 0), p(2, 0)]);
}

#[test]
fn enemy_plan_heads_for_the_free_cell_next_to_the_player() {
    let mut s = streets(5, 1);
    s.entities.insert(unit(0, 0, Team::Blue));
    let index = s.entities.insert(unit(4, 0, Team::Red));
    let plan = plan_enemy_move(&s, index);
    assert_eq!(plan.move_range.data, vec![0, 1, 1, 1, 1]);
    assert_eq!(plan.field.data, vec![0, 30, 29, 28, 27]);
    assert_eq!(plan.path, vec![p(4, 0), p(3, 0), p(2, 0), p(1, 0)]);
}

#[test]
fn enemy_plan_stays_where_nothing_is_better() {
    let mut s = streets(3, 1);
    let index = s.entities.insert(unit(1, 0, Team::Red));
    let plan = plan_enemy_move(&s, index);
    assert_eq!(plan.move_range.data, vec![1, 1, 1]);
    assert_eq!(plan.field.data, vec![29, 30, 29]);
    assert_eq!(plan.path, vec![p(1, 0)]);
}
