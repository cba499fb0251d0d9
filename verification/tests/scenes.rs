use comfy_wars::data::{
    grid_from_layer, ground_type, new_actor, terrain_type, EntityDef, EntityOnMap, Layer,
    SpriteData,
};
use comfy_wars::debug::{cw_debug, cw_draw_debug_window, DebugLog};
use comfy_wars::dijkstra::{dijkstra, dijkstra_path};
use comfy_wars::game::{Actor, GameState, GroundType, Team, TerrainType, UnitType};
use comfy_wars::grid::Grid;
use comfy_wars::position::Position;
use comfy_wars::scene::{
    draw_actors, draw_dijkstra_map, draw_order, is_walkable, draw_move_path, draw_move_range, hp_badge, ActorPicture,
    ArrowPiece,
};

fn p(x: i32, y: i32) -> Position {
    Position::new(x, y)
}

#[test]
fn short_paths_have_no_arrow() {
    assert!(draw_move_path(&vec![]).is_empty());
    assert!(draw_move_path(&vec![p(3, 3)]).is_empty());
}

#[test]
fn a_single_step_is_shown_by_a_head() {
    assert_eq!(draw_move_path(&vec![p(1, 1), p(0, 1)]), vec![(ArrowPiece::HeadWest, p(0, 1))]);
    assert_eq!(draw_move_path(&vec![p(1, 1), p(2, 1)]), vec![(ArrowPiece::HeadEast, p(2, 1))]);
    assert_eq!(draw_move_path(&vec![p(1, 1), p(1, 2)]), vec![(ArrowPiece::HeadSouth, p(1, 2))]);
    assert_eq!(draw_move_path(&vec![p(1, 1), p(1, 0)]), vec![(ArrowPiece::HeadNorth, p(1, 0))]);
}

#[test]
fn straight_pieces_and_bends() {
    let piece = |a: Position, b: Position, c: Position| draw_move_path(&vec![a, b, c])[0].0;
    assert_eq!(piece(p(2, 1), p(1, 1), p(0, 1)), ArrowPiece::WestEast);
    assert_eq!(piece(p(0, 1), p(1, 1), p(2, 1)), ArrowPiece::WestEast);
    assert_eq!(piece(p(1, 2), p(1, 1), p(1, 0)), ArrowPiece::NorthSouth);
    assert_eq!(piece(p(1, 0), p(1, 1), p(1, 2)), ArrowPiece::NorthSouth);
    assert_eq!(piece(p(1, 0), p(1, 1), p(2, 1)), ArrowPiece::NorthEast);
    assert_eq!(piece(p(2, 1), p(1, 1), p(1, 0)), ArrowPiece::NorthEast);
    assert_eq!(piece(p(1, 2), p(1, 1), p(2, 1)), ArrowPiece::SouthEast);
    assert_eq!(piece(p(2, 1), p(1, 1), p(1, 2)), ArrowPiece::SouthEast);
    assert_eq!(piece(p(1, 0), p(1, 1), p(0, 1)), ArrowPiece::WestNorth);
    assert_eq!(piece(p(0, 1), p(1, 1), p(1, 0)), ArrowPiece::WestNorth);
    assert_eq!(piece(p(1, 2), p(1, 1), p(0, 1)), ArrowPiece::WestSouth);
    assert_eq!(piece(p(0, 1), p(1, 1), p(1, 2)), ArrowPiece::WestSouth);
}

#[test]
fn an_arrow_follows_the_whole_path() {
    let path = vec![p(0, 0), p(1, 0), p(1, 1), p(1, 2), p(2, 2)];
    assert_eq!(
        draw_move_path(&path),
        vec![
            (ArrowPiece::WestSouth, p(1, 0)),
            (ArrowPiece::NorthSouth, p(1, 1)),
            (ArrowPiece::NorthEast, p(1, 2)),
            (ArrowPiece::HeadEast, p(2, 2))
        ]
    );
}

#[test]
fn sprites_of_the_arrow_pieces() {
    assert_eq!(ArrowPiece::WestEast.sprite(), "arrow_we");
    assert_eq!(ArrowPiece::NorthSouth.sprite(), "arrow_ns");
    assert_eq!(ArrowPiece::NorthEast.sprite(), "arrow_ne");
    assert_eq!(ArrowPiece::SouthEast.sprite(), "arrow_se");
    assert_eq!(ArrowPiece::WestNorth.sprite(), "arrow_wn");
    assert_eq!(ArrowPiece::WestSouth.sprite(), "arrow_ws");
    assert_eq!(ArrowPiece::HeadWest.sprite(), "arrow_w");
    assert_eq!(ArrowPiece::HeadEast.sprite(), "arrow_e");
    assert_eq!(ArrowPiece::HeadSouth.sprite(), "arrow_s");
    assert_eq!(ArrowPiece::HeadNorth.sprite(), "arrow_n");
}

#[test]
fn a_climbed_path_can_be_shown() {
    let mut grid = Grid::new(6, 6, 0);
    *grid.get_mut(4, 4) = 9;
    dijkstra(&mut grid, &[p(4, 4)], |_| 1);
    let path = dijkstra_path(&grid, p(1, 2));
    assert_eq!(path.len(), 6);
    assert_eq!(path[0], p(1, 2));
    assert_eq!(path[5], p(4, 4));
    let arrow = draw_move_path(&path);
    assert_eq!(arrow.len(), 5);
    for (i, (_, cell)) in arrow.iter().enumerate() {
        assert_eq!(*cell, path[i + 1]);
    }
}

#[test]
fn the_move_range_marks_positive_cells() {
    let grid = Grid::filled_with(3, 2, |x, y| x - y);
    assert_eq!(grid.data, vec![0, 1, 2, -1, 0, 1]);
    assert_eq!(draw_move_range(&grid), vec![p(1, 0), p(2, 0), p(2, 1)]);
    assert!(draw_move_range(&Grid::new(2, 2, 0)).is_empty());
}

#[test]
fn hurt_units_show_their_hit_points() {
    assert_eq!(hp_badge(10), None);
    assert_eq!(hp_badge(11), None);
    assert_eq!(hp_badge(0), Some("hp_0"));
    assert_eq!(hp_badge(1), Some("hp_1"));
    assert_eq!(hp_badge(2), Some("hp_2"));
    assert_eq!(hp_badge(3), Some("hp_3"));
    assert_eq!(hp_badge(4), Some("hp_4"));
    assert_eq!(hp_badge(5), Some("hp_5"));
    assert_eq!(hp_badge(6), Some("hp_6"));
    assert_eq!(hp_badge(7), Some("hp_7"));
    assert_eq!(hp_badge(8), Some("hp_8"));
    assert_eq!(hp_badge(9), Some("hp_9"));
    assert_eq!(hp_badge(-1), Some("hp_question"));
}

#[test]
fn level_codes_name_ground_and_terrain() {
    assert_eq!(ground_type(1), Some(GroundType::Ground));
    assert_eq!(ground_type(2), Some(GroundType::Water));
    assert_eq!(ground_type(0), None);
    assert_eq!(ground_type(3), None);
    assert_eq!(terrain_type(0), Some(TerrainType::Plain));
    for code in 1..=4 {
        assert_eq!(terrain_type(code), Some(TerrainType::Street));
    }
    assert_eq!(terrain_type(5), Some(TerrainType::Forest));
    assert_eq!(terrain_type(6), None);
    assert_eq!(terrain_type(-1), None);
}

#[test]
fn a_layer_becomes_a_grid() {
    let layer = Layer {
        id: String::from("groundgrid"),
        int_grid: vec![1, 1, 2, 2, 1, 1],
        width: 3,
        height: 2,
    };
    let grid = grid_from_layer(&layer, |code| ground_type(code).unwrap());
    assert_eq!(grid.width, 3);
    assert_eq!(grid.height, 2);
    assert_eq!(*grid.get(2, 0), GroundType::Water);
    assert_eq!(*grid.get(0, 1), GroundType::Water);
    assert_eq!(*grid.get(1, 1), GroundType::Ground);
    let codes = grid_from_layer(&layer, |code| code * 10);
    assert_eq!(codes.data, vec![10, 10, 20, 20, 10, 10]);
}

#[test]
fn a_unit_enters_the_map_in_full_health() {
    let def = EntityDef {
        sprite: SpriteData { x: 16, y: 32 },
        team: Team::Red,
        unit_type: UnitType::Tank,
    };
    let place = EntityOnMap { def: String::from("red_tank"), pos: [3, 7] };
    assert_eq!(
        new_actor(&def, &place),
        Actor {
            pos: p(3, 7),
            sprite_coords: p(16, 32),
            team: Team::Red,
            unit_type: UnitType::Tank,
            hp: 10,
            has_moved: false,
        }
    );
}

#[test]
fn debug_lines_are_shown_once() {
    let mut log = DebugLog::new();
    assert!(cw_draw_debug_window(&mut log).is_empty());
    cw_debug(&mut log, String::from("first"));
    cw_debug(&mut log, String::from("second"));
    assert_eq!(log.lines.len(), 2);
    assert_eq!(cw_draw_debug_window(&mut log), vec![String::from("first"), String::from("second")]);
    assert!(log.lines.is_empty());
    assert!(cw_draw_debug_window(&mut log).is_empty());
}

#[test]
fn a_shown_field_labels_its_positive_cells() {
    let grid = Grid::filled_with(2, 2, |x, y| 3 * x - 2 * y);
    assert_eq!(grid.data, vec![0, 3, -2, 1]);
    assert_eq!(
        draw_dijkstra_map(&grid),
        vec![(p(0, 0), None), (p(1, 0), Some(3)), (p(0, 1), None), (p(1, 1), Some(1))]
    );
}

#[test]
fn units_are_shown_with_mark_and_badge() {
    let mut s = GameState::new();
    let fresh = Actor {
        pos: p(0, 0),
        sprite_coords: p(16, 0),
        team: Team::Blue,
        unit_type: UnitType::Infantry,
        hp: 10,
        has_moved: false,
    };
    let a = s.entities.insert(fresh);
    let b = s.entities.insert(Actor { hp: 4, has_moved: true, sprite_coords: p(32, 16), ..fresh });
    assert_eq!(
        draw_actors(&s),
        vec![
            ActorPicture { key: a, sprite_coords: p(16, 0), greyed: false, badge: None },
            ActorPicture { key: b, sprite_coords: p(32, 16), greyed: true, badge: Some("hp_4") }
        ]
    );
}

#[test]
fn debug_views_are_switched_on_and_off() {
    let mut s = GameState::new();
    assert!(!s.ui.draw_dijkstra_map);
    s.ui.toggle_dijkstra_map();
    assert!(s.ui.draw_dijkstra_map);
    assert!(!s.ui.draw_ai_map);
    s.ui.toggle_ai_map();
    s.ui.toggle_dijkstra_map();
    assert!(s.ui.draw_ai_map);
    assert!(!s.ui.draw_dijkstra_map);
}

#[test]
fn drawing_goes_layer_by_layer_and_keeps_the_order_within_a_layer() {
    assert_eq!(draw_order(&vec![]), Vec::<usize>::new());
    assert_eq!(draw_order(&vec![7]), vec![0]);
    assert_eq!(draw_order(&vec![20, 0, 10, 0, 21, 10, 100, 0]), vec![1, 3, 7, 2, 5, 0, 4, 6]);
    assert_eq!(draw_order(&vec![3, 2, 1]), vec![2, 1, 0]);
    assert_eq!(draw_order(&vec![5, 5, 5]), vec![0, 1, 2]);
    assert_eq!(draw_order(&vec![i32::MAX, i32::MIN, 0]), vec![1, 2, 0]);
}

#[test]
fn only_walkable_paths_get_an_arrow() {
    assert!(is_walkable(&vec![]));
    assert!(is_walkable(&vec![p(4, 4)]));
    assert!(is_walkable(&vec![p(0, 0), p(1, 0), p(1, 1), p(0, 1), p(0, 0)]));
    assert!(!is_walkable(&vec![p(0, 0), p(1, 1)]));
    assert!(!is_walkable(&vec![p(0, 0), p(2, 0)]));
    assert!(!is_walkable(&vec![p(0, 0), p(0, 0)]));
    assert!(!is_walkable(&vec![p(0, 0), p(1, 0), p(0, 0)]));
    assert!(!is_walkable(&vec![p(i32::MIN, 0), p(i32::MAX, 0)]));
    assert!(is_walkable(&vec![p(i32::MAX, 0), p(i32::MAX - 1, 0)]));
}
