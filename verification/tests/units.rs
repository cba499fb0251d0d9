use comfy_wars::actors::ActorDirectory;
use comfy_wars::combat::{damage_tick, resolve_defeat, strike, ATTACK_DAMAGE};
use comfy_wars::game::{
    actor_at_pos, enemies_in_range, Actor, GamePhase, GameState, GroundType, MoveState, Team,
    TerrainType, UnitType, ENEMY_TEAM, HP_MAX, PLAYER_TEAM,
};
use comfy_wars::grid::Grid;
use comfy_wars::position::Position;

fn unit(x: i32, y: i32, team: Team) -> Actor {
    Actor {
        pos: Position::new(x, y),
        sprite_coords: Position::new(0, 0),
        team,
        unit_type: UnitType::Infantry,
        hp: HP_MAX,
        has_moved: false,
    }
}

fn world(width: i32, height: i32) -> GameState {
    let mut s = GameState::new();
    s.grids.ground = Grid::new(width, height, GroundType::Ground);
    s.grids.terrain = Grid::new(width, height, TerrainType::Street);
    s
}

#[test]
fn teams_and_limits() {
    assert_eq!(PLAYER_TEAM, Team::Blue);
    assert_eq!(ENEMY_TEAM, Team::Red);
    assert_eq!(HP_MAX, 10);
    assert_eq!(ATTACK_DAMAGE, 5);
    assert_eq!(GroundType::default(), GroundType::Ground);
    assert_eq!(TerrainType::default(), TerrainType::Plain);
}

#[test]
fn new_game_is_empty() {
    let s = GameState::new();
    assert_eq!(s.entities.len(), 0);
    assert_eq!(s.grids.ground.width, 0);
    assert_eq!(s.grids.terrain.height, 0);
    assert_eq!(s.phase, GamePhase::PlayerPhase);
    assert_eq!(s.ui.move_state, MoveState::Idle);
    assert!(s.ui.selected_entity.is_none());
    assert!(s.ui.chosen_enemy.is_none());
    assert!(s.is_playable());
}

#[test]
fn directory_hands_out_distinct_handles() {
    let mut d = ActorDirectory::new();
    let a = d.insert(unit(0, 0, Team::Blue));
    let b = d.insert(unit(1, 0, Team::Red));
    let c = d.try_insert(unit(2, 0, Team::Red)).unwrap();
    assert!(!ActorDirectory::same(a, b));
    assert!(!ActorDirectory::same(b, c));
    assert!(ActorDirectory::same(b, b));
    assert_eq!(d.len(), 3);
    assert_eq!(d.get(a), Some(unit(0, 0, Team::Blue)));
    assert_eq!(d.get(b), Some(unit(1, 0, Team::Red)));
    let all = d.iter();
    assert_eq!(all.len(), 3);
    assert_eq!(all[0], (a, unit(0, 0, Team::Blue)));
    assert_eq!(all[1], (b, unit(1, 0, Team::Red)));
    assert_eq!(all[2], (c, unit(2, 0, Team::Red)));
}

#[test]
fn directory_removes_and_forgets() {
    let mut d = ActorDirectory::new();
    let a = d.insert(unit(0, 0, Team::Blue));
    let b = d.insert(unit(1, 0, Team::Red));
    assert_eq!(d.remove(a), Some(unit(0, 0, Team::Blue)));
    assert_eq!(d.remove(a), None);
    assert_eq!(d.get(a), None);
    assert_eq!(d.len(), 1);
    assert_eq!(d.iter(), vec![(b, unit(1, 0, Team::Red))]);
    let c = d.insert(unit(5, 5, Team::Blue));
    assert!(!ActorDirectory::same(a, c));
    assert_eq!(d.get(a), None);
    assert_eq!(d.get(c), Some(unit(5, 5, Team::Blue)));
}

#[test]
fn directory_replaces_in_place() {
    let mut d = ActorDirectory::new();
    let a = d.insert(unit(0, 0, Team::Blue));
    let b = d.insert(unit(1, 0, Team::Red));
    assert!(d.replace(a, unit(3, 3, Team::Blue)));
    assert_eq!(d.iter(), vec![(a, unit(3, 3, Team::Blue)), (b, unit(1, 0, Team::Red))]);
    d.remove(b);
    assert!(!d.replace(b, unit(4, 4, Team::Red)));
    assert_eq!(d.iter(), vec![(a, unit(3, 3, Team::Blue))]);
}

#[test]
fn actor_at_pos_finds_the_first_unit_on_the_cell() {
    let mut s = world(4, 4);
    let a = s.entities.insert(unit(1, 1, Team::Blue));
    let _b = s.entities.insert(unit(1, 1, Team::Red));
    let c = s.entities.insert(unit(2, 1, Team::Red));
    assert_eq!(actor_at_pos(&s, Position::new(1, 1)), Some(a));
    assert_eq!(actor_at_pos(&s, Position::new(2, 1)), Some(c));
    assert_eq!(actor_at_pos(&s, Position::new(0, 0)), None);
    assert_eq!(actor_at_pos(&GameState::new(), Position::new(0, 0)), None);
}

#[test]
fn enemies_in_range_lists_foes_left_right_down_up() {
    let mut s = world(5, 5);
    let me = s.entities.insert(unit(2, 2, Team::Blue));
    let up = s.entities.insert(unit(2, 1, Team::Red));
    let _ally = s.entities.insert(unit(3, 2, Team::Blue));
    let left = s.entities.insert(unit(1, 2, Team::Red));
    let _far = s.entities.insert(unit(4, 4, Team::Red));
    let _diagonal = s.entities.insert(unit(1, 1, Team::Red));
    let down = s.entities.insert(unit(2, 3, Team::Red));
    assert_eq!(
        enemies_in_range(&s, me),
        vec![
            (left, Position::new(1, 2)),
            (down, Position::new(2, 3)),
            (up, Position::new(2, 1))
        ]
    );
    assert_eq!(enemies_in_range(&s, up), vec![(me, Position::new(2, 2))]);
}

#[test]
fn enemies_in_range_is_empty_without_a_foe_next_to_the_unit() {
    let mut s = world(5, 5);
    let me = s.entities.insert(unit(0, 0, Team::Blue));
    s.entities.insert(unit(1, 0, Team::Blue));
    s.entities.insert(unit(1, 1, Team::Red));
    s.entities.insert(unit(2, 0, Team::Red));
    assert!(enemies_in_range(&s, me).is_empty());
}

#[test]
fn enemies_in_range_ignores_cells_off_the_map() {
    let mut s = world(2, 2);
    let me = s.entities.insert(unit(0, 0, Team::Blue));
    s.entities.insert(unit(-1, 0, Team::Red));
    s.entities.insert(unit(0, -1, Team::Red));
    assert!(enemies_in_range(&s, me).is_empty());
}

#[test]
fn damage_tick_takes_one_hit_point() {
    let mut s = world(3, 3);
    let a = s.entities.insert(unit(0, 0, Team::Blue));
    let b = s.entities.insert(unit(1, 0, Team::Red));
    damage_tick(&mut s, b);
    assert_eq!(s.entities.get(b).unwrap().hp, 9);
    assert_eq!(s.entities.get(a).unwrap().hp, 10);
    assert_eq!(s.entities.get(b).unwrap().pos, Position::new(1, 0));
}

#[test]
fn resolve_defeat_removes_only_units_without_hit_points() {
    let mut s = world(3, 3);
    let a = s.entities.insert(Actor { hp: 1, ..unit(0, 0, Team::Blue) });
    let b = s.entities.insert(Actor { hp: 0, ..unit(1, 0, Team::Red) });
    let c = s.entities.insert(Actor { hp: -3, ..unit(2, 0, Team::Red) });
    assert!(!resolve_defeat(&mut s, a));
    assert!(resolve_defeat(&mut s, b));
    assert!(resolve_defeat(&mut s, c));
    assert_eq!(s.entities.len(), 1);
    assert!(s.entities.get(a).is_some());
    assert!(s.entities.get(b).is_none());
}

#[test]
fn a_unit_with_one_hit_point_does_not_survive_an_attack() {
    let mut s = world(3, 3);
    let a = s.entities.insert(unit(0, 0, Team::Blue));
    let b = s.entities.insert(Actor { hp: 1, ..unit(1, 0, Team::Red) });
    assert!(strike(&mut s, b));
    assert!(s.entities.get(b).is_none());
    assert_eq!(s.entities.iter(), vec![(a, unit(0, 0, Team::Blue))]);
}

#[test]
fn an_attack_takes_five_hit_points() {
    let mut s = world(3, 3);
    let b = s.entities.insert(unit(1, 0, Team::Red));
    assert!(!strike(&mut s, b));
    assert_eq!(s.entities.get(b), Some(Actor { hp: 5, ..unit(1, 0, Team::Red) }));
    assert!(strike(&mut s, b));
    assert_eq!(s.entities.len(), 0);
}

#[test]
fn a_unit_with_six_hit_points_survives_with_one() {
    let mut s = world(3, 3);
    let b = s.entities.insert(Actor { hp: 6, ..unit(1, 0, Team::Red) });
    assert!(!strike(&mut s, b));
    assert_eq!(s.entities.get(b).unwrap().hp, 1);
}

#[test]
fn playable_states_are_told_apart() {
    let mut s = world(3, 3);
    s.entities.insert(unit(2, 2, Team::Blue));
    assert!(s.is_playable());
    let off = s.entities.insert(unit(3, 0, Team::Red));
    assert!(!s.is_playable());
    s.entities.remove(off);
    assert!(s.is_playable());
    let weak = s.entities.insert(Actor { hp: 11, ..unit(0, 0, Team::Red) });
    assert!(!s.is_playable());
    s.entities.replace(weak, Actor { hp: 0, ..unit(0, 0, Team::Red) });
    assert!(s.is_playable());
    s.grids.terrain = Grid::new(3, 2, TerrainType::Plain);
    assert!(!s.is_playable());
}
