use comfy_wars::enemy::{
    begin_enemy_phase, enemy_phase_step, EnemyAction, EnemyStage, AIM_TICKS, HIGHLIGHT_TICKS,
};
use comfy_wars::game::{
    Actor, GamePhase, GameState, GroundType, MoveState, Team, TerrainType, UnitType, HP_MAX,
};
use comfy_wars::grid::Grid;
use comfy_wars::phase::{
    attack_options, begin_move, cancel_attack, choose_attack, confirm_attack, confirm_wait,
    current_target, end_player_phase, finish_attack, finish_move, next_target, place_unit,
    reset_moved, select_unit, set_moved, stand_still,
};
use comfy_wars::position::Position;

fn p(x: i32, y: i32) -> Position {
    Position::new(x, y)
}

fn unit(x: i32, y: i32, team: Team) -> Actor {
    Actor {
        pos: p(x, y),
        sprite_coords: p(0, 0),
        team,
        unit_type: UnitType::Infantry,
        hp: HP_MAX,
        has_moved: false,
    }
}

fn streets(width: i32, height: i32) -> GameState {
    let mut s = GameState::new();
    s.grids.ground = Grid::new(width, height, GroundType::Ground);
    s.grids.terrain = Grid::new(width, height, TerrainType::Street);
    s
}

#[test]
fn a_click_selects_the_last_ready_unit_of_the_player_on_the_cell() {
    let mut s = streets(4, 4);
    let _a = s.entities.insert(unit(1, 1, Team::Blue));
    let b = s.entities.insert(unit(1, 1, Team::Blue));
    let _c = s.entities.insert(unit(1, 1, Team::Red));
    let _d = s.entities.insert(Actor { has_moved: true, ..unit(1, 1, Team::Blue) });
    select_unit(&mut s, p(1, 1));
    assert_eq!(s.ui.selected_entity, Some(b));
    select_unit(&mut s, p(2, 2));
    assert_eq!(s.ui.selected_entity, None);
}

#[test]
fn a_click_during_a_move_selects_nothing_new() {
    let mut s = streets(4, 4);
    let a = s.entities.insert(unit(1, 1, Team::Blue));
    let _b = s.entities.insert(unit(2, 2, Team::Blue));
    select_unit(&mut s, p(1, 1));
    stand_still(&mut s);
    assert_eq!(s.ui.move_state, MoveState::Confirm);
    select_unit(&mut s, p(2, 2));
    assert_eq!(s.ui.selected_entity, Some(a));
}

#[test]
fn a_unit_walks_only_along_a_path() {
    let mut s = streets(4, 4);
    let a = s.entities.insert(unit(1, 1, Team::Blue));
    assert!(!begin_move(&mut s, &vec![p(1, 1), p(2, 1)]));
    select_unit(&mut s, p(1, 1));
    assert!(!begin_move(&mut s, &vec![]));
    assert_eq!(s.ui.move_state, MoveState::Idle);
    assert!(begin_move(&mut s, &vec![p(1, 1), p(2, 1)]));
    assert_eq!(s.ui.move_state, MoveState::Moving);
    assert!(!begin_move(&mut s, &vec![p(1, 1), p(2, 1)]));
    finish_move(&mut s, a, &vec![p(1, 1), p(2, 1)]);
    assert_eq!(s.ui.move_state, MoveState::Confirm);
    assert_eq!(s.entities.get(a).unwrap().pos, p(2, 1));
    assert_eq!(s.ui.selected_entity, Some(a));
}

#[test]
fn wait_ends_the_turn_of_the_unit() {
    let mut s = streets(4, 4);
    let a = s.entities.insert(unit(1, 1, Team::Blue));
    assert!(!confirm_wait(&mut s));
    select_unit(&mut s, p(1, 1));
    assert!(!confirm_wait(&mut s));
    stand_still(&mut s);
    assert!(confirm_wait(&mut s));
    assert_eq!(s.ui.move_state, MoveState::Idle);
    assert_eq!(s.ui.selected_entity, None);
    assert!(s.entities.get(a).unwrap().has_moved);
    select_unit(&mut s, p(1, 1));
    assert_eq!(s.ui.selected_entity, None);
}

#[test]
fn attack_is_not_offered_without_an_enemy_in_range() {
    let mut s = streets(4, 4);
    s.entities.insert(unit(1, 1, Team::Blue));
    s.entities.insert(unit(3, 3, Team::Red));
    s.entities.insert(unit(2, 1, Team::Blue));
    select_unit(&mut s, p(1, 1));
    stand_still(&mut s);
    assert!(attack_options(&s).is_empty());
    assert!(!choose_attack(&mut s));
    assert_eq!(s.ui.move_state, MoveState::Confirm);
    assert_eq!(current_target(&s), None);
    assert_eq!(confirm_attack(&mut s), None);
    assert_eq!(s.ui.move_state, MoveState::Confirm);
}

#[test]
fn an_attack_goes_from_choice_to_the_end_of_the_turn() {
    let mut s = streets(4, 4);
    let a = s.entities.insert(unit(1, 1, Team::Blue));
    let right = s.entities.insert(unit(2, 1, Team::Red));
    let left = s.entities.insert(unit(0, 1, Team::Red));
    assert!(attack_options(&s).is_empty());
    select_unit(&mut s, p(1, 1));
    assert!(!choose_attack(&mut s));
    stand_still(&mut s);
    assert_eq!(attack_options(&s), vec![(left, p(0, 1)), (right, p(2, 1))]);
    assert!(choose_attack(&mut s));
    assert_eq!(s.ui.move_state, MoveState::ChooseAttack);
    assert_eq!(current_target(&s), Some((left, p(0, 1))));
    next_target(&mut s);
    assert_eq!(s.ui.chosen_enemy, Some(1));
    assert_eq!(current_target(&s), Some((right, p(2, 1))));
    next_target(&mut s);
    assert_eq!(s.ui.chosen_enemy, Some(0));
    next_target(&mut s);
    assert_eq!(confirm_attack(&mut s), Some((a, right, p(2, 1))));
    assert_eq!(s.ui.move_state, MoveState::Attacking);
    assert_eq!(s.ui.chosen_enemy, None);
    assert_eq!(s.ui.selected_entity, Some(a));
    assert!(finish_attack(&mut s));
    assert_eq!(s.ui.move_state, MoveState::Idle);
    assert_eq!(s.ui.selected_entity, None);
    assert!(s.entities.get(a).unwrap().has_moved);
    assert!(!finish_attack(&mut s));
}

#[test]
fn backing_out_of_the_choice_lets_the_unit_go() {
    let mut s = streets(4, 4);
    let a = s.entities.insert(unit(1, 1, Team::Blue));
    s.entities.insert(unit(2, 1, Team::Red));
    select_unit(&mut s, p(1, 1));
    cancel_attack(&mut s);
    assert_eq!(s.ui.selected_entity, Some(a));
    stand_still(&mut s);
    choose_attack(&mut s);
    cancel_attack(&mut s);
    assert_eq!(s.ui.move_state, MoveState::Idle);
    assert_eq!(s.ui.selected_entity, None);
    assert!(!s.entities.get(a).unwrap().has_moved);
}

#[test]
fn next_target_changes_nothing_outside_the_choice() {
    let mut s = streets(4, 4);
    s.entities.insert(unit(1, 1, Team::Blue));
    s.entities.insert(unit(2, 1, Team::Red));
    select_unit(&mut s, p(1, 1));
    next_target(&mut s);
    assert_eq!(s.ui.chosen_enemy, None);
    stand_still(&mut s);
    next_target(&mut s);
    assert_eq!(s.ui.chosen_enemy, None);
}

#[test]
fn marks_and_places_touch_one_unit() {
    let mut s = streets(4, 4);
    let a = s.entities.insert(unit(1, 1, Team::Blue));
    let b = s.entities.insert(unit(2, 1, Team::Red));
    set_moved(&mut s, a, true);
    place_unit(&mut s, b, p(3, 3));
    assert_eq!(
        s.entities.iter(),
        vec![
            (a, Actor { has_moved: true, ..unit(1, 1, Team::Blue) }),
            (b, unit(3, 3, Team::Red))
        ]
    );
    set_moved(&mut s, b, true);
    reset_moved(&mut s);
    assert_eq!(s.entities.iter(), vec![(a, unit(1, 1, Team::Blue)), (b, unit(3, 3, Team::Red))]);
}

#[test]
fn ending_the_phase_hands_over_to_the_scripted_units() {
    let mut s = streets(2, 2);
    end_player_phase(&mut s);
    assert_eq!(s.phase, GamePhase::EnemyPhase);
}

#[test]
fn waits_of_the_scripted_phase() {
    assert_eq!(HIGHLIGHT_TICKS, 20);
    assert_eq!(AIM_TICKS, 20);
}

#[test]
fn the_scripted_phase_moves_attacks_and_hands_back() {
    let mut s = streets(5, 1);
    let blue = s.entities.insert(Actor { has_moved: true, ..unit(0, 0, Team::Blue) });
    let red = s.entities.insert(unit(4, 0, Team::Red));
    end_player_phase(&mut s);
    assert!(s.is_playable());
    let mut turn = begin_enemy_phase(&mut s);
    assert_eq!(turn.units, vec![red]);
    assert_eq!(turn.stage, EnemyStage::Planning);
    assert!(!s.entities.get(blue).unwrap().has_moved);

    match enemy_phase_step(&mut s, &mut turn) {
        EnemyAction::Show { unit, plan } => {
            assert_eq!(unit, red);
            assert_eq!(plan.path, vec![p(4, 0), p(3, 0), p(2, 0), p(1, 0)]);
            assert_eq!(plan.move_range.data, vec![0, 1, 1, 1, 1]);
        }
        _ => panic!("the plan was to be shown"),
    }
    assert_eq!(turn.stage, EnemyStage::Moving);
    assert_eq!(s.entities.get(red).unwrap().pos, p(4, 0));

    assert!(matches!(enemy_phase_step(&mut s, &mut turn), EnemyAction::Aim { unit } if unit == red));
    assert_eq!(s.entities.get(red).unwrap().pos, p(1, 0));
    assert_eq!(turn.stage, EnemyStage::Aiming);

    match enemy_phase_step(&mut s, &mut turn) {
        EnemyAction::Attack { attacker, target, cell } => {
            assert_eq!((attacker, target, cell), (red, blue, p(0, 0)));
        }
        _ => panic!("an attack was due"),
    }
    assert_eq!(turn.stage, EnemyStage::Striking);
    assert_eq!(s.entities.get(blue).unwrap().hp, 10);

    assert!(matches!(enemy_phase_step(&mut s, &mut turn), EnemyAction::Next));
    assert_eq!(s.entities.get(blue).unwrap().hp, 5);
    assert!(s.entities.get(red).unwrap().has_moved);
    assert_eq!(turn.current, 1);
    assert_eq!(turn.stage, EnemyStage::Planning);

    assert!(matches!(enemy_phase_step(&mut s, &mut turn), EnemyAction::Done));
    assert_eq!(turn.stage, EnemyStage::Over);
    assert_eq!(s.phase, GamePhase::PlayerPhase);
    assert!(!s.entities.get(red).unwrap().has_moved);
    assert!(matches!(enemy_phase_step(&mut s, &mut turn), EnemyAction::Done));
    assert_eq!(s.phase, GamePhase::PlayerPhase);
}

#[test]
fn a_scripted_unit_without_an_enemy_next_to_it_just_ends_its_turn() {
    let mut s = streets(3, 1);
    let red = s.entities.insert(unit(1, 0, Team::Red));
    let mut turn = begin_enemy_phase(&mut s);
    assert!(matches!(enemy_phase_step(&mut s, &mut turn), EnemyAction::Show { .. }));
    assert_eq!(turn.path, vec![p(1, 0)]);
    assert!(matches!(enemy_phase_step(&mut s, &mut turn), EnemyAction::Aim { .. }));
    assert_eq!(s.entities.get(red).unwrap().pos, p(1, 0));
    assert!(matches!(enemy_phase_step(&mut s, &mut turn), EnemyAction::Next));
    assert!(s.entities.get(red).unwrap().has_moved);
    assert!(matches!(enemy_phase_step(&mut s, &mut turn), EnemyAction::Done));
    assert!(!s.entities.get(red).unwrap().has_moved);
}

#[test]
fn a_scripted_attack_removes_a_weak_unit() {
    let mut s = streets(2, 1);
    let blue = s.entities.insert(Actor { hp: 1, ..unit(0, 0, Team::Blue) });
    let red = s.entities.insert(unit(1, 0, Team::Red));
    let mut turn = begin_enemy_phase(&mut s);
    assert!(matches!(enemy_phase_step(&mut s, &mut turn), EnemyAction::Show { .. }));
    assert!(matches!(enemy_phase_step(&mut s, &mut turn), EnemyAction::Aim { .. }));
    assert!(matches!(enemy_phase_step(&mut s, &mut turn), EnemyAction::Attack { .. }));
    assert!(matches!(enemy_phase_step(&mut s, &mut turn), EnemyAction::Next));
    assert_eq!(s.entities.get(blue), None);
    assert_eq!(s.entities.len(), 1);
    assert!(s.entities.get(red).unwrap().has_moved);
    assert!(matches!(enemy_phase_step(&mut s, &mut turn), EnemyAction::Done));
}

#[test]
fn a_phase_without_scripted_units_is_over_at_once() {
    let mut s = streets(2, 1);
    let blue = s.entities.insert(Actor { has_moved: true, ..unit(0, 0, Team::Blue) });
    end_player_phase(&mut s);
    let mut turn = begin_enemy_phase(&mut s);
    assert!(turn.units.is_empty());
    assert!(matches!(enemy_phase_step(&mut s, &mut turn), EnemyAction::Done));
    assert_eq!(s.phase, GamePhase::PlayerPhase);
    assert!(!s.entities.get(blue).unwrap().has_moved);
}

#[test]
fn readiness_of_the_scripted_phase_is_checked() {
    let mut s = streets(3, 1);
    let blue = s.entities.insert(unit(0, 0, Team::Blue));
    let red = s.entities.insert(unit(2, 0, Team::Red));
    let mut turn = begin_enemy_phase(&mut s);
    assert!(turn.is_ready(&s));
    assert!(matches!(enemy_phase_step(&mut s, &mut turn), EnemyAction::Show { .. }));
    assert!(turn.is_ready(&s));
    turn.path.push(p(3, 0));
    assert!(!turn.is_ready(&s));
    turn.path.pop();
    assert!(turn.is_ready(&s));
    assert!(matches!(enemy_phase_step(&mut s, &mut turn), EnemyAction::Aim { .. }));
    assert!(matches!(enemy_phase_step(&mut s, &mut turn), EnemyAction::Attack { .. }));
    assert!(turn.is_ready(&s));
    s.entities.remove(blue);
    assert!(!turn.is_ready(&s));
    let again = s.entities.insert(unit(0, 0, Team::Blue));
    turn.target = Some((again, p(0, 0)));
    assert!(turn.is_ready(&s));
    turn.target = Some((red, p(1, 0)));
    assert!(!turn.is_ready(&s));
    turn.target = None;
    assert!(!turn.is_ready(&s));
    turn.stage = EnemyStage::Planning;
    assert!(turn.is_ready(&s));
    s.entities.remove(red);
    assert!(!turn.is_ready(&s));
    turn.current = 1;
    assert!(turn.is_ready(&s));
    turn.current = 2;
    assert!(!turn.is_ready(&s));
}
