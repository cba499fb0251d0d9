//! The turn of the player: selecting a unit, moving it, and deciding what it
//! does where it arrives. Each function is one decision; showing the map and
//! the animations between two decisions is left to the caller.

use vstd::prelude::*;
use vstd::pervasive::unreached;
use crate::actors::{
    actor_of, distinct_keys, has_key, lemma_place_of, place_of, same_keys, ActorKey,
};
use crate::dijkstra::neighbors_in;
use crate::game::{
    enemies_in_range, foes_around, Actor, GamePhase, GameState, MoveState, PLAYER_TEAM,
};
use crate::position::Position;

verus! {

/// `actor` with the mark that tells whether it has used its turn.
pub open spec fn with_moved(actor: Actor, moved: bool) -> Actor {
    Actor { has_moved: moved, ..actor }
}

/// `actor` on another cell.
pub open spec fn standing_on(actor: Actor, pos: Position) -> Actor {
    Actor { pos, ..actor }
}

/// Only the selection and the state of the move differ between `pre` and `post`.
pub open spec fn same_world(pre: GameState, post: GameState) -> bool {
    &&& post.entities@ == pre.entities@
    &&& post.grids == pre.grids
    &&& post.phase == pre.phase
    &&& post.ui.draw_dijkstra_map == pre.ui.draw_dijkstra_map
    &&& post.ui.draw_ai_map == pre.ui.draw_ai_map
}

/// Only the units differ between `pre` and `post`.
pub open spec fn same_turn(pre: GameState, post: GameState) -> bool {
    &&& post.grids == pre.grids
    &&& post.phase == pre.phase
    &&& post.ui == pre.ui
}

/// The unit that a click on `cell` selects: the last unit of `l` that stands
/// there, belongs to the player and has not used its turn.
pub open spec fn last_ready_on(l: Seq<(ActorKey, Actor)>, cell: Position) -> Option<ActorKey>
    decreases l.len(),
{
    if l.len() == 0 {
        None
    } else if l.last().1.pos == cell && l.last().1.team == PLAYER_TEAM && !l.last().1.has_moved {
        Some(l.last().0)
    } else {
        last_ready_on(l.drop_last(), cell)
    }
}

/// Marks the unit `key` as having used its turn, or not.
pub fn set_moved(s: &mut GameState, key: ActorKey, moved: bool)
    requires
        has_key(old(s).entities@, key),
    ensures
        final(s).entities@ == old(s).entities@.update(
            place_of(old(s).entities@, key),
            (key, with_moved(actor_of(old(s).entities@, key), moved)),
        ),
        distinct_keys(final(s).entities@),
        same_keys(old(s).entities@, final(s).entities@),
        same_turn(*old(s), *final(s)),
{
    let actor = match s.entities.get(key) {
        Some(a) => a,
        None => unreached(),
    };
    s.entities.replace(key, Actor { has_moved: moved, ..actor });
}

/// Gives every unit its turn back.
pub fn reset_moved(s: &mut GameState)
    ensures
        final(s).entities@.len() == old(s).entities@.len(),
        forall|i: int|
            0 <= i < old(s).entities@.len() ==> #[trigger] final(s).entities@[i] == (
                old(s).entities@[i].0,
                with_moved(old(s).entities@[i].1, false),
            ),
        same_turn(*old(s), *final(s)),
{
    let all = s.entities.iter();
    let ghost l = s.entities@;
    let mut i: usize = 0;
    while i < all.len()
        invariant
            0 <= i <= all@.len(),
            all@ == l,
            distinct_keys(l),
            s.entities@.len() == l.len(),
            forall|j: int| 0 <= j < l.len() ==> (#[trigger] s.entities@[j]).0 == l[j].0,
            forall|j: int|
                0 <= j < i ==> #[trigger] s.entities@[j] == (l[j].0, with_moved(l[j].1, false)),
            forall|j: int| i <= j < l.len() ==> #[trigger] s.entities@[j] == l[j],
            same_turn(*old(s), *s),
        decreases all@.len() - i,
    {
        let (key, _) = all[i];
        proof {
            assert(distinct_keys(s.entities@)) by {
                assert forall|a: int, b: int| 0 <= a < b < s.entities@.len() implies s.entities@[a].0
                    != s.entities@[b].0 by {
                    assert(s.entities@[a].0 == l[a].0);
                    assert(s.entities@[b].0 == l[b].0);
                }
            }
            assert(s.entities@[i as int].0 == key);
            lemma_place_of(s.entities@, i as int);
        }
        set_moved(s, key, false);
        i = i + 1;
    }
}

/// A click on `cell` while no move is under way: the unit to order about is
/// the last of the player's units on that cell that has not used its turn.
/// While a move is under way the click changes nothing.
pub fn select_unit(s: &mut GameState, cell: Position)
    ensures
        same_world(*old(s), *final(s)),
        final(s).ui.move_state == old(s).ui.move_state,
        final(s).ui.chosen_enemy == old(s).ui.chosen_enemy,
        final(s).ui.selected_entity == (if old(s).ui.move_state == MoveState::Idle {
            last_ready_on(old(s).entities@, cell)
        } else {
            old(s).ui.selected_entity
        }),
{
    if s.ui.move_state == MoveState::Idle {
        let all = s.entities.iter();
        let mut found: Option<ActorKey> = None;
        let mut i: usize = 0;
        proof {
            assert(all@.take(0).len() == 0);
        }
        while i < all.len()
            invariant
                0 <= i <= all@.len(),
                found == last_ready_on(all@.take(i as int), cell),
            decreases all@.len() - i,
        {
            let (key, actor) = all[i];
            proof {
                assert(all@.take(i + 1).drop_last() =~= all@.take(i as int));
                assert(all@.take(i + 1).last() == all@[i as int]);
            }
            if actor.pos == cell && actor.team == PLAYER_TEAM && !actor.has_moved {
                found = Some(key);
            }
            i = i + 1;
        }
        proof {
            assert(all@.take(all@.len() as int) =~= all@);
        }
        s.ui.selected_entity = found;
    }
}

/// The player ends the phase: the scripted units are next.
pub fn end_player_phase(s: &mut GameState)
    ensures
        final(s).phase == GamePhase::EnemyPhase,
        final(s).entities@ == old(s).entities@,
        final(s).grids == old(s).grids,
        final(s).ui == old(s).ui,
{
    s.phase = GamePhase::EnemyPhase;
}

/// A click while the path of the selected unit is shown: the unit sets off if
/// there is a path to walk. Says whether it does.
pub fn begin_move(s: &mut GameState, path: &Vec<Position>) -> (walks: bool)
    ensures
        walks == (old(s).ui.selected_entity is Some && old(s).ui.move_state == MoveState::Idle
            && path@.len() > 0),
        same_world(*old(s), *final(s)),
        final(s).ui.selected_entity == old(s).ui.selected_entity,
        final(s).ui.chosen_enemy == old(s).ui.chosen_enemy,
        final(s).ui.move_state == (if walks {
            MoveState::Moving
        } else {
            old(s).ui.move_state
        }),
{
    if s.ui.selected_entity.is_some() && s.ui.move_state == MoveState::Idle && path.len() > 0 {
        s.ui.move_state = MoveState::Moving;
        true
    } else {
        false
    }
}

/// The unit `e` has been walked along `path`: it now stands on the last cell
/// of the path and waits for what to do there.
pub fn finish_move(s: &mut GameState, e: ActorKey, path: &Vec<Position>)
    requires
        has_key(old(s).entities@, e),
        path@.len() > 0,
    ensures
        final(s).entities@ == old(s).entities@.update(
            place_of(old(s).entities@, e),
            (e, standing_on(actor_of(old(s).entities@, e), path@.last())),
        ),
        distinct_keys(final(s).entities@),
        same_keys(old(s).entities@, final(s).entities@),
        final(s).grids == old(s).grids,
        final(s).phase == old(s).phase,
        final(s).ui.draw_dijkstra_map == old(s).ui.draw_dijkstra_map,
        final(s).ui.draw_ai_map == old(s).ui.draw_ai_map,
        final(s).ui.selected_entity == old(s).ui.selected_entity,
        final(s).ui.chosen_enemy == old(s).ui.chosen_enemy,
        final(s).ui.move_state == MoveState::Confirm,
{
    place_unit(s, e, path[path.len() - 1]);
    s.ui.move_state = MoveState::Confirm;
}

/// Puts the unit `key` on `pos`.
pub fn place_unit(s: &mut GameState, key: ActorKey, pos: Position)
    requires
        has_key(old(s).entities@, key),
    ensures
        final(s).entities@ == old(s).entities@.update(
            place_of(old(s).entities@, key),
            (key, standing_on(actor_of(old(s).entities@, key), pos)),
        ),
        distinct_keys(final(s).entities@),
        same_keys(old(s).entities@, final(s).entities@),
        same_turn(*old(s), *final(s)),
{
    let actor = match s.entities.get(key) {
        Some(a) => a,
        None => unreached(),
    };
    s.entities.replace(key, Actor { pos, ..actor });
}

/// The selected unit is told to stay where it is and to act from there.
pub fn stand_still(s: &mut GameState)
    ensures
        same_world(*old(s), *final(s)),
        final(s).ui.selected_entity == old(s).ui.selected_entity,
        final(s).ui.chosen_enemy == old(s).ui.chosen_enemy,
        final(s).ui.move_state == (if old(s).ui.selected_entity is Some && old(s).ui.move_state
            == MoveState::Idle {
            MoveState::Confirm
        } else {
            old(s).ui.move_state
        }),
{
    if s.ui.selected_entity.is_some() && s.ui.move_state == MoveState::Idle {
        s.ui.move_state = MoveState::Confirm;
    }
}

/// The selected unit has finished its turn: it is marked and let go.
fn release_unit(s: &mut GameState, e: ActorKey)
    requires
        has_key(old(s).entities@, e),
    ensures
        final(s).entities@ == old(s).entities@.update(
            place_of(old(s).entities@, e),
            (e, with_moved(actor_of(old(s).entities@, e), true)),
        ),
        distinct_keys(final(s).entities@),
        same_keys(old(s).entities@, final(s).entities@),
        final(s).grids == old(s).grids,
        final(s).phase == old(s).phase,
        final(s).ui.draw_dijkstra_map == old(s).ui.draw_dijkstra_map,
        final(s).ui.draw_ai_map == old(s).ui.draw_ai_map,
        final(s).ui.chosen_enemy == old(s).ui.chosen_enemy,
        final(s).ui.selected_entity is None,
        final(s).ui.move_state == MoveState::Idle,
{
    s.ui.selected_entity = None;
    set_moved(s, e, true);
    s.ui.move_state = MoveState::Idle;
}

/// "Wait": the unit that has arrived ends its turn. Says whether there was
/// such a unit; otherwise nothing changes.
pub fn confirm_wait(s: &mut GameState) -> (done: bool)
    requires
        old(s).ui.selected_entity is Some ==> has_key(
            old(s).entities@,
            old(s).ui.selected_entity->0,
        ),
    ensures
        done == (old(s).ui.move_state == MoveState::Confirm && old(s).ui.selected_entity is Some),
        done ==> {
            &&& final(s).entities@ == old(s).entities@.update(
                place_of(old(s).entities@, old(s).ui.selected_entity->0),
                (
                    old(s).ui.selected_entity->0,
                    with_moved(actor_of(old(s).entities@, old(s).ui.selected_entity->0), true),
                ),
            )
            &&& final(s).ui.selected_entity is None
            &&& final(s).ui.move_state == MoveState::Idle
            &&& final(s).ui.chosen_enemy == old(s).ui.chosen_enemy
            &&& final(s).ui.draw_dijkstra_map == old(s).ui.draw_dijkstra_map
            &&& final(s).ui.draw_ai_map == old(s).ui.draw_ai_map
            &&& final(s).grids == old(s).grids
            &&& final(s).phase == old(s).phase
        },
        !done ==> *final(s) == *old(s),
        same_keys(old(s).entities@, final(s).entities@),
{
    if s.ui.move_state == MoveState::Confirm {
        match s.ui.selected_entity {
            Some(e) => {
                release_unit(s, e);
                true
            },
            None => false,
        }
    } else {
        false
    }
}

/// The enemies in range of the unit that has arrived; none while no unit
/// waits for its orders. "Attack" is offered exactly when the list is not
/// empty.
pub fn attack_options(s: &GameState) -> (r: Vec<(ActorKey, Position)>)
    requires
        s.ui.selected_entity is Some ==> has_key(s.entities@, s.ui.selected_entity->0),
    ensures
        r@ == targets_of(*s),
{
    let waiting = s.ui.move_state == MoveState::Confirm || s.ui.move_state
        == MoveState::ChooseAttack;
    match s.ui.selected_entity {
        Some(e) => {
            if waiting {
                enemies_in_range(s, e)
            } else {
                Vec::new()
            }
        },
        None => Vec::new(),
    }
}

/// The enemies that the selected unit can attack from where it stands, while
/// it waits for its orders or picks its target.
pub open spec fn targets_of(s: GameState) -> Seq<(ActorKey, Position)> {
    if s.ui.selected_entity is Some && (s.ui.move_state == MoveState::Confirm || s.ui.move_state
        == MoveState::ChooseAttack) {
        foes_around(
            s.entities@,
            neighbors_in(
                actor_of(s.entities@, s.ui.selected_entity->0).pos,
                s.grids.ground.width as int,
                s.grids.ground.height as int,
            ),
            actor_of(s.entities@, s.ui.selected_entity->0).team,
        )
    } else {
        Seq::empty()
    }
}

/// "Attack": the unit that has arrived goes on to pick its target, if an
/// enemy is in range. Says whether it does.
pub fn choose_attack(s: &mut GameState) -> (chosen: bool)
    requires
        old(s).ui.selected_entity is Some ==> has_key(
            old(s).entities@,
            old(s).ui.selected_entity->0,
        ),
    ensures
        chosen == (old(s).ui.move_state == MoveState::Confirm && targets_of(*old(s)).len() > 0),
        same_world(*old(s), *final(s)),
        final(s).ui.selected_entity == old(s).ui.selected_entity,
        final(s).ui.chosen_enemy == old(s).ui.chosen_enemy,
        final(s).ui.move_state == (if chosen {
            MoveState::ChooseAttack
        } else {
            old(s).ui.move_state
        }),
{
    if s.ui.move_state == MoveState::Confirm {
        let enemies = attack_options(s);
        if enemies.len() > 0 {
            s.ui.move_state = MoveState::ChooseAttack;
            return true;
        }
    }
    false
}

/// The number of the target that is picked while one is being chosen.
pub open spec fn picked_target(s: GameState) -> int {
    match s.ui.chosen_enemy {
        Some(n) => n as int,
        None => 0,
    }
}

/// The enemy that is picked at the moment, if a target is being chosen and
/// the pick is one of the enemies in range.
pub fn current_target(s: &GameState) -> (r: Option<(ActorKey, Position)>)
    requires
        s.ui.selected_entity is Some ==> has_key(s.entities@, s.ui.selected_entity->0),
    ensures
        r is Some <==> (s.ui.move_state == MoveState::ChooseAttack && picked_target(*s)
            < targets_of(*s).len()),
        r is Some ==> r->0 == targets_of(*s)[picked_target(*s)],
{
    if s.ui.move_state == MoveState::ChooseAttack {
        let enemies = attack_options(s);
        let chosen: usize = match s.ui.chosen_enemy {
            Some(n) => n,
            None => 0,
        };
        if chosen < enemies.len() {
            return Some(enemies[chosen]);
        }
    }
    None
}

/// The player turns to the next enemy in range; after the last comes the
/// first again. Outside the choice of a target, or without an enemy in range,
/// nothing changes.
pub fn next_target(s: &mut GameState)
    requires
        old(s).ui.selected_entity is Some ==> has_key(
            old(s).entities@,
            old(s).ui.selected_entity->0,
        ),
    ensures
        same_world(*old(s), *final(s)),
        final(s).ui.selected_entity == old(s).ui.selected_entity,
        final(s).ui.move_state == old(s).ui.move_state,
        final(s).ui.chosen_enemy == (if old(s).ui.move_state == MoveState::ChooseAttack
            && targets_of(*old(s)).len() > 0 && picked_target(*old(s)) < usize::MAX {
            Some(((picked_target(*old(s)) + 1) % (targets_of(*old(s)).len() as int)) as usize)
        } else {
            old(s).ui.chosen_enemy
        }),
{
    if s.ui.move_state == MoveState::ChooseAttack {
        let enemies = attack_options(s);
        let chosen: usize = match s.ui.chosen_enemy {
            Some(n) => n,
            None => 0,
        };
        if enemies.len() > 0 && chosen < usize::MAX {
            s.ui.chosen_enemy = Some((chosen + 1) % enemies.len());
        }
    }
}

/// The player backs out of the choice of a target: the unit is let go
/// without having used its turn.
pub fn cancel_attack(s: &mut GameState)
    ensures
        same_world(*old(s), *final(s)),
        final(s).ui.chosen_enemy == old(s).ui.chosen_enemy,
        old(s).ui.move_state == MoveState::ChooseAttack ==> final(s).ui.move_state
            == MoveState::Idle && final(s).ui.selected_entity is None,
        old(s).ui.move_state != MoveState::ChooseAttack ==> final(s).ui.move_state == old(
            s,
        ).ui.move_state && final(s).ui.selected_entity == old(s).ui.selected_entity,
{
    if s.ui.move_state == MoveState::ChooseAttack {
        s.ui.move_state = MoveState::Idle;
        s.ui.selected_entity = None;
    }
}

/// The player confirms the picked target: the attack begins. Returns the
/// attacker with the target and its cell, or nothing, with the state as it
/// was, where no target is picked.
pub fn confirm_attack(s: &mut GameState) -> (r: Option<(ActorKey, ActorKey, Position)>)
    requires
        old(s).ui.selected_entity is Some ==> has_key(
            old(s).entities@,
            old(s).ui.selected_entity->0,
        ),
    ensures
        r is Some <==> (old(s).ui.selected_entity is Some && old(s).ui.move_state
            == MoveState::ChooseAttack && picked_target(*old(s)) < targets_of(*old(s)).len()),
        r is Some ==> {
            &&& r->Some_0 == (
                old(s).ui.selected_entity->Some_0,
                targets_of(*old(s))[picked_target(*old(s))].0,
                targets_of(*old(s))[picked_target(*old(s))].1,
            )
            &&& final(s).ui.move_state == MoveState::Attacking
            &&& final(s).ui.chosen_enemy is None
            &&& final(s).ui.selected_entity == old(s).ui.selected_entity
            &&& same_world(*old(s), *final(s))
        },
        r is None ==> *final(s) == *old(s),
{
    match s.ui.selected_entity {
        Some(e) => {
            match current_target(s) {
                Some((target, cell)) => {
                    s.ui.move_state = MoveState::Attacking;
                    s.ui.chosen_enemy = None;
                    Some((e, target, cell))
                },
                None => None,
            }
        },
        None => None,
    }
}

/// The attack has been shown and dealt: the attacker ends its turn. Says
/// whether an attack was under way; otherwise nothing changes.
pub fn finish_attack(s: &mut GameState) -> (done: bool)
    requires
        old(s).ui.selected_entity is Some ==> has_key(
            old(s).entities@,
            old(s).ui.selected_entity->0,
        ),
    ensures
        done == (old(s).ui.move_state == MoveState::Attacking && old(s).ui.selected_entity
            is Some),
        done ==> {
            &&& final(s).entities@ == old(s).entities@.update(
                place_of(old(s).entities@, old(s).ui.selected_entity->0),
                (
                    old(s).ui.selected_entity->0,
                    with_moved(actor_of(old(s).entities@, old(s).ui.selected_entity->0), true),
                ),
            )
            &&& final(s).ui.selected_entity is None
            &&& final(s).ui.move_state == MoveState::Idle
            &&& final(s).ui.chosen_enemy == old(s).ui.chosen_enemy
            &&& final(s).ui.draw_dijkstra_map == old(s).ui.draw_dijkstra_map
            &&& final(s).ui.draw_ai_map == old(s).ui.draw_ai_map
            &&& final(s).grids == old(s).grids
            &&& final(s).phase == old(s).phase
        },
        !done ==> *final(s) == *old(s),
        same_keys(old(s).entities@, final(s).entities@),
{
    if s.ui.move_state == MoveState::Attacking {
        match s.ui.selected_entity {
            Some(e) => {
                release_unit(s, e);
                true
            },
            None => false,
        }
    } else {
        false
    }
}

} // verus!
