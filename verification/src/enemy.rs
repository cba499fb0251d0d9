//! The phase of the scripted units. One unit after the other plans its move,
//! walks, looks for an enemy next to it and attacks it. Each call of
//! `enemy_phase_step` takes one decision; showing it is left to the caller.

use vstd::prelude::*;
use crate::actors::{
    actor_of, distinct_keys, has_key, lemma_place_of, lemma_remove_keeps, lemma_update_keeps,
    place_of, ActorKey,
};
use crate::combat::{hurt, strike, ATTACK_DAMAGE};
use crate::dijkstra::neighbors_in;
use crate::game::{
    enemies_in_range, foes_around, lemma_foes_around, Actor, GamePhase, GameState, ENEMY_TEAM,
};
use crate::phase::{place_unit, reset_moved, set_moved, standing_on, with_moved};
use crate::position::Position;
use crate::turn::{handles, is_enemy_plan, picked, plan_enemy_move, MovePlan, Pick};

verus! {

/// For how many ticks the plan of a unit is shown before the unit walks.
pub const HIGHLIGHT_TICKS: u32 = 20;

/// For how many ticks a unit rests after its walk, and then again for how
/// many it points at the enemy it is about to attack.
pub const AIM_TICKS: u32 = 20;

/// What the unit whose turn it is does next.
#[derive(Debug, Clone, Copy, PartialEq, Eq, Structural)]
pub enum EnemyStage {
    /// It plans its move; with no unit left, the phase ends.
    Planning,
    /// Its plan has been shown and it has been walked along its path.
    Moving,
    /// It has rested and looks for an enemy next to it.
    Aiming,
    /// Its attack has been shown and is dealt now.
    Striking,
    /// The phase is over.
    Over,
}

/// How far the phase of the scripted units has come.
pub struct EnemyTurn {
    /// The units that act in this phase, in their order.
    pub units: Vec<ActorKey>,
    /// Which of them has its turn.
    pub current: usize,
    pub stage: EnemyStage,
    /// The path of the unit whose turn it is.
    pub path: Vec<Position>,
    /// The enemy that it attacks, with the cell of the enemy.
    pub target: Option<(ActorKey, Position)>,
}

/// What the caller is to show before the next step.
pub enum EnemyAction {
    /// Show the plan for `HIGHLIGHT_TICKS` ticks, then walk the unit along
    /// the path of the plan.
    Show { unit: ActorKey, plan: MovePlan },
    /// Let the unit rest for `AIM_TICKS` ticks, then point for as many ticks
    /// at the first enemy in its range, if there is one.
    Aim { unit: ActorKey },
    /// Show the attack on the unit `target`, which stands on `cell`.
    Attack { attacker: ActorKey, target: ActorKey, cell: Position },
    /// Nothing to show: the next unit has its turn.
    Next,
    /// The phase is over and the player has the turn.
    Done,
}

/// A bound on the number of steps that the phase still takes: four for every
/// unit that has not finished its turn, less what the unit whose turn it is
/// has done already. Every step lowers it.
pub open spec fn steps_left(turn: EnemyTurn) -> int {
    let units_left = turn.units@.len() - turn.current;
    match turn.stage {
        EnemyStage::Planning => 4 * units_left + 3,
        EnemyStage::Moving => 4 * units_left + 2,
        EnemyStage::Aiming => 4 * units_left + 1,
        EnemyStage::Striking => 4 * units_left,
        EnemyStage::Over => 0,
    }
}

/// Every unit from `from` on is in the directory and belongs to the scripted
/// side.
pub open spec fn awaits(l: Seq<(ActorKey, Actor)>, units: Seq<ActorKey>, from: int) -> bool {
    forall|j: int|
        from <= j < units.len() ==> has_key(l, #[trigger] units[j]) && actor_of(l, units[j]).team
            == ENEMY_TEAM
}

impl EnemyTurn {
    /// The handle of the unit that is to be attacked.
    pub open spec fn aimed_at(&self) -> ActorKey {
        match self.target {
            Some((key, _)) => key,
            None => arbitrary(),
        }
    }

    /// The step that is due can be taken on the state `s`.
    pub open spec fn ready(&self, s: GameState) -> bool {
        &&& s.playable()
        &&& self.current <= self.units@.len()
        &&& awaits(s.entities@, self.units@, self.current as int)
        &&& match self.stage {
            EnemyStage::Planning => true,
            EnemyStage::Over => true,
            EnemyStage::Moving => self.current < self.units@.len() && forall|i: int|
                0 <= i < self.path@.len() ==> s.grids.ground.contains(#[trigger] self.path@[i]),
            EnemyStage::Aiming => self.current < self.units@.len(),
            EnemyStage::Striking => {
                &&& self.current < self.units@.len()
                &&& self.target is Some
                &&& has_key(s.entities@, self.aimed_at())
                &&& actor_of(s.entities@, self.aimed_at()).team != ENEMY_TEAM
            },
        }
    }
}

impl EnemyTurn {
    /// Whether the step that is due can be taken on the state `s`.
    pub fn is_ready(&self, s: &GameState) -> (r: bool)
        ensures
            r == self.ready(*s),
    {
        if !s.is_playable() || self.current > self.units.len() {
            return false;
        }
        let mut j: usize = self.current;
        while j < self.units.len()
            invariant
                self.current <= j <= self.units@.len(),
                forall|k: int|
                    self.current <= k < j ==> has_key(s.entities@, #[trigger] self.units@[k])
                        && actor_of(s.entities@, self.units@[k]).team == ENEMY_TEAM,
            decreases self.units@.len() - j,
        {
            match s.entities.get(self.units[j]) {
                Some(actor) => {
                    if actor.team != ENEMY_TEAM {
                        assert(!(has_key(s.entities@, self.units@[j as int]) && actor_of(
                            s.entities@,
                            self.units@[j as int],
                        ).team == ENEMY_TEAM));
                        return false;
                    }
                },
                None => {
                    assert(!has_key(s.entities@, self.units@[j as int]));
                    return false;
                },
            }
            j = j + 1;
        }
        match self.stage {
            EnemyStage::Planning => true,
            EnemyStage::Over => true,
            EnemyStage::Aiming => self.current < self.units.len(),
            EnemyStage::Moving => {
                if self.current >= self.units.len() {
                    return false;
                }
                let ground = &s.grids.ground;
                let mut i: usize = 0;
                while i < self.path.len()
                    invariant
                        0 <= i <= self.path@.len(),
                        self.stage == EnemyStage::Moving,
                        *ground == s.grids.ground,
                        forall|k: int| 0 <= k < i ==> ground.contains(#[trigger] self.path@[k]),
                    decreases self.path@.len() - i,
                {
                    let cell = self.path[i];
                    let inside = 0 <= cell.x && cell.x < ground.width && 0 <= cell.y && cell.y
                        < ground.height;
                    if !inside {
                        assert(!s.grids.ground.contains(self.path@[i as int]));
                        return false;
                    }
                    i = i + 1;
                }
                true
            },
            EnemyStage::Striking => {
                if self.current >= self.units.len() {
                    return false;
                }
                match self.target {
                    Some((key, _)) => match s.entities.get(key) {
                        Some(actor) => actor.team != ENEMY_TEAM,
                        None => false,
                    },
                    None => false,
                }
            },
        }
    }
}

/// The handles that `handles` lists belong to units of the listing that
/// `pick` means.
pub proof fn lemma_handles(l: Seq<(ActorKey, Actor)>, pick: Pick)
    requires
        distinct_keys(l),
    ensures
        forall|j: int|
            0 <= j < handles(l, pick).len() ==> has_key(l, #[trigger] handles(l, pick)[j])
                && pick.takes(handles(l, pick)[j], actor_of(l, handles(l, pick)[j])),
    decreases l.len(),
{
    if l.len() > 0 {
        let front = l.drop_last();
        lemma_handles(front, pick);
        assert forall|j: int| 0 <= j < handles(l, pick).len() implies has_key(
            l,
            #[trigger] handles(l, pick)[j],
        ) && pick.takes(handles(l, pick)[j], actor_of(l, handles(l, pick)[j])) by {
            let key = handles(l, pick)[j];
            if j < handles(front, pick).len() {
                assert(handles(front, pick)[j] == key);
                let i = place_of(front, key);
                assert(0 <= i < front.len() && front[i].0 == key);
                lemma_place_of(front, i);
                assert(l[i] == front[i]);
                lemma_place_of(l, i);
            } else {
                lemma_place_of(l, l.len() - 1);
            }
        }
    }
}

/// The phase of the scripted units begins: every unit gets its turn back, and
/// the units of the scripted side are lined up.
pub fn begin_enemy_phase(s: &mut GameState) -> (turn: EnemyTurn)
    requires
        old(s).playable(),
    ensures
        turn.ready(*final(s)),
        turn.stage == EnemyStage::Planning,
        turn.current == 0,
        turn.units@ == handles(final(s).entities@, Pick::Of(ENEMY_TEAM)),
        final(s).entities@.len() == old(s).entities@.len(),
        forall|i: int|
            0 <= i < old(s).entities@.len() ==> #[trigger] final(s).entities@[i] == (
                old(s).entities@[i].0,
                with_moved(old(s).entities@[i].1, false),
            ),
        final(s).grids == old(s).grids,
        final(s).phase == old(s).phase,
        final(s).ui == old(s).ui,
{
    reset_moved(s);
    let (_, units) = picked(&s.entities, Pick::Of(ENEMY_TEAM));
    proof {
        lemma_handles(s.entities@, Pick::Of(ENEMY_TEAM));
        assert forall|i: int| 0 <= i < s.entities@.len() implies s.grids.ground.contains(
            (#[trigger] s.entities@[i]).1.pos,
        ) && 0 <= s.entities@[i].1.hp <= crate::game::HP_MAX by {
            assert(s.entities@[i].1 == with_moved(old(s).entities@[i].1, false));
        }
    }
    EnemyTurn { units, current: 0, stage: EnemyStage::Planning, path: Vec::new(), target: None }
}

/// The listing after an attack on the unit `target`.
pub open spec fn struck(l: Seq<(ActorKey, Actor)>, target: ActorKey) -> Seq<(ActorKey, Actor)> {
    if actor_of(l, target).hp <= ATTACK_DAMAGE {
        l.remove(place_of(l, target))
    } else {
        l.update(place_of(l, target), (target, hurt(actor_of(l, target), ATTACK_DAMAGE as int)))
    }
}

/// The listing after the unit `key` has used its turn.
pub open spec fn released(l: Seq<(ActorKey, Actor)>, key: ActorKey) -> Seq<(ActorKey, Actor)> {
    l.update(place_of(l, key), (key, with_moved(actor_of(l, key), true)))
}

/// The enemies in range of the unit `key`.
pub open spec fn in_range_of(s: GameState, key: ActorKey) -> Seq<(ActorKey, Position)> {
    foes_around(
        s.entities@,
        neighbors_in(
            actor_of(s.entities@, key).pos,
            s.grids.ground.width as int,
            s.grids.ground.height as int,
        ),
        actor_of(s.entities@, key).team,
    )
}

/// What one step of the phase does, stage by stage:
/// - planning, with a unit left: its plan is made and handed out to be shown;
/// - planning, with no unit left: the player has the turn again and every
///   unit gets its turn back;
/// - moving: the unit stands on the last cell of its path, or stays where it
///   is if the path is empty;
/// - aiming: the first enemy in range becomes the target of an attack; with
///   no enemy in range the unit has used its turn and the next one is due;
/// - striking: the attack is dealt, the unit has used its turn and the next
///   one is due.
pub open spec fn enemy_stepped(
    pre: GameState,
    before: EnemyTurn,
    post: GameState,
    after: EnemyTurn,
    action: EnemyAction,
) -> bool {
    let unit = before.units@[before.current as int];
    &&& after.units@ == before.units@
    &&& post.grids == pre.grids
    &&& post.ui == pre.ui
    &&& match before.stage {
        EnemyStage::Planning => if before.current < before.units@.len() {
            &&& post.entities@ == pre.entities@
            &&& post.phase == pre.phase
            &&& after.current == before.current
            &&& after.stage == EnemyStage::Moving
            &&& after.target == before.target
            &&& match action {
                EnemyAction::Show { unit: shown, plan } => shown == unit && after.path@
                    == plan.path@ && is_enemy_plan(
                    pre,
                    unit,
                    actor_of(pre.entities@, unit),
                    plan,
                ),
                _ => false,
            }
        } else {
            &&& after.path == before.path
            &&& after.target == before.target
            &&& post.phase == GamePhase::PlayerPhase
            &&& post.entities@.len() == pre.entities@.len()
            &&& forall|i: int|
                0 <= i < pre.entities@.len() ==> #[trigger] post.entities@[i] == (
                    pre.entities@[i].0,
                    with_moved(pre.entities@[i].1, false),
                )
            &&& after.current == before.current
            &&& after.stage == EnemyStage::Over
            &&& action is Done
        },
        EnemyStage::Moving => {
            &&& post.entities@ == (if before.path@.len() > 0 {
                pre.entities@.update(
                    place_of(pre.entities@, unit),
                    (unit, standing_on(actor_of(pre.entities@, unit), before.path@.last())),
                )
            } else {
                pre.entities@
            })
            &&& post.phase == pre.phase
            &&& after.current == before.current
            &&& after.stage == EnemyStage::Aiming
            &&& after.path == before.path
            &&& after.target == before.target
            &&& action == (EnemyAction::Aim { unit })
        },
        EnemyStage::Aiming => if in_range_of(pre, unit).len() > 0 {
            &&& post.entities@ == pre.entities@
            &&& post.phase == pre.phase
            &&& after.current == before.current
            &&& after.stage == EnemyStage::Striking
            &&& after.path == before.path
            &&& after.target == Some(in_range_of(pre, unit)[0])
            &&& action == (EnemyAction::Attack {
                attacker: unit,
                target: in_range_of(pre, unit)[0].0,
                cell: in_range_of(pre, unit)[0].1,
            })
        } else {
            &&& post.entities@ == released(pre.entities@, unit)
            &&& post.phase == pre.phase
            &&& after.current == before.current + 1
            &&& after.stage == EnemyStage::Planning
            &&& after.path == before.path
            &&& after.target == before.target
            &&& action is Next
        },
        EnemyStage::Striking => {
            &&& post.entities@ == released(struck(pre.entities@, before.aimed_at()), unit)
            &&& post.phase == pre.phase
            &&& after.current == before.current + 1
            &&& after.stage == EnemyStage::Planning
            &&& after.path == before.path
            &&& after.target is None
            &&& action is Next
        },
        EnemyStage::Over => {
            &&& post.entities@ == pre.entities@
            &&& post.phase == pre.phase
            &&& after.current == before.current
            &&& after.stage == EnemyStage::Over
            &&& after.path == before.path
            &&& after.target == before.target
            &&& action is Done
        },
    }
}

/// With no unit left, the phase ends; otherwise the unit whose turn it is
/// plans its move.
fn step_planning(s: &mut GameState, turn: &mut EnemyTurn) -> (action: EnemyAction)
    requires
        old(turn).ready(*old(s)),
        old(turn).stage == EnemyStage::Planning,
    ensures
        final(turn).ready(*final(s)),
        enemy_stepped(*old(s), *old(turn), *final(s), *final(turn), action),
{
    if turn.current >= turn.units.len() {
        s.phase = GamePhase::PlayerPhase;
        reset_moved(s);
        turn.stage = EnemyStage::Over;
        proof {
            assert forall|i: int| 0 <= i < s.entities@.len() implies s.grids.ground.contains(
                (#[trigger] s.entities@[i]).1.pos,
            ) && 0 <= s.entities@[i].1.hp <= crate::game::HP_MAX by {
                assert(s.entities@[i].1 == with_moved(old(s).entities@[i].1, false));
            }
            assert(distinct_keys(s.entities@)) by {
                assert forall|a: int, b: int| 0 <= a < b < s.entities@.len() implies s.entities@[a].0
                    != s.entities@[b].0 by {
                    assert(s.entities@[a].0 == old(s).entities@[a].0);
                    assert(s.entities@[b].0 == old(s).entities@[b].0);
                }
            }
        }
        EnemyAction::Done
    } else {
        let unit = turn.units[turn.current];
        assert(has_key(s.entities@, turn.units@[turn.current as int]));
        let plan = plan_enemy_move(s, unit);
        turn.path = plan.path.clone();
        turn.stage = EnemyStage::Moving;
        proof {
            assert(turn.path@ =~= plan.path@);
        }
        EnemyAction::Show { unit, plan }
    }
}

/// The unit whose turn it is has been walked along its path.
fn step_moving(s: &mut GameState, turn: &mut EnemyTurn) -> (action: EnemyAction)
    requires
        old(turn).ready(*old(s)),
        old(turn).stage == EnemyStage::Moving,
    ensures
        final(turn).ready(*final(s)),
        enemy_stepped(*old(s), *old(turn), *final(s), *final(turn), action),
{
    let unit = turn.units[turn.current];
    let ghost l = s.entities@;
    assert(has_key(l, turn.units@[turn.current as int]));
    if turn.path.len() > 0 {
        let last = turn.path[turn.path.len() - 1];
        place_unit(s, unit, last);
        proof {
            let at = place_of(l, unit);
            assert(0 <= at < l.len() && l[at].0 == unit);
            assert forall|j: int| turn.current <= j < turn.units@.len() implies has_key(
                s.entities@,
                #[trigger] turn.units@[j],
            ) && actor_of(s.entities@, turn.units@[j]).team == ENEMY_TEAM by {
                lemma_update_keeps(
                    l,
                    at,
                    standing_on(actor_of(l, unit), last),
                    turn.units@[j],
                );
            }
            assert forall|i: int| 0 <= i < s.entities@.len() implies s.grids.ground.contains(
                (#[trigger] s.entities@[i]).1.pos,
            ) && 0 <= s.entities@[i].1.hp <= crate::game::HP_MAX by {
                if i != at {
                    assert(s.entities@[i] == l[i]);
                } else {
                    assert(0 <= l[at].1.hp <= crate::game::HP_MAX);
                }
            }
        }
    }
    turn.stage = EnemyStage::Aiming;
    EnemyAction::Aim { unit }
}

/// The unit whose turn it is looks for an enemy next to it.
fn step_aiming(s: &mut GameState, turn: &mut EnemyTurn) -> (action: EnemyAction)
    requires
        old(turn).ready(*old(s)),
        old(turn).stage == EnemyStage::Aiming,
    ensures
        final(turn).ready(*final(s)),
        enemy_stepped(*old(s), *old(turn), *final(s), *final(turn), action),
{
    let unit = turn.units[turn.current];
    let ghost l = s.entities@;
    assert(has_key(l, turn.units@[turn.current as int]));
    let enemies = enemies_in_range(s, unit);
    if enemies.len() > 0 {
        let (target, cell) = enemies[0];
        turn.target = Some((target, cell));
        turn.stage = EnemyStage::Striking;
        proof {
            let around = neighbors_in(
                actor_of(l, unit).pos,
                s.grids.ground.width as int,
                s.grids.ground.height as int,
            );
            lemma_foes_around(l, around, actor_of(l, unit).team);
            assert(enemies@.contains((target, cell)));
            let i = choose|i: int|
                0 <= i < l.len() && #[trigger] l[i].0 == target && l[i].1.pos == cell
                    && l[i].1.team != actor_of(l, unit).team;
            lemma_place_of(l, i);
        }
        EnemyAction::Attack { attacker: unit, target, cell }
    } else {
        finish_unit(s, turn);
        EnemyAction::Next
    }
}

/// The unit whose turn it is has used it: the next one is due.
fn finish_unit(s: &mut GameState, turn: &mut EnemyTurn)
    requires
        old(s).playable(),
        old(turn).current < old(turn).units@.len(),
        awaits(old(s).entities@, old(turn).units@, old(turn).current as int),
    ensures
        final(s).entities@ == released(
            old(s).entities@,
            old(turn).units@[old(turn).current as int],
        ),
        final(s).grids == old(s).grids,
        final(s).ui == old(s).ui,
        final(s).phase == old(s).phase,
        final(turn).units@ == old(turn).units@,
        final(turn).current == old(turn).current + 1,
        final(turn).stage == EnemyStage::Planning,
        final(turn).path == old(turn).path,
        final(turn).target == old(turn).target,
        final(turn).ready(*final(s)),
{
    let unit = turn.units[turn.current];
    let ghost l = s.entities@;
    assert(has_key(l, turn.units@[turn.current as int]));
    set_moved(s, unit, true);
    proof {
        let at = place_of(l, unit);
        assert(0 <= at < l.len() && l[at].0 == unit);
        assert forall|j: int| turn.current + 1 <= j < turn.units@.len() implies has_key(
            s.entities@,
            #[trigger] turn.units@[j],
        ) && actor_of(s.entities@, turn.units@[j]).team == ENEMY_TEAM by {
            lemma_update_keeps(l, at, with_moved(actor_of(l, unit), true), turn.units@[j]);
        }
        assert forall|i: int| 0 <= i < s.entities@.len() implies s.grids.ground.contains(
            (#[trigger] s.entities@[i]).1.pos,
        ) && 0 <= s.entities@[i].1.hp <= crate::game::HP_MAX by {
            if i != at {
                assert(s.entities@[i] == l[i]);
            } else {
                assert(s.grids.ground.contains(l[at].1.pos));
                assert(0 <= l[at].1.hp <= crate::game::HP_MAX);
            }
        }
    }
    assert(turn.units.len() == turn.units@.len());
    turn.current = turn.current + 1;
    turn.stage = EnemyStage::Planning;
}

/// The attack of the unit whose turn it is has been shown: it is dealt.
fn step_striking(s: &mut GameState, turn: &mut EnemyTurn) -> (action: EnemyAction)
    requires
        old(turn).ready(*old(s)),
        old(turn).stage == EnemyStage::Striking,
    ensures
        final(turn).ready(*final(s)),
        enemy_stepped(*old(s), *old(turn), *final(s), *final(turn), action),
{
    let ghost l = s.entities@;
    let target = match turn.target {
        Some((key, _)) => key,
        None => vstd::pervasive::unreached(),
    };
    proof {
        let at = place_of(l, target);
        assert(0 <= at < l.len() && l[at].0 == target);
        assert(0 <= l[at].1.hp);
    }
    strike(s, target);
    proof {
        let at = place_of(l, target);
        let mid = s.entities@;
        assert(mid == struck(l, target));
        assert forall|j: int| turn.current <= j < turn.units@.len() implies has_key(
            mid,
            #[trigger] turn.units@[j],
        ) && actor_of(mid, turn.units@[j]).team == ENEMY_TEAM by {
            let key = turn.units@[j];
            assert(has_key(l, key) && actor_of(l, key).team == ENEMY_TEAM);
            assert(key != target);
            if actor_of(l, target).hp <= ATTACK_DAMAGE {
                lemma_remove_keeps(l, at, key);
            } else {
                lemma_update_keeps(l, at, hurt(actor_of(l, target), ATTACK_DAMAGE as int), key);
            }
        }
        assert forall|i: int| 0 <= i < mid.len() implies s.grids.ground.contains(
            (#[trigger] mid[i]).1.pos,
        ) && 0 <= mid[i].1.hp <= crate::game::HP_MAX by {
            if actor_of(l, target).hp <= ATTACK_DAMAGE {
                let from = if i < at { i } else { i + 1 };
                assert(mid[i] == l[from]);
                assert(s.grids.ground.contains(l[from].1.pos));
            } else if i != at {
                assert(mid[i] == l[i]);
            } else {
                assert(s.grids.ground.contains(l[at].1.pos));
                assert(0 <= l[at].1.hp <= crate::game::HP_MAX);
            }
        }
    }
    turn.target = None;
    finish_unit(s, turn);
    EnemyAction::Next
}

/// Takes the decision that is due in the phase of the scripted units and
/// says what is to be shown before the next one.
pub fn enemy_phase_step(s: &mut GameState, turn: &mut EnemyTurn) -> (action: EnemyAction)
    requires
        old(turn).ready(*old(s)),
    ensures
        final(turn).ready(*final(s)),
        enemy_stepped(*old(s), *old(turn), *final(s), *final(turn), action),
        old(turn).stage != EnemyStage::Over ==> 0 <= steps_left(*final(turn)) < steps_left(
            *old(turn),
        ),
{
    match turn.stage {
        EnemyStage::Planning => step_planning(s, turn),
        EnemyStage::Moving => step_moving(s, turn),
        EnemyStage::Aiming => step_aiming(s, turn),
        EnemyStage::Striking => step_striking(s, turn),
        EnemyStage::Over => EnemyAction::Done,
    }
}

} // verus!
