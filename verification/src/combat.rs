//! What an attack does to the unit it hits.

use vstd::prelude::*;
use vstd::pervasive::unreached;
use crate::actors::{
    actor_of, distinct_keys, has_key, lemma_place_of, place_of, same_keys, ActorKey,
};
use crate::game::{Actor, GameState};

verus! {

/// The damage of one attack. It is dealt one point at a time.
pub const ATTACK_DAMAGE: i32 = 5;

/// `actor` with `damage` hit points less.
pub open spec fn hurt(actor: Actor, damage: int) -> Actor {
    Actor { hp: (actor.hp - damage) as i32, ..actor }
}

/// Takes one hit point from the unit `target`.
pub fn damage_tick(s: &mut GameState, target: ActorKey)
    requires
        has_key(old(s).entities@, target),
        actor_of(old(s).entities@, target).hp > i32::MIN,
    ensures
        final(s).entities@ == old(s).entities@.update(
            place_of(old(s).entities@, target),
            (target, hurt(actor_of(old(s).entities@, target), 1)),
        ),
        distinct_keys(final(s).entities@),
        same_keys(old(s).entities@, final(s).entities@),
        final(s).grids == old(s).grids,
        final(s).ui == old(s).ui,
        final(s).phase == old(s).phase,
{
    let actor = match s.entities.get(target) {
        Some(a) => a,
        None => unreached(),
    };
    let weaker = Actor { hp: actor.hp - 1, ..actor };
    s.entities.replace(target, weaker);
}

/// Takes the unit `target` off the map if it has no hit points left, and says
/// whether it did.
pub fn resolve_defeat(s: &mut GameState, target: ActorKey) -> (removed: bool)
    requires
        has_key(old(s).entities@, target),
    ensures
        removed == (actor_of(old(s).entities@, target).hp <= 0),
        removed ==> final(s).entities@ == old(s).entities@.remove(
            place_of(old(s).entities@, target),
        ),
        !removed ==> final(s).entities@ == old(s).entities@,
        removed ==> distinct_keys(final(s).entities@),
        final(s).grids == old(s).grids,
        final(s).ui == old(s).ui,
        final(s).phase == old(s).phase,
{
    let actor = match s.entities.get(target) {
        Some(a) => a,
        None => unreached(),
    };
    if actor.hp <= 0 {
        s.entities.remove(target);
        true
    } else {
        false
    }
}

/// The whole damage of one attack on the unit `target`, point by point, and
/// its removal if no hit points are left after the last point.
pub fn strike(s: &mut GameState, target: ActorKey) -> (removed: bool)
    requires
        has_key(old(s).entities@, target),
        actor_of(old(s).entities@, target).hp >= i32::MIN + ATTACK_DAMAGE,
    ensures
        removed == (actor_of(old(s).entities@, target).hp <= ATTACK_DAMAGE),
        removed ==> final(s).entities@ == old(s).entities@.remove(
            place_of(old(s).entities@, target),
        ),
        !removed ==> final(s).entities@ == old(s).entities@.update(
            place_of(old(s).entities@, target),
            (target, hurt(actor_of(old(s).entities@, target), ATTACK_DAMAGE as int)),
        ),
        distinct_keys(final(s).entities@),
        final(s).grids == old(s).grids,
        final(s).ui == old(s).ui,
        final(s).phase == old(s).phase,
{
    let ghost l = s.entities@;
    let ghost at = place_of(l, target);
    let ghost victim = actor_of(l, target);
    let mut dmg: i32 = ATTACK_DAMAGE;
    proof {
        assert(0 <= at < l.len() && l[at].0 == target);
        assert(l =~= l.update(at, (target, hurt(victim, 0))));
    }
    while dmg > 0
        invariant
            0 <= dmg <= ATTACK_DAMAGE,
            0 <= at < l.len(),
            l[at] == (target, victim),
            victim.hp >= i32::MIN + ATTACK_DAMAGE,
            dmg < ATTACK_DAMAGE ==> distinct_keys(s.entities@),
            has_key(s.entities@, target),
            place_of(s.entities@, target) == at,
            s.entities@ == l.update(at, (target, hurt(victim, ATTACK_DAMAGE - dmg))),
            s.grids == old(s).grids,
            s.ui == old(s).ui,
            s.phase == old(s).phase,
        decreases dmg,
    {
        damage_tick(s, target);
        dmg = dmg - 1;
        proof {
            assert(s.entities@ =~= l.update(at, (target, hurt(victim, ATTACK_DAMAGE - dmg))));
            lemma_place_of(s.entities@, at);
        }
    }
    let removed = resolve_defeat(s, target);
    proof {
        if removed {
            assert(s.entities@ =~= l.remove(at));
        }
    }
    removed
}

/// A unit with no more hit points than an attack takes is gone after the
/// attack, and a unit with more is still there.
pub proof fn lemma_strike_removes(before: Seq<(ActorKey, Actor)>, after: Seq<(ActorKey, Actor)>, target: ActorKey)
    requires
        distinct_keys(before),
        has_key(before, target),
        actor_of(before, target).hp <= ATTACK_DAMAGE ==> after == before.remove(
            place_of(before, target),
        ),
        actor_of(before, target).hp > ATTACK_DAMAGE ==> after == before.update(
            place_of(before, target),
            (target, hurt(actor_of(before, target), ATTACK_DAMAGE as int)),
        ),
    ensures
        has_key(after, target) <==> actor_of(before, target).hp > ATTACK_DAMAGE,
        after.len() == before.len() - (if actor_of(before, target).hp <= ATTACK_DAMAGE {
            1int
        } else {
            0int
        }),
{
    let at = place_of(before, target);
    assert(0 <= at < before.len() && before[at].0 == target);
    if actor_of(before, target).hp <= ATTACK_DAMAGE {
        if has_key(after, target) {
            let j = choose|j: int| 0 <= j < after.len() && (#[trigger] after[j]).0 == target;
            if j < at {
                assert(after[j] == before[j]);
                assert(before[j].0 != before[at].0);
            } else {
                assert(after[j] == before[j + 1]);
                assert(before[at].0 != before[j + 1].0);
            }
        }
    } else {
        assert(after[at].0 == target);
    }
}

} // verus!
