//! What it costs a unit to enter a cell.

use vstd::prelude::*;
use crate::actors::{ActorKey};
use crate::dijkstra::{agrees, dijkstra};
use crate::field::relaxed;
use crate::game::{Actor, GameState, GroundType, Team, TerrainType};
use crate::grid::Grid;
use crate::position::Position;

verus! {

/// The cost of a cell that cannot be entered.
pub const IMPASSABLE: i32 = 9999;

/// The cost of entering a cell of the given ground and terrain that no enemy
/// stands on: water cannot be entered, a street is cheaper and a forest
/// costlier than plain ground.
pub open spec fn terrain_cost(ground: GroundType, terrain: TerrainType) -> int {
    match ground {
        GroundType::Water => IMPASSABLE as int,
        GroundType::Ground => match terrain {
            TerrainType::Plain => 2,
            TerrainType::Street => 1,
            TerrainType::Forest => 3,
        },
    }
}

/// A unit of another team than `team` stands on `p`.
pub open spec fn blocked_for(l: Seq<(ActorKey, Actor)>, team: Team, p: Position) -> bool {
    exists|i: int| 0 <= i < l.len() && (#[trigger] l[i]).1.team != team && l[i].1.pos == p
}

/// What it costs a unit of `team` to enter `p`. A cell that a unit of another
/// team stands on cannot be entered. A position outside the map counts as the
/// cell of the map that is nearest to it.
pub open spec fn movement_cost_at(s: GameState, team: Team, p: Position) -> int {
    if blocked_for(s.entities@, team, p) {
        IMPASSABLE as int
    } else {
        terrain_cost(
            s.grids.ground.at(
                s.grids.ground.clamp_x(p.x as int),
                s.grids.ground.clamp_y(p.y as int),
            ),
            s.grids.terrain.at(
                s.grids.terrain.clamp_x(p.x as int),
                s.grids.terrain.clamp_y(p.y as int),
            ),
        )
    }
}

fn is_listed(cells: &Vec<Position>, p: Position) -> (r: bool)
    ensures
        r == cells@.contains(p),
{
    let mut i: usize = 0;
    while i < cells.len()
        invariant
            0 <= i <= cells@.len(),
            forall|j: int| 0 <= j < i ==> cells@[j] != p,
        decreases cells@.len() - i,
    {
        if cells[i] == p {
            return true;
        }
        i = i + 1;
    }
    false
}

/// The cost function of `team`: it gives `movement_cost_at` for every
/// position. The cells that units of other teams stand on are looked up once,
/// here, and not again when the function is called.
pub fn movement_cost<'a>(s: &'a GameState, team: Team) -> (cost: impl Fn(Position) -> i32 + 'a)
    requires
        s.wf(),
    ensures
        s.grids.ground.width > 0 && s.grids.ground.height > 0 ==> forall|p: Position|
            cost.requires((p,)),
        forall|p: Position, c: i32| cost.ensures((p,), c) ==> c == movement_cost_at(*s, team, p),
{
    let all = s.entities.iter();
    let mut blocked: Vec<Position> = Vec::new();
    let mut i: usize = 0;
    while i < all.len()
        invariant
            0 <= i <= all@.len(),
            forall|p: Position| blocked@.contains(p) <==> blocked_for(all@.take(i as int), team, p),
        decreases all@.len() - i,
    {
        let (_, actor) = all[i];
        let ghost earlier = blocked@;
        if actor.team != team {
            blocked.push(actor.pos);
        }
        proof {
            let shorter = all@.take(i as int);
            let longer = all@.take(i + 1);
            assert forall|p: Position| blocked@.contains(p) implies blocked_for(
                longer,
                team,
                p,
            ) by {
                let n = choose|n: int| 0 <= n < blocked@.len() && blocked@[n] == p;
                if n < earlier.len() {
                    assert(earlier[n] == p);
                    assert(earlier.contains(p));
                    let j = choose|j: int|
                        0 <= j < shorter.len() && (#[trigger] shorter[j]).1.team != team
                            && shorter[j].1.pos == p;
                    assert(longer[j] == shorter[j]);
                } else {
                    assert(longer[i as int] == all@[i as int]);
                }
            }
            assert forall|p: Position| blocked_for(longer, team, p) implies blocked@.contains(
                p,
            ) by {
                let j = choose|j: int|
                    0 <= j < longer.len() && (#[trigger] longer[j]).1.team != team
                        && longer[j].1.pos == p;
                if j < i {
                    assert(shorter[j] == longer[j]);
                    assert(earlier.contains(p));
                    let n = choose|n: int| 0 <= n < earlier.len() && earlier[n] == p;
                    assert(blocked@[n] == p);
                } else {
                    assert(blocked@[blocked@.len() - 1] == p);
                }
            }
        }
        i = i + 1;
    }
    proof {
        assert(all@.take(all@.len() as int) =~= all@);
    }
    let cost = move |pos: Position| -> (c: i32)
        requires
            s.grids.ground.width > 0 && s.grids.ground.height > 0,
        ensures
            c == movement_cost_at(*s, team, pos),
        {
            if is_listed(&blocked, pos) {
                IMPASSABLE
            } else {
                let ground = *s.grids.ground.get_clamped_v(pos);
                let terrain = *s.grids.terrain.get_clamped_v(pos);
                match ground {
                    GroundType::Water => IMPASSABLE,
                    GroundType::Ground => match terrain {
                        TerrainType::Plain => 2,
                        TerrainType::Street => 1,
                        TerrainType::Forest => 3,
                    },
                }
            }
        };
    cost
}

/// A cell that a unit of another team stands on cannot be entered.
pub proof fn lemma_enemy_blocks(s: GameState, team: Team, i: int)
    requires
        0 <= i < s.entities@.len(),
        s.entities@[i].1.team != team,
    ensures
        movement_cost_at(s, team, s.entities@[i].1.pos) == IMPASSABLE,
{
}

/// A cell of water cannot be entered, whatever the team and wherever the
/// units stand.
pub proof fn lemma_water_blocks(s: GameState, team: Team, p: Position)
    requires
        s.wf(),
        s.grids.ground.contains(p),
        s.grids.ground.cell(p) == GroundType::Water,
    ensures
        movement_cost_at(s, team, p) == IMPASSABLE,
{
}

/// Every cost is 1, 2, 3 or `IMPASSABLE`.
pub proof fn lemma_cost_range(s: GameState, team: Team, p: Position)
    ensures
        1 <= movement_cost_at(s, team, p) <= 3 || movement_cost_at(s, team, p) == IMPASSABLE,
{
}

/// The cost function of `team` as a function of the position alone.
pub open spec fn team_costs(s: GameState, team: Team) -> spec_fn(Position) -> int {
    |p: Position| movement_cost_at(s, team, p)
}

/// Relaxes `grid` from `seeds` under the movement costs of `team`.
pub fn relax_for(s: &GameState, team: Team, grid: &mut Grid<i32>, seeds: &Vec<Position>)
    requires
        s.wf(),
        old(grid).wf(),
        old(grid).same_shape(&s.grids.ground),
    ensures
        relaxed(*old(grid), *final(grid), seeds@, team_costs(*s, team)),
{
    let cost = movement_cost(s, team);
    proof {
        assert(agrees(cost, team_costs(*s, team), grid.width as int, grid.height as int));
    }
    dijkstra(grid, seeds.as_slice(), cost);
}

} // verus!
