//! Planning the move of one unit: how far it can go, where it is drawn to,
//! and the path it takes.

use vstd::prelude::*;
use vstd::pervasive::unreached;
use crate::actors::{actor_of, distinct_keys, has_key, place_of, ActorDirectory, ActorKey};
use crate::dijkstra::{dijkstra_path, lemma_path_rises, path_from};
use crate::field::relaxed;
use crate::game::{Actor, GameState, Team};
use crate::grid::{clamp_int, lemma_cell_index, lemma_index_cell, lemma_write_cell, Grid};
use crate::movement::{relax_for, team_costs};
use crate::position::Position;
use crate::scene::{lemma_climb_walkable, walkable};

verus! {

/// `out` has the shape of `g` and holds `value` on the cells of `marks` and
/// what `g` holds everywhere else.
pub open spec fn is_stamped(g: Grid<i32>, marks: Seq<Position>, value: int, out: Grid<i32>) -> bool {
    &&& out.wf()
    &&& out.same_shape(&g)
    &&& forall|p: Position|
        #![trigger p.within(g.width as int, g.height as int)]
        p.within(g.width as int, g.height as int) ==> out.cell(p) == (if marks.contains(p) {
            value
        } else {
            g.cell(p) as int
        })
}

/// `out` has the given shape and holds `value` on the cells of `marks` that
/// lie nearest to each mark, and `base` everywhere else.
pub open spec fn is_seeded(
    width: int,
    height: int,
    base: int,
    marks: Seq<Position>,
    value: int,
    out: Grid<i32>,
) -> bool {
    &&& out.wf()
    &&& out.width == width
    &&& out.height == height
    &&& forall|p: Position|
        #![trigger p.within(width, height)]
        p.within(width, height) ==> out.cell(p) == (if exists|i: int|
            0 <= i < marks.len() && p.x == clamp_int((#[trigger] marks[i]).x as int, 0, width - 1)
                && p.y == clamp_int(marks[i].y as int, 0, height - 1) {
            value
        } else {
            base
        })
}

/// `out` has the shape of `g` and holds 1 where `g` holds a positive value
/// and 0 elsewhere.
pub open spec fn is_mask_of(g: Grid<i32>, out: Grid<i32>) -> bool {
    &&& out.wf()
    &&& out.same_shape(&g)
    &&& forall|p: Position|
        #![trigger p.within(g.width as int, g.height as int)]
        p.within(g.width as int, g.height as int) ==> out.cell(p) == clamp_int(
            g.cell(p) as int,
            0,
            1,
        )
}

/// `out` has the shape of `g` and holds in every cell the product of what `g`
/// and `by` hold there.
pub open spec fn is_product(g: Grid<i32>, by: Grid<i32>, out: Grid<i32>) -> bool {
    &&& out.wf()
    &&& out.same_shape(&g)
    &&& forall|p: Position|
        #![trigger p.within(g.width as int, g.height as int)]
        p.within(g.width as int, g.height as int) ==> out.cell(p) == g.cell(p) * by.cell(p)
}

/// `p` is the last cell, going row by row and each row from left to right,
/// among those that hold the highest value of `g`.
pub open spec fn is_last_highest(g: Grid<i32>, p: Position) -> bool {
    &&& g.contains(p)
    &&& forall|q: Position|
        #![trigger q.within(g.width as int, g.height as int)]
        q.within(g.width as int, g.height as int) ==> {
            &&& g.cell(q) <= g.cell(p)
            &&& (q.x + q.y * g.width > p.x + p.y * g.width ==> g.cell(q) < g.cell(p))
        }
}

/// Writes `value` into every cell of `cells`.
pub fn stamp(grid: &mut Grid<i32>, cells: &Vec<Position>, value: i32)
    requires
        old(grid).wf(),
        forall|i: int| 0 <= i < cells@.len() ==> old(grid).contains(#[trigger] cells@[i]),
    ensures
        is_stamped(*old(grid), cells@, value as int, *final(grid)),
{
    let ghost w = grid.width as int;
    let ghost h = grid.height as int;
    let mut i: usize = 0;
    while i < cells.len()
        invariant
            0 <= i <= cells@.len(),
            w == old(grid).width,
            h == old(grid).height,
            forall|i: int| 0 <= i < cells@.len() ==> (#[trigger] cells@[i]).within(w, h),
            is_stamped(*old(grid), cells@.take(i as int), value as int, *grid),
        decreases cells@.len() - i,
    {
        let cell = cells[i];
        let ghost before = *grid;
        assert(cells@[i as int].within(w, h));
        *grid.get_mut(cell.x, cell.y) = value;
        proof {
            lemma_write_cell(before, *grid, cell.x as int, cell.y as int, value);
            let shorter = cells@.take(i as int);
            let longer = cells@.take(i + 1);
            assert forall|p: Position| #![trigger p.within(w, h)] p.within(w, h) implies grid.cell(
                p,
            ) == (if longer.contains(p) {
                value as int
            } else {
                old(grid).cell(p) as int
            }) by {
                if p == cell {
                    assert(longer[i as int] == p);
                } else if shorter.contains(p) {
                    let j = choose|j: int| 0 <= j < shorter.len() && shorter[j] == p;
                    assert(longer[j] == p);
                } else if longer.contains(p) {
                    let j = choose|j: int| 0 <= j < longer.len() && longer[j] == p;
                    assert(shorter[j] == p);
                }
            }
        }
        i = i + 1;
    }
    proof {
        assert(cells@.take(cells@.len() as int) =~= cells@);
    }
}

/// The cell with the highest value; of several, the last one met when going
/// through the grid row by row.
pub fn highest_cell(grid: &Grid<i32>) -> (p: Position)
    requires
        grid.wf(),
        grid.width > 0,
        grid.height > 0,
    ensures
        is_last_highest(*grid, p),
{
    let cells = grid.iter_coords();
    let ghost w = grid.width as int;
    let ghost h = grid.height as int;
    proof {
        lemma_cell_index(w, h, 0, 0);
        lemma_index_cell(w, h, 0);
    }
    let mut best: Position = cells[0].0;
    let mut best_value: i32 = *cells[0].1;
    let ghost mut best_at: int = 0;
    let mut i: usize = 1;
    while i < cells.len()
        invariant
            1 <= i <= cells@.len(),
            grid.wf(),
            w == grid.width,
            h == grid.height,
            cells@.len() == grid.data@.len(),
            forall|j: int|
                0 <= j < cells@.len() ==> {
                    &&& (#[trigger] cells@[j]).0.x == j % w
                    &&& cells@[j].0.y == j / w
                    &&& *cells@[j].1 == grid.data@[j]
                },
            0 <= best_at < i,
            best == cells@[best_at].0,
            best_value == grid.data@[best_at],
            forall|j: int| 0 <= j < i ==> (#[trigger] grid.data@[j]) <= best_value,
            forall|j: int| best_at < j < i ==> (#[trigger] grid.data@[j]) < best_value,
        decreases cells@.len() - i,
    {
        let (pos, value) = cells[i];
        if *value >= best_value {
            best = pos;
            best_value = *value;
            proof {
                best_at = i as int;
            }
        }
        i = i + 1;
    }
    proof {
        lemma_index_cell(w, h, best_at);
        assert(best.x + best.y * w == best_at);
        assert forall|q: Position| #![trigger q.within(w, h)] q.within(w, h) implies {
            &&& grid.cell(q) <= grid.cell(best)
            &&& (q.x + q.y * w > best.x + best.y * w ==> grid.cell(q) < grid.cell(best))
        } by {
            lemma_cell_index(w, h, q.x as int, q.y as int);
            assert(grid.cell(q) == grid.data@[q.x + q.y * w]);
        }
    }
    best
}

/// Every cell of `g` holds 0 or 1.
pub open spec fn is_binary(g: Grid<i32>) -> bool {
    forall|p: Position|
        #![trigger p.within(g.width as int, g.height as int)]
        p.within(g.width as int, g.height as int) ==> 0 <= g.cell(p) <= 1
}

/// `mask` marks with 1 the cells that a unit of `team` reaches from `start`
/// with `budget` to spend: the cells that hold a positive value once the
/// field that holds `budget` on `start` and 0 elsewhere has been relaxed from
/// `start`.
pub open spec fn is_reach_mask(
    s: GameState,
    team: Team,
    start: Position,
    budget: int,
    mask: Grid<i32>,
) -> bool {
    exists|seeded: Grid<i32>, reach: Grid<i32>|
        #![trigger relaxed(seeded, reach, seq![start], team_costs(s, team))]
        {
            &&& is_seeded(
                s.grids.ground.width as int,
                s.grids.ground.height as int,
                0,
                seq![start],
                budget,
                seeded,
            )
            &&& relaxed(seeded, reach, seq![start], team_costs(s, team))
            &&& is_mask_of(reach, mask)
        }
}

/// `field` is what draws a unit of `team` to `goals`: the field that holds
/// `value` on the cells nearest to the goals and 0 elsewhere, relaxed from the
/// goals, and then multiplied by `mask`.
pub open spec fn is_goal_field(
    s: GameState,
    team: Team,
    goals: Seq<Position>,
    value: int,
    mask: Grid<i32>,
    field: Grid<i32>,
) -> bool {
    exists|seeded: Grid<i32>, pulled: Grid<i32>|
        #![trigger relaxed(seeded, pulled, goals, team_costs(s, team))]
        {
            &&& is_seeded(
                s.grids.ground.width as int,
                s.grids.ground.height as int,
                0,
                goals,
                value,
                seeded,
            )
            &&& relaxed(seeded, pulled, goals, team_costs(s, team))
            &&& is_product(pulled, mask, field)
        }
}

/// The cells that a unit of `team` reaches from `start` with `budget` to
/// spend, marked with 1 in a grid of zeros.
pub fn reach_mask(s: &GameState, team: Team, start: Position, budget: i32) -> (mask: Grid<i32>)
    requires
        s.wf(),
        s.grids.ground.contains(start),
    ensures
        is_reach_mask(*s, team, start, budget as int, mask),
        is_binary(mask),
        mask.wf(),
        mask.same_shape(&s.grids.ground),
{
    let ghost w = s.grids.ground.width as int;
    let ghost h = s.grids.ground.height as int;
    proof {
        assert(s.grids.ground.data.len() == s.grids.ground.data@.len());
    }
    let mut g: Grid<i32> = Grid::new(s.grids.ground.width, s.grids.ground.height, 0);
    let ghost blank = g;
    *g.get_mut(start.x, start.y) = budget;
    let ghost seeded = g;
    proof {
        lemma_write_cell(blank, seeded, start.x as int, start.y as int, budget);
        assert forall|p: Position| #![trigger p.within(w, h)] p.within(w, h) implies seeded.cell(p)
            == (if exists|i: int|
            0 <= i < seq![start].len() && p.x == clamp_int(
                (#[trigger] seq![start][i]).x as int,
                0,
                w - 1,
            ) && p.y == clamp_int(seq![start][i].y as int, 0, h - 1) {
            budget as int
        } else {
            0
        }) by {
            if p == start {
                assert(seq![start][0] == start);
            }
        }
    }
    let mut seeds: Vec<Position> = Vec::new();
    seeds.push(start);
    assert(seeds@ =~= seq![start]);
    relax_for(s, team, &mut g, &seeds);
    let ghost reach = g;
    g.clamp_values(0, 1);
    proof {
        assert(is_mask_of(reach, g));
        assert(relaxed(seeded, reach, seq![start], team_costs(*s, team)));
    }
    g
}

/// The field that draws a unit of `team` to `goals`, cut down to the cells
/// that `mask` marks. A goal outside the map counts as the cell of the map
/// nearest to it, but wakes its own neighbours.
pub fn goal_field(
    s: &GameState,
    team: Team,
    goals: &Vec<Position>,
    value: i32,
    mask: &Grid<i32>,
) -> (field: Grid<i32>)
    requires
        s.wf(),
        s.grids.ground.width > 0,
        s.grids.ground.height > 0,
        mask.wf(),
        mask.same_shape(&s.grids.ground),
        is_binary(*mask),
    ensures
        is_goal_field(*s, team, goals@, value as int, *mask, field),
        field.wf(),
        field.same_shape(&s.grids.ground),
{
    let ghost w = s.grids.ground.width as int;
    let ghost h = s.grids.ground.height as int;
    proof {
        assert(s.grids.ground.data.len() == s.grids.ground.data@.len());
    }
    let mut g: Grid<i32> = Grid::new(s.grids.ground.width, s.grids.ground.height, 0);
    let mut i: usize = 0;
    while i < goals.len()
        invariant
            0 <= i <= goals@.len(),
            w == s.grids.ground.width,
            h == s.grids.ground.height,
            w > 0,
            h > 0,
            is_seeded(w, h, 0, goals@.take(i as int), value as int, g),
        decreases goals@.len() - i,
    {
        let goal = goals[i];
        let ghost before = g;
        *g.get_clamped_mut(goal.x, goal.y) = value;
        proof {
            let cx = clamp_int(goal.x as int, 0, w - 1);
            let cy = clamp_int(goal.y as int, 0, h - 1);
            lemma_write_cell(before, g, cx, cy, value);
            let shorter = goals@.take(i as int);
            let longer = goals@.take(i + 1);
            assert forall|p: Position| #![trigger p.within(w, h)] p.within(w, h) implies g.cell(p)
                == (if exists|j: int|
                0 <= j < longer.len() && p.x == clamp_int((#[trigger] longer[j]).x as int, 0, w - 1)
                    && p.y == clamp_int(longer[j].y as int, 0, h - 1) {
                value as int
            } else {
                0
            }) by {
                if p.x == cx && p.y == cy {
                    assert(longer[i as int] == goal);
                } else {
                    if exists|j: int|
                        0 <= j < shorter.len() && p.x == clamp_int(
                            (#[trigger] shorter[j]).x as int,
                            0,
                            w - 1,
                        ) && p.y == clamp_int(shorter[j].y as int, 0, h - 1) {
                        let j = choose|j: int|
                            0 <= j < shorter.len() && p.x == clamp_int(
                                (#[trigger] shorter[j]).x as int,
                                0,
                                w - 1,
                            ) && p.y == clamp_int(shorter[j].y as int, 0, h - 1);
                        assert(longer[j] == shorter[j]);
                    } else if exists|j: int|
                        0 <= j < longer.len() && p.x == clamp_int(
                            (#[trigger] longer[j]).x as int,
                            0,
                            w - 1,
                        ) && p.y == clamp_int(longer[j].y as int, 0, h - 1) {
                        let j = choose|j: int|
                            0 <= j < longer.len() && p.x == clamp_int(
                                (#[trigger] longer[j]).x as int,
                                0,
                                w - 1,
                            ) && p.y == clamp_int(longer[j].y as int, 0, h - 1);
                        assert(shorter[j] == longer[j]);
                    }
                }
            }
        }
        i = i + 1;
    }
    proof {
        assert(goals@.take(goals@.len() as int) =~= goals@);
    }
    let ghost seeded = g;
    relax_for(s, team, &mut g, goals);
    let ghost pulled = g;
    proof {
        lemma_binary_product(g, *mask);
    }
    g.mul_inplace(mask);
    proof {
        assert(is_product(pulled, *mask, g)) by {
            assert forall|p: Position| #![trigger p.within(w, h)] p.within(w, h) implies g.cell(p)
                == pulled.cell(p) * mask.cell(p) by {
                assert(pulled.in_bounds(p.x as int, p.y as int));
            }
        }
        assert(relaxed(seeded, pulled, goals@, team_costs(*s, team)));
    }
    g
}

/// Which units of the directory are meant.
#[derive(Clone, Copy)]
pub enum Pick {
    /// Every unit.
    All,
    /// The units of this team.
    Of(Team),
    /// The units of any other team than this.
    Against(Team),
    /// Every unit but the one with this handle.
    Except(ActorKey),
}

impl Pick {
    /// Whether the unit `actor` with the handle `key` is meant.
    pub open spec fn takes(self, key: ActorKey, actor: Actor) -> bool {
        match self {
            Pick::All => true,
            Pick::Of(team) => actor.team == team,
            Pick::Against(team) => actor.team != team,
            Pick::Except(other) => key != other,
        }
    }
}

/// The cells that the units of `l` meant by `pick` stand on, in the order of `l`.
pub open spec fn spots(l: Seq<(ActorKey, Actor)>, pick: Pick) -> Seq<Position>
    decreases l.len(),
{
    if l.len() == 0 {
        Seq::empty()
    } else if pick.takes(l.last().0, l.last().1) {
        spots(l.drop_last(), pick).push(l.last().1.pos)
    } else {
        spots(l.drop_last(), pick)
    }
}

/// The handles of the units of `l` meant by `pick`, in the order of `l`.
pub open spec fn handles(l: Seq<(ActorKey, Actor)>, pick: Pick) -> Seq<ActorKey>
    decreases l.len(),
{
    if l.len() == 0 {
        Seq::empty()
    } else if pick.takes(l.last().0, l.last().1) {
        handles(l.drop_last(), pick).push(l.last().0)
    } else {
        handles(l.drop_last(), pick)
    }
}

/// Every cell of `spots` is the cell of a unit of the listing.
pub proof fn lemma_spots_on_map(l: Seq<(ActorKey, Actor)>, pick: Pick, width: int, height: int)
    requires
        forall|i: int| 0 <= i < l.len() ==> (#[trigger] l[i]).1.pos.within(width, height),
    ensures
        forall|i: int|
            0 <= i < spots(l, pick).len() ==> (#[trigger] spots(l, pick)[i]).within(width, height),
    decreases l.len(),
{
    if l.len() > 0 {
        let front = l.drop_last();
        assert forall|i: int| 0 <= i < front.len() implies (#[trigger] front[i]).1.pos.within(
            width,
            height,
        ) by {
            assert(front[i] == l[i]);
        }
        lemma_spots_on_map(front, pick, width, height);
        assert(l[l.len() - 1].1.pos.within(width, height));
        assert forall|i: int| 0 <= i < spots(l, pick).len() implies (#[trigger] spots(
            l,
            pick,
        )[i]).within(width, height) by {
            if i < spots(front, pick).len() {
                assert(spots(l, pick)[i] == spots(front, pick)[i]);
            }
        }
    }
}

/// The cells and the handles of the units of the directory that `pick` means.
pub fn picked(directory: &ActorDirectory, pick: Pick) -> (r: (Vec<Position>, Vec<ActorKey>))
    ensures
        r.0@ == spots(directory@, pick),
        r.1@ == handles(directory@, pick),
        distinct_keys(directory@),
{
    let all = directory.iter();
    let mut cells: Vec<Position> = Vec::new();
    let mut keys: Vec<ActorKey> = Vec::new();
    let mut i: usize = 0;
    proof {
        assert(all@.take(0).len() == 0);
    }
    while i < all.len()
        invariant
            0 <= i <= all@.len(),
            cells@ == spots(all@.take(i as int), pick),
            keys@ == handles(all@.take(i as int), pick),
        decreases all@.len() - i,
    {
        let (key, actor) = all[i];
        proof {
            assert(all@.take(i + 1).drop_last() =~= all@.take(i as int));
            assert(all@.take(i + 1).last() == all@[i as int]);
        }
        let taken = match pick {
            Pick::All => true,
            Pick::Of(team) => actor.team == team,
            Pick::Against(team) => actor.team != team,
            Pick::Except(other) => !ActorDirectory::same(key, other),
        };
        if taken {
            cells.push(actor.pos);
            keys.push(key);
        }
        i = i + 1;
    }
    proof {
        assert(all@.take(all@.len() as int) =~= all@);
    }
    (cells, keys)
}

/// What was worked out for the move of one unit.
pub struct MovePlan {
    /// 1 on every cell that the unit can reach at all, 0 elsewhere.
    pub move_range: Grid<i32>,
    /// The field that the path climbs.
    pub field: Grid<i32>,
    /// The cells to walk, the first of them the cell the unit stands on.
    /// Empty where there is nothing to climb.
    pub path: Vec<Position>,
}

/// The budget that a move starts with.
pub const MOVE_BUDGET: i32 = 9;

/// The value that the player's goal is seeded with.
pub const PLAYER_GOAL_VALUE: i32 = 99;

/// The value that the targets of a scripted unit are seeded with.
pub const ENEMY_GOAL_VALUE: i32 = 30;

/// The value of a cell that no path may use.
pub const BLOCKED_VALUE: i32 = -99;

/// `plan` is the plan for a unit of `team` that is shown on `start` and sent
/// towards `goal` by the player. All costs are those of `team`.
/// - the move range is what the unit reaches with the move budget;
/// - the field that draws the unit to the goal is cut down to the move range;
/// - every cell that a unit stands on is blocked there, the field is relaxed
///   again from these cells and from the best cell that is left, and cut down
///   to the move range once more;
/// - the cells of the units of other teams are blocked again;
/// - the path climbs the resulting field from `start`.
pub open spec fn is_player_plan(
    s: GameState,
    team: Team,
    start: Position,
    goal: Position,
    plan: MovePlan,
) -> bool {
    &&& is_reach_mask(s, team, start, MOVE_BUDGET as int, plan.move_range)
    &&& exists|
        toward: Grid<i32>,
        occupied: Grid<i32>,
        best: Position,
        again: Grid<i32>,
        cut: Grid<i32>,
    |
        #![trigger
            is_stamped(toward, spots(s.entities@, Pick::All), BLOCKED_VALUE as int, occupied),
            relaxed(occupied, again, spots(s.entities@, Pick::All).push(best), team_costs(s, team)),
            is_product(again, plan.move_range, cut),
        ]
        {
            &&& is_goal_field(
                s,
                team,
                seq![goal],
                PLAYER_GOAL_VALUE as int,
                plan.move_range,
                toward,
            )
            &&& is_stamped(toward, spots(s.entities@, Pick::All), BLOCKED_VALUE as int, occupied)
            &&& is_last_highest(occupied, best)
            &&& relaxed(
                occupied,
                again,
                spots(s.entities@, Pick::All).push(best),
                team_costs(s, team),
            )
            &&& is_product(again, plan.move_range, cut)
            &&& is_stamped(
                cut,
                spots(s.entities@, Pick::Against(team)),
                BLOCKED_VALUE as int,
                plan.field,
            )
        }
    &&& plan.path@ == path_from(plan.field, start)
}

/// Plans the move of the player's unit `e`, which is shown on `start`, towards
/// `goal`.
pub fn plan_player_move(s: &GameState, e: ActorKey, start: Position, goal: Position) -> (plan:
    MovePlan)
    requires
        s.wf(),
        s.actors_on_map(),
        s.grids.ground.contains(start),
        has_key(s.entities@, e),
    ensures
        is_player_plan(*s, actor_of(s.entities@, e).team, start, goal, plan),
        plan.field.wf(),
        plan.field.same_shape(&s.grids.ground),
        plan.move_range.wf(),
        plan.move_range.same_shape(&s.grids.ground),
        walkable(plan.path@),
        forall|i: int| 0 <= i < plan.path@.len() ==> s.grids.ground.contains(#[trigger] plan.path@[i]),
{
    let ghost w = s.grids.ground.width as int;
    let ghost h = s.grids.ground.height as int;
    let ghost l = s.entities@;
    let mover = match s.entities.get(e) {
        Some(a) => a,
        None => unreached(),
    };
    let move_range = reach_mask(s, mover.team, start, MOVE_BUDGET);
    let mut goals: Vec<Position> = Vec::new();
    goals.push(goal);
    assert(goals@ =~= seq![goal]);
    let mut grid = goal_field(s, mover.team, &goals, PLAYER_GOAL_VALUE, &move_range);
    let ghost toward = grid;
    let (mut seeds, _) = picked(&s.entities, Pick::All);
    proof {
        lemma_spots_on_map(l, Pick::All, w, h);
        lemma_spots_on_map(l, Pick::Against(mover.team), w, h);
    }
    stamp(&mut grid, &seeds, BLOCKED_VALUE);
    let ghost occupied = grid;
    let best = highest_cell(&grid);
    seeds.push(best);
    relax_for(s, mover.team, &mut grid, &seeds);
    let ghost again = grid;
    proof {
        lemma_binary_product(grid, move_range);
    }
    grid.mul_inplace(&move_range);
    let ghost cut = grid;
    proof {
        assert(is_product(again, move_range, cut)) by {
            assert forall|p: Position| #![trigger p.within(w, h)] p.within(w, h) implies cut.cell(p)
                == again.cell(p) * move_range.cell(p) by {
                assert(again.in_bounds(p.x as int, p.y as int));
            }
        }
    }
    let (foes, _) = picked(&s.entities, Pick::Against(mover.team));
    stamp(&mut grid, &foes, BLOCKED_VALUE);
    let path = dijkstra_path(&grid, start);
    proof {
        lemma_climb_walkable(grid, start);
        lemma_path_rises(grid, start);
        assert forall|i: int| 0 <= i < path@.len() implies s.grids.ground.contains(
            #[trigger] path@[i],
        ) by {
            assert(grid.contains(path@[i]));
        }
    }
    let plan = MovePlan { move_range, field: grid, path };
    proof {
        assert(is_stamped(toward, spots(s.entities@, Pick::All), BLOCKED_VALUE as int, occupied));
        assert(relaxed(
            occupied,
            again,
            spots(s.entities@, Pick::All).push(best),
            team_costs(*s, mover.team),
        ));
        assert(is_product(again, plan.move_range, cut));
    }
    plan
}

/// Multiplying a field by a field of zeros and ones stays within `i32`.
proof fn lemma_binary_product(g: Grid<i32>, mask: Grid<i32>)
    requires
        g.wf(),
        mask.wf(),
        g.same_shape(&mask),
        is_binary(mask),
    ensures
        forall|x: int, y: int|
            g.in_bounds(x, y) ==> i32::MIN <= #[trigger] g.at(x, y) * mask.at(x, y) <= i32::MAX,
{
    assert forall|x: int, y: int| g.in_bounds(x, y) implies i32::MIN <= #[trigger] g.at(x, y)
        * mask.at(x, y) <= i32::MAX by {
        let p = Position { x: x as i32, y: y as i32 };
        assert(p.within(mask.width as int, mask.height as int));
        assert(0 <= mask.cell(p) <= 1);
        assert(g.at(x, y) * mask.at(x, y) == 0 || g.at(x, y) * mask.at(x, y) == g.at(x, y))
            by (nonlinear_arith)
            requires
                0 <= mask.at(x, y) <= 1,
        ;
    }
}

/// Where a scripted unit that stands on `start` heads for, once `best` is the
/// best cell of `occupied`: it stays where it is if that is as good.
pub open spec fn heading(occupied: Grid<i32>, best: Position, start: Position) -> Position {
    if occupied.cell(best) == occupied.cell(start) {
        start
    } else {
        best
    }
}

/// `plan` is the plan for the scripted unit `key`, which is `actor`:
/// - the move range is what the unit reaches with the move budget;
/// - the field that draws the unit to the units of the other team is cut
///   down to the move range, and the cells of all other units are blocked in
///   it;
/// - the unit heads for the best cell of that field, or stays if its own cell
///   is as good;
/// - the field of the plan draws the unit to that cell, within the move range;
/// - the path climbs that field from the cell of the unit.
pub open spec fn is_enemy_plan(s: GameState, key: ActorKey, actor: Actor, plan: MovePlan) -> bool {
    &&& is_reach_mask(s, actor.team, actor.pos, MOVE_BUDGET as int, plan.move_range)
    &&& exists|toward: Grid<i32>, occupied: Grid<i32>, best: Position|
        #![trigger
            is_stamped(toward, spots(s.entities@, Pick::Except(key)), BLOCKED_VALUE as int, occupied),
            is_last_highest(occupied, best),
        ]
        {
            &&& is_goal_field(
                s,
                actor.team,
                spots(s.entities@, Pick::Against(actor.team)),
                ENEMY_GOAL_VALUE as int,
                plan.move_range,
                toward,
            )
            &&& is_stamped(
                toward,
                spots(s.entities@, Pick::Except(key)),
                BLOCKED_VALUE as int,
                occupied,
            )
            &&& is_last_highest(occupied, best)
            &&& is_goal_field(
                s,
                actor.team,
                seq![heading(occupied, best, actor.pos)],
                ENEMY_GOAL_VALUE as int,
                plan.move_range,
                plan.field,
            )
        }
    &&& plan.path@ == path_from(plan.field, actor.pos)
}

/// Plans the move of the scripted unit `index`.
pub fn plan_enemy_move(s: &GameState, index: ActorKey) -> (plan: MovePlan)
    requires
        s.wf(),
        s.actors_on_map(),
        has_key(s.entities@, index),
    ensures
        is_enemy_plan(*s, index, actor_of(s.entities@, index), plan),
        plan.field.wf(),
        plan.field.same_shape(&s.grids.ground),
        plan.move_range.wf(),
        plan.move_range.same_shape(&s.grids.ground),
        walkable(plan.path@),
        forall|i: int| 0 <= i < plan.path@.len() ==> s.grids.ground.contains(#[trigger] plan.path@[i]),
{
    let ghost w = s.grids.ground.width as int;
    let ghost h = s.grids.ground.height as int;
    let ghost l = s.entities@;
    let actor = match s.entities.get(index) {
        Some(a) => a,
        None => unreached(),
    };
    let start = actor.pos;
    proof {
        let i = place_of(l, index);
        assert(s.grids.ground.contains(l[i].1.pos));
    }
    let (others, _) = picked(&s.entities, Pick::Except(index));
    proof {
        lemma_spots_on_map(l, Pick::Except(index), w, h);
    }
    let move_range = reach_mask(s, actor.team, start, MOVE_BUDGET);
    let (targets, _) = picked(&s.entities, Pick::Against(actor.team));
    let mut grid = goal_field(s, actor.team, &targets, ENEMY_GOAL_VALUE, &move_range);
    let ghost toward = grid;
    stamp(&mut grid, &others, BLOCKED_VALUE);
    let ghost occupied = grid;
    let mut highest_reachable_pos = highest_cell(&grid);
    let ghost best = highest_reachable_pos;
    if *grid.get(highest_reachable_pos.x, highest_reachable_pos.y) == *grid.get(start.x, start.y) {
        highest_reachable_pos = start;
    }
    let mut goals: Vec<Position> = Vec::new();
    goals.push(highest_reachable_pos);
    assert(goals@ =~= seq![heading(occupied, best, start)]);
    let field = goal_field(s, actor.team, &goals, ENEMY_GOAL_VALUE, &move_range);
    let path = dijkstra_path(&field, start);
    proof {
        lemma_climb_walkable(field, start);
        lemma_path_rises(field, start);
        assert forall|i: int| 0 <= i < path@.len() implies s.grids.ground.contains(
            #[trigger] path@[i],
        ) by {
            assert(field.contains(path@[i]));
        }
    }
    let plan = MovePlan { move_range, field, path };
    proof {
        assert(is_stamped(
            toward,
            spots(s.entities@, Pick::Except(index)),
            BLOCKED_VALUE as int,
            occupied,
        ));
        assert(is_last_highest(occupied, best));
    }
    plan
}

} // verus!
