//! What it means for a field of values to be relaxed under a cost function.
//!
//! A cell is stable when no neighbour exceeds its value by more than the cost
//! of entering the cell. Relaxing starts at the neighbours of the seeds and
//! raises cells until every cell that it has reached is stable. What it
//! leaves is the least field that covers the field it started from.

use vstd::prelude::*;
use crate::grid::{lemma_index_cell, Grid};
use crate::position::Position;

verus! {

/// No neighbour of `p` holds more than the value at `p` plus `c`.
pub open spec fn stable_at(g: Grid<i32>, p: Position, c: int) -> bool {
    forall|q: Position|
        #![trigger q.within(g.width as int, g.height as int)]
        q.within(g.width as int, g.height as int) && p.adjacent(q) ==> g.cell(q) <= g.cell(p) + c
}

/// The value at `p` is exactly `c` below the value of one of its neighbours.
pub open spec fn held_at(g: Grid<i32>, p: Position, c: int) -> bool {
    exists|q: Position|
        #![trigger q.within(g.width as int, g.height as int)]
        q.within(g.width as int, g.height as int) && p.adjacent(q) && g.cell(p) == g.cell(q) - c
}

/// The value at `p` is at least `c` below the value of one of its neighbours.
pub open spec fn lifted_at(g: Grid<i32>, p: Position, c: int) -> bool {
    exists|q: Position|
        #![trigger q.within(g.width as int, g.height as int)]
        q.within(g.width as int, g.height as int) && p.adjacent(q) && g.cell(p) <= g.cell(q) - c
}

/// `p` is a neighbour of one of the seeds.
pub open spec fn near_seed(p: Position, seeds: Seq<Position>) -> bool {
    exists|i: int| 0 <= i < seeds.len() && (#[trigger] seeds[i]).adjacent(p)
}

/// The cell `p` is at rest in `g`: no neighbour holds more than the value at
/// `p` plus `c`, except that a neighbour may do so where neither it nor `p`
/// has risen above `start` and `p` is no neighbour of a seed.
pub open spec fn settled_at(
    start: Grid<i32>,
    g: Grid<i32>,
    p: Position,
    seeds: Seq<Position>,
    c: int,
) -> bool {
    forall|q: Position|
        #![trigger q.within(g.width as int, g.height as int)]
        q.within(g.width as int, g.height as int) && p.adjacent(q) && (near_seed(p, seeds)
            || g.cell(p) > start.cell(p) || g.cell(q) > start.cell(q)) ==> g.cell(q) <= g.cell(p)
            + c
}

/// There is a reason to visit `q`: it is the neighbour of a seed, or one of
/// its neighbours has risen to more than what `q` held in `start` plus `c`.
pub open spec fn woken(
    start: Grid<i32>,
    g: Grid<i32>,
    q: Position,
    seeds: Seq<Position>,
    c: int,
) -> bool {
    near_seed(q, seeds) || exists|w: Position|
        #![trigger w.within(g.width as int, g.height as int)]
        w.within(g.width as int, g.height as int) && q.adjacent(w) && g.cell(w) > start.cell(w)
            && start.cell(q) + c < g.cell(w)
}

/// Every cell of `g` next to a seed is stable under `costs`.
pub open spec fn settled_near(
    g: Grid<i32>,
    seeds: Seq<Position>,
    costs: spec_fn(Position) -> int,
) -> bool {
    forall|p: Position|
        #![trigger p.within(g.width as int, g.height as int)]
        p.within(g.width as int, g.height as int) && near_seed(p, seeds) ==> stable_at(
            g,
            p,
            costs(p),
        )
}

/// No cell of `g` holds more than `bound`.
pub open spec fn at_most(g: Grid<i32>, bound: int) -> bool {
    forall|p: Position|
        #![trigger p.within(g.width as int, g.height as int)]
        p.within(g.width as int, g.height as int) ==> g.cell(p) <= bound
}

/// No cell of `low` holds more than the same cell of `high`.
pub open spec fn below(low: Grid<i32>, high: Grid<i32>) -> bool {
    forall|p: Position|
        #![trigger p.within(low.width as int, low.height as int)]
        p.within(low.width as int, low.height as int) ==> low.cell(p) <= high.cell(p)
}

/// Every cell is stable under `costs`.
pub open spec fn stable_everywhere(g: Grid<i32>, costs: spec_fn(Position) -> int) -> bool {
    forall|p: Position|
        #![trigger p.within(g.width as int, g.height as int)]
        p.within(g.width as int, g.height as int) ==> stable_at(g, p, costs(p))
}

/// The values `high` cover the field `start`: they are nowhere below it, and
/// every cell is at rest in them, in the sense of `settled_at`.
pub open spec fn covers(
    high: spec_fn(Position) -> int,
    start: Grid<i32>,
    seeds: Seq<Position>,
    costs: spec_fn(Position) -> int,
) -> bool {
    forall|p: Position|
        #![trigger p.within(start.width as int, start.height as int)]
        p.within(start.width as int, start.height as int) ==> {
            &&& start.cell(p) <= high(p)
            &&& forall|q: Position|
                #![trigger q.within(start.width as int, start.height as int)]
                q.within(start.width as int, start.height as int) && p.adjacent(q) && (near_seed(
                    p,
                    seeds,
                ) || high(p) > start.cell(p) || high(q) > start.cell(q)) ==> high(q) <= high(p)
                    + costs(p)
        }
}

/// No cell of `g` holds more than `high` gives for it.
pub open spec fn under(g: Grid<i32>, high: spec_fn(Position) -> int) -> bool {
    forall|p: Position|
        #![trigger p.within(g.width as int, g.height as int)]
        p.within(g.width as int, g.height as int) ==> g.cell(p) <= high(p)
}

/// The values of a field as a function of the cell.
pub open spec fn values_of(g: Grid<i32>) -> spec_fn(Position) -> int {
    |p: Position| g.cell(p) as int
}

/// What relaxing `start` from `seeds` under `costs` leaves in `end`:
/// - no cell has fallen;
/// - a cell that rose sits exactly its own cost below one of its neighbours;
/// - every cell is at rest: it is stable, except toward a neighbour that has
///   kept its value as the cell itself has, if the cell is no neighbour of a
///   seed;
/// - no values that cover `start` are below `end` in any cell.
pub open spec fn relaxed(
    start: Grid<i32>,
    end: Grid<i32>,
    seeds: Seq<Position>,
    costs: spec_fn(Position) -> int,
) -> bool {
    &&& end.wf()
    &&& end.same_shape(&start)
    &&& below(start, end)
    &&& forall|p: Position|
        #![trigger p.within(start.width as int, start.height as int)]
        p.within(start.width as int, start.height as int) ==> {
            &&& (end.cell(p) == start.cell(p) || held_at(end, p, costs(p)))
            &&& settled_at(start, end, p, seeds, costs(p))
        }
    &&& forall|high: spec_fn(Position) -> int| #[trigger]
        covers(high, start, seeds, costs) ==> under(end, high)
}

/// What holds of the field `cur` while `start` is being relaxed and the cells
/// of `pending` still wait for their turn.
pub open spec fn relaxing(
    start: Grid<i32>,
    cur: Grid<i32>,
    pending: Seq<Position>,
    seeds: Seq<Position>,
    costs: spec_fn(Position) -> int,
) -> bool {
    &&& start.wf()
    &&& cur.wf()
    &&& cur.same_shape(&start)
    &&& below(start, cur)
    &&& forall|p: Position|
        #![trigger p.within(start.width as int, start.height as int)]
        p.within(start.width as int, start.height as int) ==> {
            &&& (cur.cell(p) == start.cell(p) || lifted_at(cur, p, costs(p)))
            &&& (pending.contains(p) || settled_at(start, cur, p, seeds, costs(p)))
        }
    &&& forall|q: Position|
        pending.contains(q) ==> q.within(start.width as int, start.height as int) && woken(
            start,
            cur,
            q,
            seeds,
            costs(q),
        )
    &&& forall|high: spec_fn(Position) -> int| #[trigger]
        covers(high, start, seeds, costs) ==> under(cur, high)
}

/// Before any cell has been visited, with exactly the neighbours of the seeds
/// pending.
pub proof fn lemma_relaxing_begins(
    start: Grid<i32>,
    pending: Seq<Position>,
    seeds: Seq<Position>,
    costs: spec_fn(Position) -> int,
)
    requires
        start.wf(),
        forall|q: Position|
            #![trigger q.within(start.width as int, start.height as int)]
            q.within(start.width as int, start.height as int) && near_seed(q, seeds)
                ==> pending.contains(q),
        forall|q: Position|
            pending.contains(q) ==> q.within(start.width as int, start.height as int) && near_seed(
                q,
                seeds,
            ),
    ensures
        relaxing(start, start, pending, seeds, costs),
{
}

/// Once nothing is pending, the field is relaxed.
pub proof fn lemma_relaxing_ends(
    start: Grid<i32>,
    cur: Grid<i32>,
    seeds: Seq<Position>,
    costs: spec_fn(Position) -> int,
)
    requires
        relaxing(start, cur, Seq::<Position>::empty(), seeds, costs),
    ensures
        relaxed(start, cur, seeds, costs),
{
    let w = start.width as int;
    let h = start.height as int;
    assert forall|p: Position| #![trigger p.within(w, h)] p.within(w, h) implies {
        &&& (cur.cell(p) == start.cell(p) || held_at(cur, p, costs(p)))
        &&& settled_at(start, cur, p, seeds, costs(p))
    } by {
        assert(!Seq::<Position>::empty().contains(p));
        if cur.cell(p) != start.cell(p) {
            let q = choose|q: Position|
                #![trigger q.within(cur.width as int, cur.height as int)]
                q.within(cur.width as int, cur.height as int) && p.adjacent(q) && cur.cell(p)
                    <= cur.cell(q) - costs(p);
            assert(q.within(cur.width as int, cur.height as int));
            assert(cur.cell(q) <= cur.cell(p) + costs(p));
            assert(held_at(cur, p, costs(p)));
        }
    }
}

/// Visiting the pending cell `p` keeps the relaxation on course: `p` either
/// was stable and keeps its value, or rises to sit exactly its cost below its
/// best neighbour, and then exactly the neighbours that this unsettles are
/// added to the pending cells.
pub proof fn lemma_relaxing_visit(
    start: Grid<i32>,
    before: Grid<i32>,
    after: Grid<i32>,
    pending: Seq<Position>,
    rest: Seq<Position>,
    seeds: Seq<Position>,
    costs: spec_fn(Position) -> int,
    p: Position,
)
    requires
        relaxing(start, before, pending, seeds, costs),
        pending.contains(p),
        after.wf(),
        after.same_shape(&before),
        forall|q: Position|
            #![trigger q.within(start.width as int, start.height as int)]
            q.within(start.width as int, start.height as int) && q != p ==> after.cell(q)
                == before.cell(q),
        (after.cell(p) == before.cell(p) && stable_at(before, p, costs(p))) || (after.cell(p)
            > before.cell(p) && stable_at(after, p, costs(p)) && held_at(after, p, costs(p))),
        forall|q: Position| pending.contains(q) && q != p ==> rest.contains(q),
        forall|q: Position|
            rest.contains(q) ==> pending.contains(q) || (after.cell(p) > before.cell(p)
                && q.within(start.width as int, start.height as int) && p.adjacent(q)
                && after.cell(q) + costs(q) < after.cell(p)),
        after.cell(p) > before.cell(p) ==> forall|q: Position|
            #![trigger q.within(start.width as int, start.height as int)]
            q.within(start.width as int, start.height as int) && p.adjacent(q) && after.cell(q)
                + costs(q) < after.cell(p) ==> rest.contains(q),
    ensures
        relaxing(start, after, rest, seeds, costs),
{
    let w = start.width as int;
    let h = start.height as int;
    assert(p.within(w, h));
    assert(below(start, after)) by {
        assert forall|q: Position| #![trigger q.within(w, h)] q.within(w, h) implies start.cell(q)
            <= after.cell(q) by {}
    }
    assert forall|x: Position| #![trigger x.within(w, h)] x.within(w, h) implies {
        &&& (after.cell(x) == start.cell(x) || lifted_at(after, x, costs(x)))
        &&& (rest.contains(x) || settled_at(start, after, x, seeds, costs(x)))
    } by {
        if x == p {
            if after.cell(p) == before.cell(p) {
                if before.cell(p) != start.cell(p) {
                    let r = choose|r: Position|
                        #![trigger r.within(before.width as int, before.height as int)]
                        r.within(before.width as int, before.height as int) && p.adjacent(r)
                            && before.cell(p) <= before.cell(r) - costs(p);
                    assert(r.within(w, h));
                    assert(r.within(after.width as int, after.height as int) && p.adjacent(r)
                        && after.cell(p) <= after.cell(r) - costs(p));
                }
                assert forall|r: Position|
                    #![trigger r.within(after.width as int, after.height as int)]
                    r.within(after.width as int, after.height as int) && p.adjacent(
                        r,
                    ) implies after.cell(r) <= after.cell(p) + costs(p) by {
                    assert(r.within(before.width as int, before.height as int));
                    assert(r.within(w, h));
                }
            } else {
                let r = choose|r: Position|
                    #![trigger r.within(after.width as int, after.height as int)]
                    r.within(after.width as int, after.height as int) && p.adjacent(r)
                        && after.cell(p) == after.cell(r) - costs(p);
                assert(r.within(after.width as int, after.height as int) && p.adjacent(r)
                    && after.cell(p) <= after.cell(r) - costs(p));
            }
        } else {
            if after.cell(x) != start.cell(x) {
                let r = choose|r: Position|
                    #![trigger r.within(before.width as int, before.height as int)]
                    r.within(before.width as int, before.height as int) && x.adjacent(r)
                        && before.cell(x) <= before.cell(r) - costs(x);
                assert(r.within(w, h));
                assert(r.within(after.width as int, after.height as int) && x.adjacent(r)
                    && after.cell(x) <= after.cell(r) - costs(x));
            }
            if !rest.contains(x) {
                assert(!pending.contains(x));
                assert(settled_at(start, before, x, seeds, costs(x)));
                assert forall|q: Position|
                    #![trigger q.within(after.width as int, after.height as int)]
                    q.within(after.width as int, after.height as int) && x.adjacent(q) && (
                    near_seed(x, seeds) || after.cell(x) > start.cell(x) || after.cell(q)
                        > start.cell(q)) implies after.cell(q) <= after.cell(x) + costs(x) by {
                    assert(q.within(before.width as int, before.height as int));
                    assert(q.within(w, h));
                    if q == p && after.cell(p) > before.cell(p) {
                        assert(p.adjacent(x));
                    }
                }
            }
        }
    }
    assert forall|q: Position| rest.contains(q) implies q.within(w, h) && woken(
        start,
        after,
        q,
        seeds,
        costs(q),
    ) by {
        if pending.contains(q) {
            assert(woken(start, before, q, seeds, costs(q)));
            if !near_seed(q, seeds) {
                let v = choose|v: Position|
                    #![trigger v.within(before.width as int, before.height as int)]
                    v.within(before.width as int, before.height as int) && q.adjacent(v)
                        && before.cell(v) > start.cell(v) && start.cell(q) + costs(q)
                        < before.cell(v);
                assert(v.within(w, h));
                assert(v.within(after.width as int, after.height as int) && q.adjacent(v)
                    && after.cell(v) > start.cell(v) && start.cell(q) + costs(q) < after.cell(v));
            }
        } else {
            assert(p.within(after.width as int, after.height as int) && q.adjacent(p)
                && after.cell(p) > start.cell(p) && start.cell(q) + costs(q) < after.cell(p));
        }
    }
    assert forall|high: spec_fn(Position) -> int| #[trigger]
        covers(high, start, seeds, costs) implies under(after, high) by {
        assert(under(before, high));
        assert forall|q: Position|
            #![trigger q.within(after.width as int, after.height as int)]
            q.within(after.width as int, after.height as int) implies after.cell(q) <= high(q) by {
            assert(q.within(w, h));
            assert(q.within(before.width as int, before.height as int));
            if q == p && after.cell(p) > before.cell(p) {
                let r = choose|r: Position|
                    #![trigger r.within(after.width as int, after.height as int)]
                    r.within(after.width as int, after.height as int) && p.adjacent(r)
                        && after.cell(p) == after.cell(r) - costs(p);
                assert(r.within(w, h));
                assert(r.within(before.width as int, before.height as int));
                assert(before.cell(r) <= high(r));
                assert(woken(start, before, p, seeds, costs(p)));
                if !near_seed(p, seeds) {
                    let v = choose|v: Position|
                        #![trigger v.within(before.width as int, before.height as int)]
                        v.within(before.width as int, before.height as int) && p.adjacent(v)
                            && before.cell(v) > start.cell(v) && start.cell(p) + costs(p)
                            < before.cell(v);
                    assert(v.within(w, h));
                    assert(before.cell(v) <= high(v));
                    assert(high(v) > start.cell(v));
                    assert(high(v) <= high(p) + costs(p));
                    assert(high(p) > start.cell(p));
                }
                assert(high(r) <= high(p) + costs(p));
            }
        }
    }
}

/// The sum of all values of a field's storage.
pub open spec fn total(s: Seq<i32>) -> int
    decreases s.len(),
{
    if s.len() == 0 {
        0
    } else {
        total(s.drop_last()) + s.last()
    }
}

/// Writing one value changes the sum by the difference to the value it replaces.
pub proof fn lemma_total_update(s: Seq<i32>, i: int, v: i32)
    requires
        0 <= i < s.len(),
    ensures
        total(s.update(i, v)) == total(s) + v - s[i],
    decreases s.len(),
{
    if i == s.len() - 1 {
        assert(s.update(i, v).drop_last() =~= s.drop_last());
    } else {
        assert(s.update(i, v).drop_last() =~= s.drop_last().update(i, v));
        lemma_total_update(s.drop_last(), i, v);
    }
}

/// The sum cannot exceed what the storage could hold at most.
pub proof fn lemma_total_bound(s: Seq<i32>)
    ensures
        total(s) <= s.len() * i32::MAX,
    decreases s.len(),
{
    if s.len() > 0 {
        lemma_total_bound(s.drop_last());
    }
}

/// The index of the first cell of `cells` that holds the highest value among
/// them (0 for an empty list).
pub open spec fn highest_index(g: Grid<i32>, cells: Seq<Position>) -> int
    decreases cells.len(),
{
    if cells.len() <= 1 {
        0
    } else {
        let k = highest_index(g, cells.drop_last());
        if g.cell(cells.last()) > g.cell(cells[k]) {
            cells.len() - 1
        } else {
            k
        }
    }
}

/// `highest_index` points at a cell that no cell of the list exceeds and that
/// every earlier cell of the list stays strictly below.
pub proof fn lemma_highest_index(g: Grid<i32>, cells: Seq<Position>)
    requires
        cells.len() > 0,
    ensures
        0 <= highest_index(g, cells) < cells.len(),
        forall|j: int|
            0 <= j < cells.len() ==> g.cell(#[trigger] cells[j]) <= g.cell(
                cells[highest_index(g, cells)],
            ),
        forall|j: int|
            0 <= j < highest_index(g, cells) ==> g.cell(#[trigger] cells[j]) < g.cell(
                cells[highest_index(g, cells)],
            ),
    decreases cells.len(),
{
    if cells.len() > 1 {
        let front = cells.drop_last();
        lemma_highest_index(g, front);
        let k = highest_index(g, front);
        assert(cells[k] == front[k]);
        assert forall|j: int| 0 <= j < cells.len() implies g.cell(#[trigger] cells[j]) <= g.cell(
            cells[highest_index(g, cells)],
        ) by {
            if j < cells.len() - 1 {
                assert(cells[j] == front[j]);
            }
        }
        assert forall|j: int| 0 <= j < highest_index(g, cells) implies g.cell(
            #[trigger] cells[j],
        ) < g.cell(cells[highest_index(g, cells)]) by {
            if j < cells.len() - 1 {
                assert(cells[j] == front[j]);
            }
        }
    }
}

/// Two fields of one shape that agree in every cell hold the same values.
pub proof fn lemma_same_cells(a: Grid<i32>, b: Grid<i32>)
    requires
        a.wf(),
        b.wf(),
        a.same_shape(&b),
        forall|p: Position|
            #![trigger p.within(a.width as int, a.height as int)]
            p.within(a.width as int, a.height as int) ==> a.cell(p) == b.cell(p),
    ensures
        a.data@ == b.data@,
{
    assert forall|i: int| 0 <= i < a.data@.len() implies a.data@[i] == b.data@[i] by {
        lemma_index_cell(a.width as int, a.height as int, i);
        let p = Position { x: (i % a.width as int) as i32, y: (i / a.width as int) as i32 };
        assert(p.within(a.width as int, a.height as int));
        assert(a.cell(p) == a.data@[i]);
        assert(b.cell(p) == b.data@[i]);
    }
    assert(a.data@ =~= b.data@);
}

/// The values of a relaxed field cover the field that was relaxed.
pub proof fn lemma_relaxed_covers(
    start: Grid<i32>,
    end: Grid<i32>,
    seeds: Seq<Position>,
    costs: spec_fn(Position) -> int,
)
    requires
        relaxed(start, end, seeds, costs),
    ensures
        covers(values_of(end), start, seeds, costs),
{
    let w = start.width as int;
    let h = start.height as int;
    let high = values_of(end);
    assert forall|p: Position| #![trigger p.within(w, h)] p.within(w, h) implies {
        &&& start.cell(p) <= high(p)
        &&& forall|q: Position|
            #![trigger q.within(w, h)]
            q.within(w, h) && p.adjacent(q) && (near_seed(p, seeds) || high(p) > start.cell(p)
                || high(q) > start.cell(q)) ==> high(q) <= high(p) + costs(p)
    } by {
        assert(settled_at(start, end, p, seeds, costs(p)));
        assert forall|q: Position|
            #![trigger q.within(w, h)]
            q.within(w, h) && p.adjacent(q) && (near_seed(p, seeds) || high(p) > start.cell(p)
                || high(q) > start.cell(q)) implies high(q) <= high(p) + costs(p) by {
            assert(q.within(end.width as int, end.height as int));
        }
    }
}

/// The relaxed field is determined by the field that was relaxed, the seeds
/// and the costs: two fields that both are relaxed from it are equal.
pub proof fn lemma_relaxed_unique(
    start: Grid<i32>,
    a: Grid<i32>,
    b: Grid<i32>,
    seeds: Seq<Position>,
    costs: spec_fn(Position) -> int,
)
    requires
        relaxed(start, a, seeds, costs),
        relaxed(start, b, seeds, costs),
    ensures
        a.data@ == b.data@,
{
    lemma_relaxed_covers(start, a, seeds, costs);
    lemma_relaxed_covers(start, b, seeds, costs);
    assert(under(a, values_of(b)));
    assert(under(b, values_of(a)));
    assert forall|p: Position|
        #![trigger p.within(a.width as int, a.height as int)]
        p.within(a.width as int, a.height as int) implies a.cell(p) == b.cell(p) by {
        assert(p.within(b.width as int, b.height as int));
    }
    lemma_same_cells(a, b);
}

/// Where every neighbour of a seed is stable to begin with, relaxing changes
/// nothing.
pub proof fn lemma_relaxed_calm(
    start: Grid<i32>,
    end: Grid<i32>,
    seeds: Seq<Position>,
    costs: spec_fn(Position) -> int,
)
    requires
        start.wf(),
        settled_near(start, seeds, costs),
        relaxed(start, end, seeds, costs),
    ensures
        end.data@ == start.data@,
{
    let w = start.width as int;
    let h = start.height as int;
    let high = values_of(start);
    assert forall|p: Position| #![trigger p.within(w, h)] p.within(w, h) implies {
        &&& start.cell(p) <= high(p)
        &&& forall|q: Position|
            #![trigger q.within(w, h)]
            q.within(w, h) && p.adjacent(q) && (near_seed(p, seeds) || high(p) > start.cell(p)
                || high(q) > start.cell(q)) ==> high(q) <= high(p) + costs(p)
    } by {
        if near_seed(p, seeds) {
            assert(stable_at(start, p, costs(p)));
        }
    }
    assert(covers(high, start, seeds, costs));
    assert(under(end, high));
    assert forall|p: Position|
        #![trigger p.within(end.width as int, end.height as int)]
        p.within(end.width as int, end.height as int) implies end.cell(p) == start.cell(p) by {
        assert(p.within(w, h));
    }
    lemma_same_cells(end, start);
}

/// Relaxing a relaxed field once more, from the same seeds and under the same
/// costs, changes nothing.
pub proof fn lemma_relaxed_again(
    start: Grid<i32>,
    once: Grid<i32>,
    twice: Grid<i32>,
    seeds: Seq<Position>,
    costs: spec_fn(Position) -> int,
)
    requires
        relaxed(start, once, seeds, costs),
        relaxed(once, twice, seeds, costs),
    ensures
        twice.data@ == once.data@,
{
    assert(settled_near(once, seeds, costs)) by {
        assert forall|p: Position|
            #![trigger p.within(once.width as int, once.height as int)]
            p.within(once.width as int, once.height as int) && near_seed(
                p,
                seeds,
            ) implies stable_at(once, p, costs(p)) by {
            assert(p.within(start.width as int, start.height as int));
            assert(settled_at(start, once, p, seeds, costs(p)));
        }
    }
    lemma_relaxed_calm(once, twice, seeds, costs);
}

/// Where every cell of `start` that is not stable is the neighbour of a seed,
/// relaxing leaves a field that is stable everywhere.
pub proof fn lemma_relaxed_settles(
    start: Grid<i32>,
    end: Grid<i32>,
    seeds: Seq<Position>,
    costs: spec_fn(Position) -> int,
)
    requires
        start.wf(),
        relaxed(start, end, seeds, costs),
        forall|p: Position|
            #![trigger p.within(start.width as int, start.height as int)]
            p.within(start.width as int, start.height as int) ==> stable_at(start, p, costs(p))
                || near_seed(p, seeds),
    ensures
        stable_everywhere(end, costs),
{
    assert forall|p: Position|
        #![trigger p.within(end.width as int, end.height as int)]
        p.within(end.width as int, end.height as int) implies stable_at(end, p, costs(p)) by {
        assert(p.within(start.width as int, start.height as int));
        assert(settled_at(start, end, p, seeds, costs(p)));
        if !stable_at(end, p, costs(p)) {
            let q = choose|q: Position|
                #![trigger q.within(end.width as int, end.height as int)]
                q.within(end.width as int, end.height as int) && p.adjacent(q) && !(end.cell(q)
                    <= end.cell(p) + costs(p));
            assert(q.within(start.width as int, start.height as int));
            assert(stable_at(start, p, costs(p)));
        }
    }
}

} // verus!
