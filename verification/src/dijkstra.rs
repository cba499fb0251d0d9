//! Cost-weighted reachability fields over a grid, and the paths that climb them.
//!
//! A field is a `Grid<i32>`. Relaxing a field raises a cell to the value of
//! its best neighbour minus the cost of entering the cell, for as long as that
//! raises anything. Cells start from the four neighbours of the seeds.

use vstd::prelude::*;
use crate::field::{
    at_most, below, held_at, highest_index, lemma_highest_index, lemma_relaxing_begins,
    lemma_relaxing_ends, lemma_relaxing_visit, lemma_total_bound, lemma_total_update, near_seed,
    relaxed, relaxing, stable_at, total,
};
use crate::grid::{lemma_cell_index, lemma_write_cell, Grid};
use crate::position::Position;

verus! {

/// The cell one step from `pos` in direction `(dx, dy)`, if it lies inside a
/// `width` x `height` rectangle; nothing otherwise.
pub open spec fn step_inside(pos: Position, dx: int, dy: int, width: int, height: int) -> Seq<
    Position,
> {
    if 0 <= pos.x + dx < width && 0 <= pos.y + dy < height {
        seq![Position { x: (pos.x + dx) as i32, y: (pos.y + dy) as i32 }]
    } else {
        Seq::empty()
    }
}

/// The neighbours of `pos` inside a `width` x `height` rectangle, in the fixed
/// order left, right, down, up.
pub open spec fn neighbors_in(pos: Position, width: int, height: int) -> Seq<Position> {
    step_inside(pos, -1, 0, width, height) + step_inside(pos, 1, 0, width, height) + step_inside(
        pos,
        0,
        1,
        width,
        height,
    ) + step_inside(pos, 0, -1, width, height)
}

/// The neighbours of a cell are exactly the cells of the rectangle that are
/// one step to its left, right, below or above it, each listed once.
pub proof fn lemma_neighbors_exact(pos: Position, width: int, height: int)
    requires
        width <= i32::MAX,
        height <= i32::MAX,
    ensures
        forall|q: Position|
            neighbors_in(pos, width, height).contains(q) <==> (0 <= q.x < width && 0 <= q.y
                < height && pos.adjacent(q)),
        neighbors_in(pos, width, height).no_duplicates(),
        neighbors_in(pos, width, height).len() <= 4,
{
    let l = step_inside(pos, -1, 0, width, height);
    let r = step_inside(pos, 1, 0, width, height);
    let d = step_inside(pos, 0, 1, width, height);
    let u = step_inside(pos, 0, -1, width, height);
    let n = neighbors_in(pos, width, height);
    assert(n == l + r + d + u);
    assert forall|q: Position| n.contains(q) implies (0 <= q.x < width && 0 <= q.y < height
        && pos.adjacent(q)) by {
        let i = choose|i: int| 0 <= i < n.len() && n[i] == q;
        assert(n[i] == q);
    }
    assert forall|q: Position|
        0 <= q.x < width && 0 <= q.y < height && pos.adjacent(q) implies n.contains(q) by {
        if q.y == pos.y && q.x == pos.x - 1 {
            assert(l[0] == q);
            assert(n[0] == q);
        } else if q.y == pos.y && q.x == pos.x + 1 {
            assert(r[0] == q);
            assert(n[l.len() as int] == q);
        } else if q.x == pos.x && q.y == pos.y + 1 {
            assert(d[0] == q);
            assert(n[(l.len() + r.len()) as int] == q);
        } else {
            assert(u[0] == q);
            assert(n[(l.len() + r.len() + d.len()) as int] == q);
        }
    }
    assert forall|i: int, j: int| 0 <= i < n.len() && 0 <= j < n.len() && i != j implies n[i]
        != n[j] by {
        // each direction contributes at most one cell, and the four differ
    }
}

/// The in-bounds cells among the left, right, lower and upper neighbour of
/// `pos`, in that order.
pub fn get_neighbors<T>(pos: Position, grid: &Grid<T>) -> (r: Vec<Position>)
    ensures
        r@ == neighbors_in(pos, grid.width as int, grid.height as int),
{
    let x: i64 = pos.x as i64;
    let y: i64 = pos.y as i64;
    let w: i64 = grid.width as i64;
    let h: i64 = grid.height as i64;
    let mut r: Vec<Position> = Vec::new();
    let row_ok = 0 <= y && y < h;
    let col_ok = 0 <= x && x < w;
    if row_ok && 0 <= x - 1 && x - 1 < w {
        r.push(Position { x: (x - 1) as i32, y: pos.y });
    }
    assert(r@ == step_inside(pos, -1, 0, w as int, h as int));
    if row_ok && 0 <= x + 1 && x + 1 < w {
        r.push(Position { x: (x + 1) as i32, y: pos.y });
    }
    assert(r@ == step_inside(pos, -1, 0, w as int, h as int) + step_inside(
        pos,
        1,
        0,
        w as int,
        h as int,
    ));
    if col_ok && 0 <= y + 1 && y + 1 < h {
        r.push(Position { x: pos.x, y: (y + 1) as i32 });
    }
    assert(r@ == step_inside(pos, -1, 0, w as int, h as int) + step_inside(
        pos,
        1,
        0,
        w as int,
        h as int,
    ) + step_inside(pos, 0, 1, w as int, h as int));
    if col_ok && 0 <= y - 1 && y - 1 < h {
        r.push(Position { x: pos.x, y: (y - 1) as i32 });
    }
    assert(r@ == neighbors_in(pos, w as int, h as int));
    r
}

/// `costs` tells what `cost` returns for every cell of a `width` x `height`
/// rectangle.
pub open spec fn agrees<F: Fn(Position) -> i32>(
    cost: F,
    costs: spec_fn(Position) -> int,
    width: int,
    height: int,
) -> bool {
    forall|p: Position, c: i32|
        p.within(width, height) && #[trigger] cost.ensures((p,), c) ==> c == costs(p)
}

/// The first of `cells` that holds the highest value among them, with that
/// value; nothing for an empty list.
fn highest_of(grid: &Grid<i32>, cells: &Vec<Position>) -> (r: Option<(Position, i32)>)
    requires
        grid.wf(),
        forall|j: int| 0 <= j < cells@.len() ==> grid.contains(#[trigger] cells@[j]),
    ensures
        cells@.len() == 0 ==> r is None,
        cells@.len() > 0 ==> r == Some(
            (
                cells@[highest_index(*grid, cells@)],
                grid.cell(cells@[highest_index(*grid, cells@)]),
            ),
        ),
{
    if cells.len() == 0 {
        return None;
    }
    let mut best: Position = cells[0];
    let mut best_value: i32 = *grid.get(best.x, best.y);
    let mut i: usize = 1;
    assert(cells@.take(1).len() == 1);
    while i < cells.len()
        invariant
            1 <= i <= cells@.len(),
            grid.wf(),
            forall|j: int| 0 <= j < cells@.len() ==> grid.contains(#[trigger] cells@[j]),
            0 <= highest_index(*grid, cells@.take(i as int)) < i,
            best == cells@[highest_index(*grid, cells@.take(i as int))],
            best_value == grid.cell(best),
        decreases cells@.len() - i,
    {
        let q = cells[i];
        let v: i32 = *grid.get(q.x, q.y);
        proof {
            let longer = cells@.take(i + 1);
            assert(longer.drop_last() =~= cells@.take(i as int));
            assert(longer.last() == q);
            assert(longer[highest_index(*grid, cells@.take(i as int))] == best);
        }
        if v > best_value {
            best = q;
            best_value = v;
        }
        i = i + 1;
    }
    assert(cells@.take(cells@.len() as int) =~= cells@);
    Some((best, best_value))
}

/// Relaxes the field `grid` from the cells of `seed`.
///
/// The neighbours of the seeds are visited first. A visited cell whose best
/// neighbour exceeds its own value by more than the cost of the cell rises to
/// the neighbour's value minus that cost, and each of its neighbours that this
/// unsettles is visited later. This goes on until nothing is left to visit.
///
/// The costs must not be negative. No cell falls, no cell rises above the
/// highest value that the field held before, and for every function `costs`
/// that tells what `cost` returns, the field is `relaxed`: it is the least
/// field that covers the field it was before.
pub fn dijkstra<F: Fn(Position) -> i32>(grid: &mut Grid<i32>, seed: &[Position], cost: F)
    requires
        old(grid).wf(),
        forall|p: Position| #[trigger] old(grid).contains(p) ==> cost.requires((p,)),
        forall|p: Position, c: i32| old(grid).contains(p) && cost.ensures((p,), c) ==> 0 <= c,
    ensures
        final(grid).wf(),
        final(grid).same_shape(old(grid)),
        below(*old(grid), *final(grid)),
        forall|bound: int| #[trigger] at_most(*old(grid), bound) ==> at_most(*final(grid), bound),
        forall|costs: spec_fn(Position) -> int|
            #[trigger] agrees(cost, costs, old(grid).width as int, old(grid).height as int)
                ==> relaxed(*old(grid), *final(grid), seed@, costs),
{
    let ghost start = *grid;
    let ghost w = grid.width as int;
    let ghost h = grid.height as int;
    let mut next: Vec<Position> = Vec::new();
    let mut s: usize = 0;
    while s < seed.len()
        invariant
            0 <= s <= seed@.len(),
            *grid == start,
            w == start.width,
            h == start.height,
            forall|k: int| 0 <= k < next@.len() ==> (#[trigger] next@[k]).within(w, h),
            forall|j: int, q: Position|
                #![trigger seed@[j].adjacent(q)]
                0 <= j < s && q.within(w, h) && seed@[j].adjacent(q) ==> next@.contains(q),
            forall|q: Position| next@.contains(q) ==> near_seed(q, seed@),
        decreases seed@.len() - s,
    {
        let mut around = get_neighbors(seed[s], grid);
        let ghost earlier = next@;
        proof {
            lemma_neighbors_exact(seed@[s as int], w, h);
        }
        next.append(&mut around);
        proof {
            let added = neighbors_in(seed@[s as int], w, h);
            assert(next@ == earlier + added);
            assert forall|k: int| 0 <= k < next@.len() implies (#[trigger] next@[k]).within(
                w,
                h,
            ) by {
                if k >= earlier.len() {
                    assert(added.contains(added[k - earlier.len()]));
                }
            }
            assert forall|q: Position| next@.contains(q) implies near_seed(q, seed@) by {
                let k = choose|k: int| 0 <= k < next@.len() && next@[k] == q;
                if k < earlier.len() {
                    assert(earlier.contains(earlier[k]));
                } else {
                    assert(added.contains(added[k - earlier.len()]));
                    assert(seed@[s as int].adjacent(q));
                }
            }
            assert forall|j: int, q: Position|
                #![trigger seed@[j].adjacent(q)]
                0 <= j < s + 1 && q.within(w, h) && seed@[j].adjacent(q) implies next@.contains(
                q,
            ) by {
                if j < s {
                    assert(earlier.contains(q));
                    let k = choose|k: int| 0 <= k < earlier.len() && earlier[k] == q;
                    assert(next@[k] == q);
                } else {
                    assert(added.contains(q));
                    let k = choose|k: int| 0 <= k < added.len() && added[k] == q;
                    assert(next@[earlier.len() + k] == q);
                }
            }
        }
        s = s + 1;
    }
    proof {
        assert forall|costs: spec_fn(Position) -> int| #[trigger] agrees(cost, costs, w, h) implies relaxing(
            start,
            *grid,
            next@,
            seed@,
            costs,
        ) by {
            lemma_relaxing_begins(start, next@, seed@, costs);
        }
        lemma_total_bound(grid.data@);
    }
    while next.len() > 0
        invariant
            grid.wf(),
            start.wf(),
            grid.same_shape(&start),
            w == start.width,
            h == start.height,
            forall|p: Position| #[trigger] start.contains(p) ==> cost.requires((p,)),
            forall|p: Position, c: i32| start.contains(p) && cost.ensures((p,), c) ==> 0 <= c,
            forall|k: int| 0 <= k < next@.len() ==> (#[trigger] next@[k]).within(w, h),
            below(start, *grid),
            forall|bound: int| #[trigger] at_most(start, bound) ==> at_most(*grid, bound),
            forall|costs: spec_fn(Position) -> int| #[trigger]
                agrees(cost, costs, w, h) ==> relaxing(start, *grid, next@, seed@, costs),
            total(grid.data@) <= grid.data@.len() * i32::MAX,
        decreases grid.data@.len() * i32::MAX - total(grid.data@), next@.len(),
    {
        let batch = next;
        next = Vec::new();
        let ghost entry = *grid;
        let ghost mut raised = false;
        let mut i: usize = 0;
        proof {
            assert(batch@.skip(0) + next@ =~= batch@);
        }
        while i < batch.len()
            invariant
                0 <= i <= batch@.len(),
                grid.wf(),
                start.wf(),
                grid.same_shape(&start),
                entry.data@.len() == grid.data@.len(),
                w == start.width,
                h == start.height,
                forall|p: Position| #[trigger] start.contains(p) ==> cost.requires((p,)),
                forall|p: Position, c: i32| start.contains(p) && cost.ensures((p,), c) ==> 0 <= c,
                forall|k: int| 0 <= k < batch@.len() ==> (#[trigger] batch@[k]).within(w, h),
                forall|k: int| 0 <= k < next@.len() ==> (#[trigger] next@[k]).within(w, h),
                below(start, *grid),
                forall|bound: int| #[trigger] at_most(start, bound) ==> at_most(*grid, bound),
                forall|costs: spec_fn(Position) -> int| #[trigger]
                    agrees(cost, costs, w, h) ==> relaxing(
                        start,
                        *grid,
                        batch@.skip(i as int) + next@,
                        seed@,
                        costs,
                    ),
                total(grid.data@) <= grid.data@.len() * i32::MAX,
                raised ==> total(grid.data@) > total(entry.data@),
                !raised ==> total(grid.data@) == total(entry.data@) && next@.len() == 0,
            decreases batch@.len() - i,
        {
            let p = batch[i];
            let ghost before = *grid;
            let ghost waiting = batch@.skip(i as int) + next@;
            let ghost queued = next@;
            let around = get_neighbors(p, grid);
            proof {
                lemma_neighbors_exact(p, w, h);
                assert forall|j: int| 0 <= j < around@.len() implies grid.contains(
                    #[trigger] around@[j],
                ) by {
                    assert(around@.contains(around@[j]));
                }
                if around@.len() > 0 {
                    lemma_highest_index(*grid, around@);
                }
            }
            let ghost mut asked: Seq<int> = Seq::empty();
            let ghost mut own: int = 0;
            let ghost mut rose = false;
            if let Some((_, neighbor_max)) = highest_of(grid, &around) {
                let v: i32 = *grid.get(p.x, p.y);
                assert(start.contains(p));
                let c: i32 = cost(p);
                proof {
                    own = c as int;
                }
                if neighbor_max as i64 > v as i64 + c as i64 {
                    let new_val: i32 = (neighbor_max as i64 - c as i64) as i32;
                    *grid.get_mut(p.x, p.y) = new_val;
                    proof {
                        rose = true;
                        raised = true;
                        lemma_cell_index(w, h, p.x as int, p.y as int);
                        lemma_write_cell(before, *grid, p.x as int, p.y as int, new_val);
                        lemma_total_update(before.data@, p.x + p.y * before.width, new_val);
                        lemma_total_bound(grid.data@);
                    }
                    let mut k: usize = 0;
                    while k < around.len()
                        invariant
                            0 <= k <= around@.len(),
                            grid.wf(),
                            grid.same_shape(&start),
                            w == start.width,
                            h == start.height,
                            around@ == neighbors_in(p, w, h),
                            forall|p: Position| #[trigger] start.contains(p) ==> cost.requires((p,)),
                            forall|j: int|
                                0 <= j < around@.len() ==> (#[trigger] around@[j]).within(w, h),
                            forall|j: int| 0 <= j < next@.len() ==> (#[trigger] next@[j]).within(w, h),
                            asked.len() == k,
                            forall|j: int|
                                0 <= j < k ==> cost.ensures((around@[j],), #[trigger] asked[j] as i32)
                                    && i32::MIN <= asked[j] <= i32::MAX,
                            forall|j: int|
                                0 <= j < k && grid.cell(around@[j]) + #[trigger] asked[j] < new_val
                                    ==> next@.contains(around@[j]),
                            forall|q: Position| queued.contains(q) ==> next@.contains(q),
                            forall|q: Position|
                                next@.contains(q) ==> queued.contains(q) || exists|j: int|
                                    0 <= j < k && q == around@[j] && grid.cell(around@[j])
                                        + #[trigger] asked[j] < new_val,
                            next@.len() >= queued.len(),
                        decreases around@.len() - k,
                    {
                        let q = around[k];
                        assert(start.contains(q));
                        let cq: i32 = cost(q);
                        let ghost listed = next@;
                        if (*grid.get(q.x, q.y) as i64) < new_val as i64 - cq as i64 {
                            next.push(q);
                        }
                        proof {
                            let ghost answers = asked;
                            asked = asked.push(cq as int);
                            assert forall|r: Position| listed.contains(r) implies next@.contains(
                                r,
                            ) by {
                                let j = choose|j: int| 0 <= j < listed.len() && listed[j] == r;
                                assert(next@[j] == r);
                            }
                            if grid.cell(q) + cq < new_val {
                                assert(next@[next@.len() - 1] == q);
                            }
                            assert forall|r: Position| next@.contains(r) implies queued.contains(r)
                                || exists|j: int|
                                0 <= j < k + 1 && r == around@[j] && grid.cell(around@[j])
                                    + #[trigger] asked[j] < new_val by {
                                let n = choose|n: int| 0 <= n < next@.len() && next@[n] == r;
                                if n < listed.len() {
                                    assert(listed[n] == r);
                                    assert(listed.contains(r));
                                    if !queued.contains(r) {
                                        let j = choose|j: int|
                                            0 <= j < k && r == around@[j] && grid.cell(around@[j])
                                                + #[trigger] answers[j] < new_val;
                                        assert(asked[j] == answers[j]);
                                    }
                                } else {
                                    assert(r == around@[k as int]);
                                    assert(grid.cell(around@[k as int]) + asked[k as int]
                                        < new_val);
                                }
                            }
                        }
                        k = k + 1;
                    }
                }
            }
            proof {
                let rest = batch@.skip(i + 1) + next@;
                assert forall|q: Position| waiting.contains(q) && q != p implies rest.contains(
                    q,
                ) by {
                    let j = choose|j: int| 0 <= j < waiting.len() && waiting[j] == q;
                    let ahead = batch@.skip(i as int);
                    if j < ahead.len() {
                        assert(ahead[j] == batch@[i + j]);
                        assert(j > 0);
                        assert(rest[j - 1] == q);
                    } else {
                        assert(queued.contains(queued[j - ahead.len()]));
                        let m = choose|m: int| 0 <= m < next@.len() && next@[m] == q;
                        assert(rest[batch@.skip(i + 1).len() + m] == q);
                    }
                }
                assert forall|q: Position|
                    #![trigger q.within(w, h)]
                    q.within(w, h) && q != p implies grid.cell(q) == before.cell(q) by {}
                assert(below(start, *grid)) by {
                    assert(below(start, before));
                    assert forall|q: Position|
                        #![trigger q.within(start.width as int, start.height as int)]
                        q.within(start.width as int, start.height as int) implies start.cell(q)
                        <= grid.cell(q) by {
                        assert(q.within(w, h));
                    }
                }
                assert forall|bound: int| #[trigger] at_most(start, bound) implies at_most(
                    *grid,
                    bound,
                ) by {
                    assert(at_most(before, bound));
                    assert forall|q: Position|
                        #![trigger q.within(grid.width as int, grid.height as int)]
                        q.within(grid.width as int, grid.height as int) implies grid.cell(q)
                        <= bound by {
                        assert(q.within(before.width as int, before.height as int));
                        if q == p && rose {
                            let top = around@[highest_index(before, around@)];
                            assert(top.within(before.width as int, before.height as int));
                        }
                    }
                }
                assert forall|costs: spec_fn(Position) -> int| #[trigger]
                    agrees(cost, costs, w, h) implies relaxing(start, *grid, rest, seed@, costs) by {
                    assert(relaxing(start, before, waiting, seed@, costs));
                    assert(waiting[0] == p);
                    if around@.len() > 0 {
                        assert(costs(p) == own);
                        let top = around@[highest_index(before, around@)];
                        if rose {
                            assert(stable_at(*grid, p, costs(p))) by {
                                assert forall|q: Position|
                                    #![trigger q.within(grid.width as int, grid.height as int)]
                                    q.within(grid.width as int, grid.height as int) && p.adjacent(
                                        q,
                                    ) implies grid.cell(q) <= grid.cell(p) + costs(p) by {
                                    assert(q.within(w, h));
                                    assert(around@.contains(q));
                                }
                            }
                            assert(held_at(*grid, p, costs(p))) by {
                                assert(around@.contains(top));
                                assert(top.within(grid.width as int, grid.height as int)
                                    && p.adjacent(top) && grid.cell(p) == grid.cell(top) - costs(
                                    p,
                                ));
                            }
                            assert forall|q: Position|
                                #![trigger q.within(w, h)]
                                q.within(w, h) && p.adjacent(q) && grid.cell(q) + costs(q)
                                    < grid.cell(p) implies rest.contains(q) by {
                                assert(around@.contains(q));
                                let j = choose|j: int| 0 <= j < around@.len() && around@[j] == q;
                                assert(cost.ensures((around@[j],), asked[j] as i32));
                                assert(costs(q) == asked[j]);
                                assert(next@.contains(q));
                                let m = choose|m: int| 0 <= m < next@.len() && next@[m] == q;
                                assert(rest[batch@.skip(i + 1).len() + m] == q);
                            }
                        } else {
                            assert(stable_at(before, p, costs(p))) by {
                                assert forall|q: Position|
                                    #![trigger q.within(before.width as int, before.height as int)]
                                    q.within(before.width as int, before.height as int)
                                        && p.adjacent(q) implies before.cell(q) <= before.cell(p)
                                    + costs(p) by {
                                    assert(q.within(w, h));
                                    assert(around@.contains(q));
                                }
                            }
                        }
                    } else {
                        assert(stable_at(before, p, costs(p))) by {
                            assert forall|q: Position|
                                #![trigger q.within(before.width as int, before.height as int)]
                                q.within(before.width as int, before.height as int) && p.adjacent(
                                    q,
                                ) implies before.cell(q) <= before.cell(p) + costs(p) by {
                                assert(q.within(w, h));
                                assert(around@.contains(q));
                            }
                        }
                    }
                    assert forall|q: Position| rest.contains(q) implies waiting.contains(q) || (
                    grid.cell(p) > before.cell(p) && q.within(w, h) && p.adjacent(q) && grid.cell(q)
                        + costs(q) < grid.cell(p)) by {
                        let n = choose|n: int| 0 <= n < rest.len() && rest[n] == q;
                        let ahead = batch@.skip(i + 1);
                        if n < ahead.len() {
                            assert(waiting[n + 1] == q);
                        } else {
                            assert(next@[n - ahead.len()] == q);
                            assert(next@.contains(q));
                            if queued.contains(q) {
                                let m = choose|m: int| 0 <= m < queued.len() && queued[m] == q;
                                assert(waiting[batch@.skip(i as int).len() + m] == q);
                            } else {
                                assert(rose);
                                let j = choose|j: int|
                                    0 <= j < around@.len() && q == around@[j] && grid.cell(
                                        around@[j],
                                    ) + #[trigger] asked[j] < grid.cell(p);
                                assert(around@.contains(around@[j]));
                                assert(cost.ensures((around@[j],), asked[j] as i32));
                                assert(costs(q) == asked[j]);
                            }
                        }
                    }
                    lemma_relaxing_visit(start, before, *grid, waiting, rest, seed@, costs, p);
                }
            }
            i = i + 1;
        }
        proof {
            assert(batch@.skip(batch@.len() as int) + next@ =~= next@);
        }
    }
    proof {
        assert(next@ =~= Seq::<Position>::empty());
        assert forall|costs: spec_fn(Position) -> int| #[trigger]
            agrees(cost, costs, w, h) implies relaxed(start, *grid, seed@, costs) by {
            lemma_relaxing_ends(start, *grid, seed@, costs);
        }
    }
}

/// Where a climb goes from `p`: to the first of its neighbours that holds
/// the highest value among them, if that value exceeds the value at `p`.
pub open spec fn climb_step(g: Grid<i32>, p: Position) -> Option<Position> {
    let around = neighbors_in(p, g.width as int, g.height as int);
    if around.len() == 0 {
        None
    } else {
        let q = around[highest_index(g, around)];
        if g.cell(q) > g.cell(p) {
            Some(q)
        } else {
            None
        }
    }
}

/// The cells of a climb that starts at `p` and goes on for as long as a
/// neighbour holds more than the cell it has reached.
pub open spec fn climb(g: Grid<i32>, p: Position) -> Seq<Position>
    decreases i32::MAX - g.cell(p),
{
    match climb_step(g, p) {
        Some(q) => seq![p] + climb(g, q),
        None => seq![p],
    }
}

/// The path that `dijkstra_path` returns: empty when `start` lies outside the
/// grid or holds no positive value, else the climb from `start`.
pub open spec fn path_from(g: Grid<i32>, start: Position) -> Seq<Position> {
    if g.contains(start) && g.cell(start) > 0 {
        climb(g, start)
    } else {
        Seq::empty()
    }
}

/// The path from `start` that follows rising values up to a local maximum.
///
/// Each step goes to the neighbour with the highest value, the first of them
/// in the order left, right, down, up where several hold it, and is taken only
/// if that value exceeds the value of the cell reached so far.
pub fn dijkstra_path(grid: &Grid<i32>, start: Position) -> (path: Vec<Position>)
    requires
        grid.wf(),
    ensures
        path@ == path_from(*grid, start),
{
    let mut path: Vec<Position> = Vec::new();
    if start.x < 0 || start.y < 0 || start.x >= grid.width || start.y >= grid.height {
        return path;
    }
    let mut pos = start;
    let mut v: i32 = *grid.get(pos.x, pos.y);
    if v <= 0 {
        return path;
    }
    path.push(start);
    let mut climbing = true;
    proof {
        assert(path@.drop_last() + climb(*grid, pos) =~= climb(*grid, start));
    }
    while climbing
        invariant
            grid.wf(),
            grid.contains(pos),
            v == grid.cell(pos),
            path@.len() > 0,
            path@.last() == pos,
            climbing ==> path_from(*grid, start) == path@.drop_last() + climb(*grid, pos),
            !climbing ==> path@ == path_from(*grid, start),
        decreases i32::MAX - v + (if climbing { 1int } else { 0int }),
    {
        let around = get_neighbors(pos, grid);
        let ghost walked = path@;
        proof {
            lemma_neighbors_exact(pos, grid.width as int, grid.height as int);
            assert forall|j: int| 0 <= j < around@.len() implies grid.contains(
                #[trigger] around@[j],
            ) by {
                assert(around@.contains(around@[j]));
            }
            if around@.len() > 0 {
                lemma_highest_index(*grid, around@);
            }
        }
        climbing = false;
        if let Some((npos, nv)) = highest_of(grid, &around) {
            if nv > v {
                path.push(npos);
                pos = npos;
                v = nv;
                climbing = true;
                proof {
                    assert(path@.drop_last() =~= walked);
                    assert(walked =~= walked.drop_last() + seq![walked.last()]);
                    assert(path@.drop_last() + climb(*grid, pos) =~= walked.drop_last() + (
                    seq![walked.last()] + climb(*grid, pos)));
                }
            }
        }
        proof {
            if !climbing {
                assert(walked.drop_last() + seq![walked.last()] =~= walked);
            }
        }
    }
    path
}

/// No neighbour of `p` holds more than `p` does.
pub open spec fn is_peak(g: Grid<i32>, p: Position) -> bool {
    forall|q: Position|
        #![trigger q.within(g.width as int, g.height as int)]
        q.within(g.width as int, g.height as int) && p.adjacent(q) ==> g.cell(q) <= g.cell(p)
}

/// A climb steps to a neighbour inside the grid that holds more than the cell
/// it leaves and no less than any other neighbour; it stops only on a peak.
pub proof fn lemma_climb_step(g: Grid<i32>, p: Position)
    requires
        g.wf(),
    ensures
        match climb_step(g, p) {
            Some(q) => {
                &&& g.contains(q)
                &&& p.adjacent(q)
                &&& g.cell(q) > g.cell(p)
                &&& forall|r: Position|
                    #![trigger r.within(g.width as int, g.height as int)]
                    r.within(g.width as int, g.height as int) && p.adjacent(r) ==> g.cell(r)
                        <= g.cell(q)
            },
            None => is_peak(g, p),
        },
{
    let w = g.width as int;
    let h = g.height as int;
    let around = neighbors_in(p, w, h);
    lemma_neighbors_exact(p, w, h);
    if around.len() > 0 {
        lemma_highest_index(g, around);
        let q = around[highest_index(g, around)];
        assert(around.contains(q));
        assert forall|r: Position| #![trigger r.within(w, h)] r.within(w, h) && p.adjacent(
            r,
        ) implies g.cell(r) <= g.cell(q) by {
            assert(around.contains(r));
        }
    } else {
        assert forall|r: Position| #![trigger r.within(w, h)] r.within(w, h) && p.adjacent(
            r,
        ) implies g.cell(r) <= g.cell(p) by {
            assert(around.contains(r));
        }
    }
}

/// A climb starts at its first cell, stays inside the grid, moves between
/// neighbours to ever higher values by the steps of `climb_step`, and ends on
/// a peak.
pub proof fn lemma_climb(g: Grid<i32>, p: Position)
    requires
        g.wf(),
        g.contains(p),
    ensures
        climb(g, p).len() > 0,
        climb(g, p)[0] == p,
        forall|i: int| 0 <= i < climb(g, p).len() ==> g.contains(#[trigger] climb(g, p)[i]),
        forall|i: int|
            #![trigger climb(g, p)[i]]
            0 <= i < climb(g, p).len() - 1 ==> {
                &&& climb(g, p)[i].adjacent(climb(g, p)[i + 1])
                &&& g.cell(climb(g, p)[i]) < g.cell(climb(g, p)[i + 1])
                &&& climb_step(g, climb(g, p)[i]) == Some(climb(g, p)[i + 1])
            },
        is_peak(g, climb(g, p).last()),
    decreases i32::MAX - g.cell(p),
{
    lemma_climb_step(g, p);
    match climb_step(g, p) {
        Some(q) => {
            lemma_climb(g, q);
            let rest = climb(g, q);
            let all = climb(g, p);
            assert(all == seq![p] + rest);
            assert forall|i: int| 0 <= i < all.len() implies g.contains(#[trigger] all[i]) by {
                if i > 0 {
                    assert(all[i] == rest[i - 1]);
                }
            }
            assert forall|i: int| #![trigger all[i]] 0 <= i < all.len() - 1 implies {
                &&& all[i].adjacent(all[i + 1])
                &&& g.cell(all[i]) < g.cell(all[i + 1])
                &&& climb_step(g, all[i]) == Some(all[i + 1])
            } by {
                assert(all[i + 1] == rest[i]);
                if i > 0 {
                    assert(all[i] == rest[i - 1]);
                }
            }
            assert(all.last() == rest.last());
        },
        None => {},
    }
}

/// The path is empty exactly for a start outside the grid or without a
/// positive value. Otherwise it begins at the start, moves between
/// neighbouring cells to ever higher values, and ends on a peak.
pub proof fn lemma_path_rises(g: Grid<i32>, start: Position)
    requires
        g.wf(),
    ensures
        path_from(g, start).len() == 0 <==> !(g.contains(start) && g.cell(start) > 0),
        path_from(g, start).len() > 0 ==> path_from(g, start)[0] == start && is_peak(
            g,
            path_from(g, start).last(),
        ),
        forall|i: int|
            0 <= i < path_from(g, start).len() ==> g.contains(#[trigger] path_from(g, start)[i]),
        forall|i: int|
            #![trigger path_from(g, start)[i]]
            0 <= i < path_from(g, start).len() - 1 ==> {
                &&& path_from(g, start)[i].adjacent(path_from(g, start)[i + 1])
                &&& g.cell(path_from(g, start)[i]) < g.cell(path_from(g, start)[i + 1])
            },
{
    if g.contains(start) && g.cell(start) > 0 {
        lemma_climb(g, start);
    }
}

/// In a field with a single peak, the path from any cell of positive value
/// ends on that peak.
pub proof fn lemma_path_reaches_peak(g: Grid<i32>, start: Position, peak: Position)
    requires
        g.wf(),
        g.contains(start),
        g.cell(start) > 0,
        forall|p: Position|
            #![trigger p.within(g.width as int, g.height as int)]
            p.within(g.width as int, g.height as int) && is_peak(g, p) ==> p == peak,
    ensures
        path_from(g, start).len() > 0,
        path_from(g, start).last() == peak,
{
    lemma_climb(g, start);
    let c = climb(g, start);
    assert(g.contains(c[c.len() - 1]));
}

} // verus!
