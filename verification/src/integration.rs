//! Grid of cumulative minimal entry costs from every cell to a goal,
//! computed by FIFO wavefront relaxation over orthogonal steps.

use std::collections::VecDeque;
use vstd::prelude::*;

use crate::cost::CostField;
use crate::grid::{
    cost_at, in_bounds, lemma_grid_size, lemma_neighbour_list_iff, lemma_row_major_index,
    lemma_row_major_injective, ortho_adjacent, ortho_neighbour_list, value_of, SENTINEL,
};
use crate::paths::{
    is_integration_value, lemma_integration_value_unique, lemma_path_extend, lemma_path_shrink,
    lemma_singleton_path, path_cost, reachable_with_cost, valid_path,
};

verus! {

/// One queued unit of propagation work: a cell and the cumulative cost of
/// the path along which it was reached, *before* entering the cell itself.
#[derive(Clone, Copy)]
pub struct TodoItem {
    x: u16,
    y: u16,
    pub cost: u16,
}

impl TodoItem {
    pub closed spec fn spec_x(&self) -> int {
        self.x as int
    }

    pub closed spec fn spec_y(&self) -> int {
        self.y as int
    }

    pub closed spec fn spec_cost(&self) -> u16 {
        self.cost
    }

    #[inline(always)]
    pub fn new(x: usize, y: usize, cost: u16) -> (r: TodoItem)
        requires
            x <= u16::MAX,
            y <= u16::MAX,
        ensures
            r.spec_x() == x,
            r.spec_y() == y,
            r.spec_cost() == cost,
    {
        TodoItem { x: x as u16, y: y as u16, cost }
    }

    #[inline(always)]
    pub fn x(&self) -> (r: usize)
        ensures
            r == self.spec_x(),
    {
        self.x as usize
    }

    #[inline(always)]
    pub fn y(&self) -> (r: usize)
        ensures
            r == self.spec_y(),
    {
        self.y as usize
    }
}

/// The sum of all stored values, the measure that every successful
/// relaxation strictly decreases.
pub open spec fn sum_values(s: Seq<u16>) -> int
    decreases s.len(),
{
    if s.len() == 0 {
        0
    } else {
        sum_values(s.drop_last()) + s.last()
    }
}

pub proof fn lemma_sum_values_nonneg(s: Seq<u16>)
    ensures
        sum_values(s) >= 0,
    decreases s.len(),
{
    if s.len() > 0 {
        lemma_sum_values_nonneg(s.drop_last());
    }
}

pub proof fn lemma_sum_values_update(s: Seq<u16>, i: int, v: u16)
    requires
        0 <= i < s.len(),
    ensures
        sum_values(s.update(i, v)) == sum_values(s) - s[i] + v,
    decreases s.len(),
{
    let t = s.update(i, v);
    assert(t.len() == s.len());
    if i == s.len() - 1 {
        assert(t.drop_last() =~= s.drop_last());
        assert(t.last() == v);
    } else {
        assert(t.drop_last() =~= s.drop_last().update(i, v));
        lemma_sum_values_update(s.drop_last(), i, v);
        assert(t.last() == s.last());
    }
}

/// A queued item lies in bounds and its total (base cost plus the entry
/// cost of its cell) is realized by some path from the goal.
pub open spec fn item_sound(
    costs: Seq<u8>,
    w: int,
    h: int,
    goal: (int, int),
    it: TodoItem,
) -> bool {
    &&& in_bounds(w, h, (it.spec_x(), it.spec_y()))
    &&& reachable_with_cost(
        costs,
        w,
        h,
        goal,
        (it.spec_x(), it.spec_y()),
        it.spec_cost() + cost_at(costs, w, (it.spec_x(), it.spec_y())),
    )
}

pub open spec fn queue_items_sound(
    costs: Seq<u8>,
    w: int,
    h: int,
    goal: (int, int),
    q: Seq<TodoItem>,
) -> bool {
    forall|i: int| 0 <= i < q.len() ==> item_sound(costs, w, h, goal, #[trigger] q[i])
}

/// Every finite stored value is realized by some path from the goal.
pub open spec fn values_sound(
    costs: Seq<u8>,
    w: int,
    h: int,
    goal: (int, int),
    vals: Seq<u16>,
) -> bool {
    forall|c: (int, int)|
        in_bounds(w, h, c) && #[trigger] value_of(vals, w, c) < SENTINEL ==> reachable_with_cost(
            costs,
            w,
            h,
            goal,
            c,
            value_of(vals, w, c),
        )
}

/// Some queued item sits on cell `c` with a base cost of at most `bound`.
pub open spec fn pending_item(q: Seq<TodoItem>, c: (int, int), bound: int) -> bool {
    exists|i: int|
        0 <= i < q.len() && (#[trigger] q[i]).spec_x() == c.0 && q[i].spec_y() == c.1
            && q[i].spec_cost() <= bound
}

/// Every orthogonal edge out of a settled cell is either already relaxed or
/// covered by a pending queue item.
pub open spec fn edges_relaxed_or_pending(
    costs: Seq<u8>,
    w: int,
    h: int,
    vals: Seq<u16>,
    q: Seq<TodoItem>,
) -> bool {
    forall|z: (int, int), n: (int, int)|
        in_bounds(w, h, z) && in_bounds(w, h, n) && #[trigger] ortho_adjacent(z, n) && value_of(
            vals,
            w,
            z,
        ) < SENTINEL ==> value_of(vals, w, n) <= value_of(vals, w, z) + cost_at(costs, w, n)
            || pending_item(q, n, value_of(vals, w, z))
}

/// Every orthogonal edge out of a settled cell is relaxed: the queue-free
/// form that holds once the work queue has drained.
pub open spec fn edges_relaxed(costs: Seq<u8>, w: int, h: int, vals: Seq<u16>) -> bool {
    forall|z: (int, int), n: (int, int)|
        in_bounds(w, h, z) && in_bounds(w, h, n) && #[trigger] ortho_adjacent(z, n) && value_of(
            vals,
            w,
            z,
        ) < SENTINEL ==> value_of(vals, w, n) <= value_of(vals, w, z) + cost_at(costs, w, n)
}

/// The goal either already holds at most its own entry cost, or the item
/// that seeds the propagation is still queued.
pub open spec fn goal_settled_or_pending(
    costs: Seq<u8>,
    w: int,
    vals: Seq<u16>,
    goal: (int, int),
    q: Seq<TodoItem>,
) -> bool {
    value_of(vals, w, goal) <= cost_at(costs, w, goal) || pending_item(q, goal, 0)
}

/// Once every edge is relaxed and the goal is settled, every path's cost
/// bounds the stored value of the cell it reaches: walk the path cell by
/// cell, each step already relaxed.
pub proof fn lemma_paths_relaxed(
    costs: Seq<u8>,
    w: int,
    h: int,
    goal: (int, int),
    vals: Seq<u16>,
    p: Seq<(int, int)>,
)
    requires
        in_bounds(w, h, goal),
        value_of(vals, w, goal) <= cost_at(costs, w, goal),
        edges_relaxed(costs, w, h, vals),
        valid_path(w, h, goal, p),
        path_cost(costs, w, p) < SENTINEL,
    ensures
        value_of(vals, w, p.last()) <= path_cost(costs, w, p),
    decreases p.len(),
{
    if p.len() == 1 {
        assert(p.last() == goal);
        assert(p.drop_last() =~= Seq::<(int, int)>::empty());
        assert(path_cost(costs, w, Seq::<(int, int)>::empty()) == 0);
        assert(path_cost(costs, w, p) == path_cost(costs, w, p.drop_last()) + cost_at(
            costs,
            w,
            p.last(),
        ));
    } else {
        lemma_path_shrink(costs, w, h, goal, p);
        let q = p.drop_last();
        lemma_paths_relaxed(costs, w, h, goal, vals, q);
        assert(value_of(vals, w, q.last()) < SENTINEL);
        assert(ortho_adjacent(q.last(), p.last()));
        assert(in_bounds(w, h, p.last()));
        assert(value_of(vals, w, p.last()) <= value_of(vals, w, q.last()) + cost_at(
            costs,
            w,
            p.last(),
        ));
    }
}

/// The queue left after popping the head item and pushing one new item per
/// orthogonal neighbour of the relaxed cell, each carrying the new value.
pub open spec fn step_queue_shape(
    prev_q: Seq<TodoItem>,
    q2: Seq<TodoItem>,
    nb: Seq<(usize, usize)>,
    new_cost: u16,
) -> bool {
    &&& q2.len() == prev_q.len() - 1 + nb.len()
    &&& forall|k: int| 0 <= k < prev_q.len() - 1 ==> #[trigger] q2[k] == prev_q[k + 1]
    &&& forall|k: int|
        0 <= k < nb.len() ==> {
            &&& (#[trigger] q2[prev_q.len() - 1 + k]).spec_x() == nb[k].0
            &&& q2[prev_q.len() - 1 + k].spec_y() == nb[k].1
            &&& q2[prev_q.len() - 1 + k].spec_cost() == new_cost
        }
}

/// `nb` holds exactly the in-bounds orthogonal neighbours of `t`.
pub open spec fn neighbour_cover(w: int, h: int, t: (int, int), nb: Seq<(usize, usize)>) -> bool {
    &&& forall|i: int|
        0 <= i < nb.len() ==> in_bounds(w, h, ((#[trigger] nb[i]).0 as int, nb[i].1 as int))
            && ortho_adjacent(t, (nb[i].0 as int, nb[i].1 as int))
    &&& forall|c: (int, int)|
        in_bounds(w, h, c) && #[trigger] ortho_adjacent(t, c) ==> exists|i: int|
            0 <= i < nb.len() && ((#[trigger] nb[i]).0 as int, nb[i].1 as int) == c
}

/// After a relaxation, every queued item still carries a realizable total:
/// surviving items keep their old witness paths, and each pushed item's
/// total is realized by the relaxed cell's witness path extended one step.
pub proof fn lemma_relax_items(
    costs: Seq<u8>,
    w: int,
    h: int,
    goal: (int, int),
    prev_q: Seq<TodoItem>,
    q2: Seq<TodoItem>,
    nb: Seq<(usize, usize)>,
    t: (int, int),
    new_cost: u16,
)
    requires
        prev_q.len() >= 1,
        queue_items_sound(costs, w, h, goal, prev_q),
        t == (prev_q[0].spec_x(), prev_q[0].spec_y()),
        new_cost == cost_at(costs, w, t) + prev_q[0].spec_cost(),
        neighbour_cover(w, h, t, nb),
        step_queue_shape(prev_q, q2, nb, new_cost),
    ensures
        queue_items_sound(costs, w, h, goal, q2),
{
    let base = prev_q.len() - 1;
    assert(item_sound(costs, w, h, goal, prev_q[0]));
    let p0 = choose|p: Seq<(int, int)>|
        #[trigger] valid_path(w, h, goal, p) && p.last() == t && path_cost(costs, w, p) == prev_q[0].spec_cost() + cost_at(costs, w, t);
    assert(path_cost(costs, w, p0) == new_cost);
    assert forall|j: int| 0 <= j < q2.len() implies item_sound(costs, w, h, goal, #[trigger] q2[j]) by {
        if j < base {
            assert(q2[j] == prev_q[j + 1]);
            assert(item_sound(costs, w, h, goal, prev_q[j + 1]));
        } else {
            let k = j - base;
            assert((#[trigger] q2[prev_q.len() - 1 + k]).spec_cost() == new_cost);
            let c = (nb[k].0 as int, nb[k].1 as int);
            assert(in_bounds(w, h, c) && ortho_adjacent(t, c));
            lemma_path_extend(costs, w, h, goal, p0, c);
            assert(valid_path(w, h, goal, p0.push(c)));
            assert(path_cost(costs, w, p0.push(c)) == q2[j].spec_cost() + cost_at(costs, w, c));
            assert(reachable_with_cost(
                costs,
                w,
                h,
                goal,
                c,
                q2[j].spec_cost() + cost_at(costs, w, c),
            ));
        }
    }
}

/// After a relaxation, every finite stored value is still realizable: the
/// relaxed cell got a realizable value and no other cell changed.
pub proof fn lemma_relax_values(
    costs: Seq<u8>,
    w: int,
    h: int,
    goal: (int, int),
    prev_vals: Seq<u16>,
    vals: Seq<u16>,
    t: (int, int),
    new_cost: u16,
)
    requires
        values_sound(costs, w, h, goal, prev_vals),
        prev_vals.len() == w * h,
        in_bounds(w, h, t),
        reachable_with_cost(costs, w, h, goal, t, new_cost as int),
        vals == prev_vals.update(t.1 * w + t.0, new_cost),
    ensures
        values_sound(costs, w, h, goal, vals),
{
    lemma_row_major_index(w, h, t.0, t.1);
    assert(value_of(vals, w, t) == new_cost);
    assert forall|c: (int, int)|
        in_bounds(w, h, c) && #[trigger] value_of(vals, w, c) < SENTINEL implies reachable_with_cost(
        costs,
        w,
        h,
        goal,
        c,
        value_of(vals, w, c),
    ) by {
        if c != t {
            lemma_row_major_index(w, h, c.0, c.1);
            if c.1 * w + c.0 == t.1 * w + t.0 {
                lemma_row_major_injective(w, c.0, c.1, t.0, t.1);
            }
            assert(value_of(vals, w, c) == value_of(prev_vals, w, c));
        }
    }
}

/// After a relaxation, every settled edge is still relaxed or pending: the
/// pushed items cover the relaxed cell's own edges, edges into the relaxed
/// cell only got cheaper, and the popped item's duty is discharged by the
/// new stored value.
#[verifier::rlimit(60)]
pub proof fn lemma_relax_edges(
    costs: Seq<u8>,
    w: int,
    h: int,
    prev_q: Seq<TodoItem>,
    prev_vals: Seq<u16>,
    vals: Seq<u16>,
    q2: Seq<TodoItem>,
    nb: Seq<(usize, usize)>,
    t: (int, int),
    new_cost: u16,
)
    requires
        prev_q.len() >= 1,
        edges_relaxed_or_pending(costs, w, h, prev_vals, prev_q),
        prev_vals.len() == w * h,
        t == (prev_q[0].spec_x(), prev_q[0].spec_y()),
        in_bounds(w, h, t),
        new_cost == cost_at(costs, w, t) + prev_q[0].spec_cost(),
        new_cost < value_of(prev_vals, w, t),
        vals == prev_vals.update(t.1 * w + t.0, new_cost),
        neighbour_cover(w, h, t, nb),
        step_queue_shape(prev_q, q2, nb, new_cost),
    ensures
        edges_relaxed_or_pending(costs, w, h, vals, q2),
{
    let base = prev_q.len() - 1;
    lemma_row_major_index(w, h, t.0, t.1);
    assert(value_of(vals, w, t) == new_cost);
    assert forall|z: (int, int), n: (int, int)|
        in_bounds(w, h, z) && in_bounds(w, h, n) && #[trigger] ortho_adjacent(z, n) && value_of(
            vals,
            w,
            z,
        ) < SENTINEL implies value_of(vals, w, n) <= value_of(vals, w, z) + cost_at(costs, w, n)
        || pending_item(q2, n, value_of(vals, w, z)) by {
        lemma_row_major_index(w, h, z.0, z.1);
        lemma_row_major_index(w, h, n.0, n.1);
        if z == t {
            let k = choose|k: int|
                0 <= k < nb.len() && ((#[trigger] nb[k]).0 as int, nb[k].1 as int) == n;
            assert(q2[base + k].spec_x() == n.0 && q2[base + k].spec_y() == n.1 && q2[base
                + k].spec_cost() == new_cost);
            assert(pending_item(q2, n, value_of(vals, w, z)));
        } else {
            if z.1 * w + z.0 == t.1 * w + t.0 {
                lemma_row_major_injective(w, z.0, z.1, t.0, t.1);
            }
            assert(value_of(vals, w, z) == value_of(prev_vals, w, z));
            if value_of(prev_vals, w, n) <= value_of(prev_vals, w, z) + cost_at(costs, w, n) {
                if n == t {
                    assert(value_of(vals, w, t) == new_cost);
                } else {
                    if n.1 * w + n.0 == t.1 * w + t.0 {
                        lemma_row_major_injective(w, n.0, n.1, t.0, t.1);
                    }
                    assert(value_of(vals, w, n) == value_of(prev_vals, w, n));
                }
            } else {
                assert(pending_item(prev_q, n, value_of(prev_vals, w, z)));
                let j = choose|j: int|
                    0 <= j < prev_q.len() && (#[trigger] prev_q[j]).spec_x() == n.0
                        && prev_q[j].spec_y() == n.1 && prev_q[j].spec_cost() <= value_of(
                        prev_vals,
                        w,
                        z,
                    );
                if j == 0 {
                    assert(n == t);
                    assert(value_of(vals, w, t) == new_cost);
                    assert(new_cost == cost_at(costs, w, t) + prev_q[0].spec_cost());
                } else {
                    assert(q2[j - 1] == prev_q[j]);
                    assert(pending_item(q2, n, value_of(vals, w, z)));
                }
            }
        }
    }
}

/// After a relaxation, the seed of the propagation is still accounted for.
pub proof fn lemma_relax_goal(
    costs: Seq<u8>,
    w: int,
    h: int,
    goal: (int, int),
    prev_q: Seq<TodoItem>,
    prev_vals: Seq<u16>,
    vals: Seq<u16>,
    q2: Seq<TodoItem>,
    nb: Seq<(usize, usize)>,
    t: (int, int),
    new_cost: u16,
)
    requires
        prev_q.len() >= 1,
        goal_settled_or_pending(costs, w, prev_vals, goal, prev_q),
        prev_vals.len() == w * h,
        in_bounds(w, h, goal),
        t == (prev_q[0].spec_x(), prev_q[0].spec_y()),
        in_bounds(w, h, t),
        new_cost == cost_at(costs, w, t) + prev_q[0].spec_cost(),
        new_cost < value_of(prev_vals, w, t),
        vals == prev_vals.update(t.1 * w + t.0, new_cost),
        step_queue_shape(prev_q, q2, nb, new_cost),
    ensures
        goal_settled_or_pending(costs, w, vals, goal, q2),
{
    lemma_row_major_index(w, h, t.0, t.1);
    lemma_row_major_index(w, h, goal.0, goal.1);
    assert(value_of(vals, w, t) == new_cost);
    if value_of(prev_vals, w, goal) <= cost_at(costs, w, goal) {
        if goal != t {
            if goal.1 * w + goal.0 == t.1 * w + t.0 {
                lemma_row_major_injective(w, goal.0, goal.1, t.0, t.1);
            }
            assert(value_of(vals, w, goal) == value_of(prev_vals, w, goal));
        }
    } else {
        let j = choose|j: int|
            0 <= j < prev_q.len() && (#[trigger] prev_q[j]).spec_x() == goal.0
                && prev_q[j].spec_y() == goal.1 && prev_q[j].spec_cost() <= 0;
        if j == 0 {
            assert(goal == t);
            assert(new_cost == cost_at(costs, w, t) + prev_q[0].spec_cost());
        } else {
            assert(q2[j - 1] == prev_q[j]);
            assert(pending_item(q2, goal, 0));
        }
    }
}

/// One relaxation step preserves every loop invariant of the propagation.
pub proof fn lemma_relax_step(
    costs: Seq<u8>,
    w: int,
    h: int,
    goal: (int, int),
    prev_q: Seq<TodoItem>,
    prev_vals: Seq<u16>,
    vals: Seq<u16>,
    q2: Seq<TodoItem>,
    nb: Seq<(usize, usize)>,
    t: (int, int),
    new_cost: u16,
)
    requires
        prev_q.len() >= 1,
        in_bounds(w, h, goal),
        queue_items_sound(costs, w, h, goal, prev_q),
        values_sound(costs, w, h, goal, prev_vals),
        edges_relaxed_or_pending(costs, w, h, prev_vals, prev_q),
        goal_settled_or_pending(costs, w, prev_vals, goal, prev_q),
        prev_vals.len() == w * h,
        t == (prev_q[0].spec_x(), prev_q[0].spec_y()),
        in_bounds(w, h, t),
        new_cost == cost_at(costs, w, t) + prev_q[0].spec_cost(),
        new_cost < value_of(prev_vals, w, t),
        vals == prev_vals.update(t.1 * w + t.0, new_cost),
        neighbour_cover(w, h, t, nb),
        step_queue_shape(prev_q, q2, nb, new_cost),
    ensures
        queue_items_sound(costs, w, h, goal, q2),
        values_sound(costs, w, h, goal, vals),
        edges_relaxed_or_pending(costs, w, h, vals, q2),
        goal_settled_or_pending(costs, w, vals, goal, q2),
{
    lemma_relax_items(costs, w, h, goal, prev_q, q2, nb, t, new_cost);
    assert(item_sound(costs, w, h, goal, prev_q[0]));
    assert(reachable_with_cost(costs, w, h, goal, t, new_cost as int));
    lemma_relax_values(costs, w, h, goal, prev_vals, vals, t, new_cost);
    lemma_relax_edges(costs, w, h, prev_q, prev_vals, vals, q2, nb, t, new_cost);
    lemma_relax_goal(costs, w, h, goal, prev_q, prev_vals, vals, q2, nb, t, new_cost);
}

/// Discarding a popped item that offers no improvement preserves every
/// loop invariant: the stored value already beats what the item offered.
#[verifier::rlimit(60)]
pub proof fn lemma_discard_step(
    costs: Seq<u8>,
    w: int,
    h: int,
    goal: (int, int),
    prev_q: Seq<TodoItem>,
    vals: Seq<u16>,
    q2: Seq<TodoItem>,
    t: (int, int),
    offered: int,
)
    requires
        prev_q.len() >= 1,
        queue_items_sound(costs, w, h, goal, prev_q),
        edges_relaxed_or_pending(costs, w, h, vals, prev_q),
        goal_settled_or_pending(costs, w, vals, goal, prev_q),
        t == (prev_q[0].spec_x(), prev_q[0].spec_y()),
        offered == cost_at(costs, w, t) + prev_q[0].spec_cost(),
        value_of(vals, w, t) <= offered,
        q2.len() == prev_q.len() - 1,
        forall|k: int| 0 <= k < q2.len() ==> #[trigger] q2[k] == prev_q[k + 1],
    ensures
        queue_items_sound(costs, w, h, goal, q2),
        edges_relaxed_or_pending(costs, w, h, vals, q2),
        goal_settled_or_pending(costs, w, vals, goal, q2),
{
    assert forall|j: int| 0 <= j < q2.len() implies item_sound(costs, w, h, goal, #[trigger] q2[j]) by {
        assert(q2[j] == prev_q[j + 1]);
        assert(item_sound(costs, w, h, goal, prev_q[j + 1]));
    }
    assert forall|z: (int, int), n: (int, int)|
        in_bounds(w, h, z) && in_bounds(w, h, n) && #[trigger] ortho_adjacent(z, n) && value_of(
            vals,
            w,
            z,
        ) < SENTINEL implies value_of(vals, w, n) <= value_of(vals, w, z) + cost_at(costs, w, n)
        || pending_item(q2, n, value_of(vals, w, z)) by {
        if !(value_of(vals, w, n) <= value_of(vals, w, z) + cost_at(costs, w, n)) {
            assert(pending_item(prev_q, n, value_of(vals, w, z)));
            let j = choose|j: int|
                0 <= j < prev_q.len() && (#[trigger] prev_q[j]).spec_x() == n.0
                    && prev_q[j].spec_y() == n.1 && prev_q[j].spec_cost() <= value_of(vals, w, z);
            if j == 0 {
                assert(n == t);
                assert(value_of(vals, w, t) <= offered);
            } else {
                assert(q2[j - 1] == prev_q[j]);
                assert(pending_item(q2, n, value_of(vals, w, z)));
            }
        }
    }
    assert(goal_settled_or_pending(costs, w, vals, goal, q2)) by {
        if !(value_of(vals, w, goal) <= cost_at(costs, w, goal)) {
            let j = choose|j: int|
                0 <= j < prev_q.len() && (#[trigger] prev_q[j]).spec_x() == goal.0
                    && prev_q[j].spec_y() == goal.1 && prev_q[j].spec_cost() <= 0;
            if j == 0 {
                assert(goal == t);
            } else {
                assert(q2[j - 1] == prev_q[j]);
                assert(pending_item(q2, goal, 0));
            }
        }
    }
}

/// When the queue has drained, the stored surface is exactly the minimal
/// cumulative cost of every cell: achievable where finite, and a lower
/// bound on the cost of every path.
pub proof fn lemma_drained(costs: Seq<u8>, w: int, h: int, goal: (int, int), vals: Seq<u16>, q: Seq<
    TodoItem,
>)
    requires
        q.len() == 0,
        in_bounds(w, h, goal),
        values_sound(costs, w, h, goal, vals),
        edges_relaxed_or_pending(costs, w, h, vals, q),
        goal_settled_or_pending(costs, w, vals, goal, q),
    ensures
        forall|cx: int, cy: int|
            in_bounds(w, h, (cx, cy)) ==> is_integration_value(
                costs,
                w,
                h,
                goal,
                (cx, cy),
                value_of(vals, w, (cx, cy)),
            ),
{
    assert(edges_relaxed(costs, w, h, vals)) by {
        assert forall|z: (int, int), n: (int, int)|
            in_bounds(w, h, z) && in_bounds(w, h, n) && #[trigger] ortho_adjacent(z, n) && value_of(
                vals,
                w,
                z,
            ) < SENTINEL implies value_of(vals, w, n) <= value_of(vals, w, z) + cost_at(
            costs,
            w,
            n,
        ) by {
            if pending_item(q, n, value_of(vals, w, z)) {
                let j = choose|j: int|
                    0 <= j < q.len() && (#[trigger] q[j]).spec_x() == n.0 && q[j].spec_y() == n.1
                        && q[j].spec_cost() <= value_of(vals, w, z);
                assert(false);
            }
        }
    }
    assert(value_of(vals, w, goal) <= cost_at(costs, w, goal)) by {
        if pending_item(q, goal, 0) {
            let j = choose|j: int|
                0 <= j < q.len() && (#[trigger] q[j]).spec_x() == goal.0 && q[j].spec_y() == goal.1
                    && q[j].spec_cost() <= 0;
            assert(false);
        }
    }
    assert forall|cx: int, cy: int| in_bounds(w, h, (cx, cy)) implies is_integration_value(
        costs,
        w,
        h,
        goal,
        (cx, cy),
        value_of(vals, w, (cx, cy)),
    ) by {
        let t2 = (cx, cy);
        let v = value_of(vals, w, t2);
        assert forall|p: Seq<(int, int)>|
            #[trigger] valid_path(w, h, goal, p) && p.last() == t2 && path_cost(costs, w, p)
                < SENTINEL implies v <= path_cost(costs, w, p) by {
            lemma_paths_relaxed(costs, w, h, goal, vals, p);
        }
    }
}

/// Idempotence of propagation: any two surfaces that satisfy the
/// integration characterization for the same costs and goal agree on every
/// cell, so repeating `calculate` with an unchanged cost field and goal
/// reproduces the stored values (and hence the derived directions) exactly.
pub proof fn lemma_calculate_deterministic(
    costs: Seq<u8>,
    w: int,
    h: int,
    goal: (int, int),
    vals1: Seq<u16>,
    vals2: Seq<u16>,
)
    requires
        forall|cx: int, cy: int|
            in_bounds(w, h, (cx, cy)) ==> is_integration_value(
                costs,
                w,
                h,
                goal,
                (cx, cy),
                #[trigger] value_of(vals1, w, (cx, cy)),
            ),
        forall|cx: int, cy: int|
            in_bounds(w, h, (cx, cy)) ==> is_integration_value(
                costs,
                w,
                h,
                goal,
                (cx, cy),
                #[trigger] value_of(vals2, w, (cx, cy)),
            ),
    ensures
        forall|cx: int, cy: int|
            in_bounds(w, h, (cx, cy)) ==> #[trigger] value_of(vals1, w, (cx, cy)) == value_of(
                vals2,
                w,
                (cx, cy),
            ),
{
    assert forall|cx: int, cy: int| in_bounds(w, h, (cx, cy)) implies #[trigger] value_of(
        vals1,
        w,
        (cx, cy),
    ) == value_of(vals2, w, (cx, cy)) by {
        lemma_integration_value_unique(
            costs,
            w,
            h,
            goal,
            (cx, cy),
            value_of(vals1, w, (cx, cy)),
            value_of(vals2, w, (cx, cy)),
        );
    }
}

/// A grid of cumulative minimal entry costs toward one goal cell. A cell
/// holds the sentinel until the propagation reaches it.
pub struct IntegrationField {
    goal: (usize, usize),
    size: (usize, usize),
    data: Vec<u16>,
}

impl IntegrationField {
    pub closed spec fn spec_width(&self) -> int {
        self.size.0 as int
    }

    pub closed spec fn spec_height(&self) -> int {
        self.size.1 as int
    }

    pub closed spec fn spec_goal(&self) -> (int, int) {
        (self.goal.0 as int, self.goal.1 as int)
    }

    /// The value buffer, row-major: index = y * width + x.
    pub closed spec fn values(&self) -> Seq<u16> {
        self.data@
    }

    /// Dimensions bounded to 1000 each and a buffer of exactly width * height cells.
    pub closed spec fn wf(&self) -> bool {
        &&& self.size.0 <= 1000
        &&& self.size.1 <= 1000
        &&& self.data@.len() == self.size.0 * self.size.1
    }

    /// What well-formedness guarantees, stated for modules that cannot
    /// unfold `wf` itself.
    pub proof fn lemma_wf_bounds(&self)
        requires
            self.wf(),
        ensures
            0 <= self.spec_width() <= 1000,
            0 <= self.spec_height() <= 1000,
            self.values().len() == self.spec_width() * self.spec_height(),
    {
    }

    /// The stored value of cell (x, y), as a mathematical integer.
    pub open spec fn value_at(&self, x: int, y: int) -> int {
        value_of(self.values(), self.spec_width(), (x, y))
    }

    /// The stored value of (x, y), or the sentinel outside the grid.
    pub open spec fn spec_bounded(&self, x: int, y: int) -> int {
        if in_bounds(self.spec_width(), self.spec_height(), (x, y)) {
            self.value_at(x, y)
        } else {
            SENTINEL as int
        }
    }

    /// Creates a field with every cell unreached and the goal at (0, 0).
    pub fn new(width: usize, height: usize) -> (r: Self)
        requires
            width <= 1000,
            height <= 1000,
        ensures
            r.wf(),
            r.spec_width() == width,
            r.spec_height() == height,
            r.spec_goal() == (0int, 0int),
            forall|i: int| 0 <= i < r.values().len() ==> r.values()[i] == SENTINEL,
    {
        let mut f = IntegrationField { size: (width, height), goal: (0, 0), data: Vec::new() };
        f.reset();
        f
    }

    #[inline]
    pub fn width(&self) -> (r: usize)
        ensures
            r == self.spec_width(),
    {
        self.size.0
    }

    #[inline]
    pub fn height(&self) -> (r: usize)
        ensures
            r == self.spec_height(),
    {
        self.size.1
    }

    /// Reads one cell's value. The caller guarantees bounds.
    #[inline]
    pub fn get(&self, x: usize, y: usize) -> (r: u16)
        requires
            self.wf(),
            x < self.spec_width(),
            y < self.spec_height(),
        ensures
            r == self.value_at(x as int, y as int),
    {
        proof {
            lemma_row_major_index(self.spec_width(), self.spec_height(), x as int, y as int);
            lemma_grid_size(self.spec_width(), self.spec_height());
        }
        self.data[self.size.0 * y + x]
    }

    /// Reads one cell's value, returning the sentinel for any coordinate
    /// outside the grid: the bounded accessor direction derivation uses, so
    /// boundary cells never point off-grid.
    #[inline]
    pub fn get_bounding(&self, x: isize, y: isize) -> (r: u16)
        requires
            self.wf(),
        ensures
            r == self.spec_bounded(x as int, y as int),
    {
        if x < 0 || x >= self.size.0 as isize || y < 0 || y >= self.size.1 as isize {
            SENTINEL
        } else {
            self.get(x as usize, y as usize)
        }
    }

    /// Overwrites one cell's value. The caller guarantees bounds.
    #[inline]
    pub fn set(&mut self, x: usize, y: usize, cost: u16)
        requires
            old(self).wf(),
            x < old(self).spec_width(),
            y < old(self).spec_height(),
        ensures
            final(self).wf(),
            final(self).spec_width() == old(self).spec_width(),
            final(self).spec_height() == old(self).spec_height(),
            final(self).spec_goal() == old(self).spec_goal(),
            final(self).values() == old(self).values().update(
                y * old(self).spec_width() + x,
                cost,
            ),
    {
        proof {
            lemma_row_major_index(self.spec_width(), self.spec_height(), x as int, y as int);
            lemma_grid_size(self.spec_width(), self.spec_height());
        }
        let w = self.size.0;
        let idx = w * y + x;
        self.data.set(idx, cost);
    }

    /// One relaxation step: stores `new_cost` at (x, y) only when it is a
    /// strict improvement over the current value. A stored value therefore
    /// never increases over the course of a propagation run.
    pub fn relax(&mut self, x: usize, y: usize, new_cost: u16) -> (improved: bool)
        requires
            old(self).wf(),
            x < old(self).spec_width(),
            y < old(self).spec_height(),
        ensures
            final(self).wf(),
            final(self).spec_width() == old(self).spec_width(),
            final(self).spec_height() == old(self).spec_height(),
            final(self).spec_goal() == old(self).spec_goal(),
            improved == (new_cost < old(self).value_at(x as int, y as int)),
            improved ==> final(self).values() == old(self).values().update(
                y * old(self).spec_width() + x,
                new_cost,
            ),
            !improved ==> final(self).values() == old(self).values(),
            final(self).value_at(x as int, y as int) <= old(self).value_at(x as int, y as int),
            forall|cx: int, cy: int|
                in_bounds(old(self).spec_width(), old(self).spec_height(), (cx, cy)) && (cx, cy)
                    != (x as int, y as int) ==> final(self).value_at(cx, cy) == old(
                    self,
                ).value_at(cx, cy),
    {
        let curr = self.get(x, y);
        let improved = new_cost < curr;
        if improved {
            self.set(x, y, new_cost);
        }
        proof {
            let w = old(self).spec_width();
            let h = old(self).spec_height();
            lemma_row_major_index(w, h, x as int, y as int);
            assert forall|cx: int, cy: int|
                in_bounds(w, h, (cx, cy)) && (cx, cy) != (x as int, y as int) implies self.value_at(
                cx,
                cy,
            ) == old(self).value_at(cx, cy) by {
                lemma_row_major_index(w, h, cx, cy);
                if cy * w + cx == y * w + x {
                    lemma_row_major_injective(w, cx, cy, x as int, y as int);
                }
            }
        }
        improved
    }

    /// Sets every cell's value to the sentinel by a bulk rebuild of the
    /// buffer: the production reset path.
    pub fn reset(&mut self)
        requires
            old(self).spec_width() <= 1000,
            old(self).spec_height() <= 1000,
        ensures
            final(self).wf(),
            final(self).spec_width() == old(self).spec_width(),
            final(self).spec_height() == old(self).spec_height(),
            final(self).spec_goal() == old(self).spec_goal(),
            forall|i: int| 0 <= i < final(self).values().len() ==> final(self).values()[i]
                == SENTINEL,
    {
        proof {
            lemma_grid_size(self.spec_width(), self.spec_height());
        }
        let size = self.size.0 * self.size.1;
        self.data.clear();
        self.data.resize(size, SENTINEL);
    }

    /// Sets every cell's value to the sentinel one element at a time: the
    /// correctness-reference reset path, byte-identical to `reset`.
    pub fn reset_safe(&mut self)
        requires
            old(self).spec_width() <= 1000,
            old(self).spec_height() <= 1000,
        ensures
            final(self).wf(),
            final(self).spec_width() == old(self).spec_width(),
            final(self).spec_height() == old(self).spec_height(),
            final(self).spec_goal() == old(self).spec_goal(),
            forall|i: int| 0 <= i < final(self).values().len() ==> final(self).values()[i]
                == SENTINEL,
    {
        proof {
            lemma_grid_size(self.spec_width(), self.spec_height());
        }
        let size = self.size.0 * self.size.1;
        self.data.clear();
        self.data.reserve(size);
        let mut i: usize = 0;
        while i < size
            invariant
                i <= size,
                self.data@.len() == i,
                forall|j: int| 0 <= j < i ==> self.data@[j] == SENTINEL,
                self.size == old(self).size,
                self.goal == old(self).goal,
            decreases size - i,
        {
            self.data.push(SENTINEL);
            i = i + 1;
        }
    }

    /// Recomputes the whole cumulative-cost surface for a new goal by FIFO
    /// wavefront relaxation and returns the number of work items processed
    /// (a diagnostic, not part of the surface's correctness). On return
    /// every cell holds exactly the minimal cumulative entry cost of
    /// reaching it from the goal by orthogonal steps, or the sentinel when
    /// no path cheaper than the sentinel exists. Values only ever decrease
    /// while the run relaxes cells, and the strict less-than guard bounds
    /// the total number of relaxations, so the queue always drains.
    #[verifier::loop_isolation(false)]
    #[verifier::rlimit(60)]
    pub fn calculate(&mut self, x: usize, y: usize, costs: &CostField) -> (count: usize)
        requires
            old(self).spec_width() <= 1000,
            old(self).spec_height() <= 1000,
            costs.wf(),
            costs.spec_width() == old(self).spec_width(),
            costs.spec_height() == old(self).spec_height(),
            x < old(self).spec_width(),
            y < old(self).spec_height(),
        ensures
            final(self).wf(),
            final(self).spec_width() == old(self).spec_width(),
            final(self).spec_height() == old(self).spec_height(),
            final(self).spec_goal() == (x as int, y as int),
            forall|cx: int, cy: int|
                in_bounds(old(self).spec_width(), old(self).spec_height(), (cx, cy))
                    ==> is_integration_value(
                    costs.cells(),
                    old(self).spec_width(),
                    old(self).spec_height(),
                    (x as int, y as int),
                    (cx, cy),
                    final(self).value_at(cx, cy),
                ),
            count >= 1,
    {
        let ghost w = old(self).spec_width();
        let ghost h = old(self).spec_height();
        let ghost cs = costs.cells();
        let ghost goal = (x as int, y as int);
        self.goal = (x, y);
        self.reset();
        let mut queue: VecDeque<TodoItem> = VecDeque::new();
        queue.push_back(TodoItem::new(x, y, 0));
        proof {
            lemma_singleton_path(cs, w, h, goal);
            let p = seq![goal];
            assert(path_cost(cs, w, p) == queue@[0].spec_cost() + cost_at(cs, w, goal));
            assert(reachable_with_cost(
                cs,
                w,
                h,
                goal,
                goal,
                queue@[0].spec_cost() + cost_at(cs, w, goal),
            ));
            assert(item_sound(cs, w, h, goal, queue@[0]));
            assert forall|c: (int, int)| in_bounds(w, h, c) implies #[trigger] value_of(
                self.values(),
                w,
                c,
            ) == SENTINEL by {
                lemma_row_major_index(w, h, c.0, c.1);
                assert(self.values().len() == w * h);
                assert(self.values()[c.1 * w + c.0] == SENTINEL);
            }
            assert(pending_item(queue@, goal, 0));
        }
        let mut neighbours: Vec<(usize, usize)> = Vec::with_capacity(5);
        let mut count: usize = 0;
        while queue.len() != 0
            invariant
                self.wf(),
                self.spec_width() == w,
                self.spec_height() == h,
                self.spec_goal() == goal,
                queue_items_sound(cs, w, h, goal, queue@),
                values_sound(cs, w, h, goal, self.values()),
                edges_relaxed_or_pending(cs, w, h, self.values(), queue@),
                goal_settled_or_pending(cs, w, self.values(), goal, queue@),
                count >= 1 || queue@.len() >= 1,
            decreases sum_values(self.values()), queue@.len(),
        {
            let ghost prev_q = queue@;
            let ghost prev_vals = self.values();
            let todo = queue.pop_front().unwrap();
            if count < usize::MAX {
                count = count + 1;
            }
            proof {
                assert(todo == prev_q[0]);
                assert(queue@ == prev_q.subrange(1, prev_q.len() as int));
                assert forall|k: int| 0 <= k < queue@.len() implies #[trigger] queue@[k] == prev_q[k
                    + 1] by {
                    assert(queue@[k] == prev_q.subrange(1, prev_q.len() as int)[k]);
                }
                assert(item_sound(cs, w, h, goal, prev_q[0]));
            }
            let tx = todo.x();
            let ty = todo.y();
            let ghost t = (tx as int, ty as int);
            let curr_cost = self.get(tx, ty);
            let new_cost32: u32 = costs.get(tx, ty) as u32 + todo.cost as u32;
            proof {
                lemma_row_major_index(w, h, t.0, t.1);
            }
            if new_cost32 < curr_cost as u32 {
                let new_cost: u16 = new_cost32 as u16;
                let ghost idx_t = t.1 * w + t.0;
                let improved = self.relax(tx, ty, new_cost);
                proof {
                    assert(improved);
                    assert(self.values() == prev_vals.update(idx_t, new_cost));
                    lemma_sum_values_update(prev_vals, idx_t, new_cost);
                    assert(sum_values(self.values()) < sum_values(prev_vals));
                }
                self.set_neighbours(&mut neighbours, tx, ty);
                let ghost mid_q = queue@;
                let ghost nb = neighbours@;
                let mut i: usize = 0;
                while i < neighbours.len()
                    invariant
                        i <= nb.len(),
                        queue@.len() == mid_q.len() + i,
                        forall|k: int| 0 <= k < mid_q.len() ==> #[trigger] queue@[k] == mid_q[k],
                        forall|k: int|
                            0 <= k < i ==> {
                                &&& (#[trigger] queue@[mid_q.len() + k]).spec_x() == nb[k].0
                                &&& queue@[mid_q.len() + k].spec_y() == nb[k].1
                                &&& queue@[mid_q.len() + k].spec_cost() == new_cost
                            },
                    decreases nb.len() - i,
                {
                    let n = neighbours[i];
                    proof {
                        assert(in_bounds(w, h, (nb[i as int].0 as int, nb[i as int].1 as int)));
                    }
                    queue.push_back(TodoItem::new(n.0, n.1, new_cost));
                    i = i + 1;
                }
                proof {
                    assert forall|k: int| 0 <= k < prev_q.len() - 1 implies #[trigger] queue@[k]
                        == prev_q[k + 1] by {
                        assert(queue@[k] == mid_q[k]);
                        assert(mid_q[k] == prev_q[k + 1]);
                    }
                    lemma_relax_step(
                        cs,
                        w,
                        h,
                        goal,
                        prev_q,
                        prev_vals,
                        self.values(),
                        queue@,
                        nb,
                        t,
                        new_cost,
                    );
                    lemma_sum_values_nonneg(self.values());
                }
            } else {
                proof {
                    lemma_discard_step(
                        cs,
                        w,
                        h,
                        goal,
                        prev_q,
                        self.values(),
                        queue@,
                        t,
                        new_cost32 as int,
                    );
                    lemma_sum_values_nonneg(self.values());
                }
            }
        }
        proof {
            lemma_drained(cs, w, h, goal, self.values(), queue@);
        }
        count
    }

    /// Collects the in-bounds orthogonal neighbours of (x, y), in the fixed
    /// enumeration order west, east, north, south; diagonals are never
    /// candidates for propagation.
    pub fn set_neighbours(&self, output: &mut Vec<(usize, usize)>, x: usize, y: usize)
        requires
            self.wf(),
            x < self.spec_width(),
            y < self.spec_height(),
        ensures
            final(output)@.len() == ortho_neighbour_list(
                self.spec_width(),
                self.spec_height(),
                x as int,
                y as int,
            ).len(),
            forall|i: int|
                0 <= i < final(output)@.len() ==> ((#[trigger] final(output)@[i]).0 as int, final(output)@[i].1 as int)
                    == ortho_neighbour_list(
                    self.spec_width(),
                    self.spec_height(),
                    x as int,
                    y as int,
                )[i],
            forall|i: int|
                0 <= i < final(output)@.len() ==> in_bounds(
                    self.spec_width(),
                    self.spec_height(),
                    ((#[trigger] final(output)@[i]).0 as int, final(output)@[i].1 as int),
                ) && ortho_adjacent(
                    (x as int, y as int),
                    (final(output)@[i].0 as int, final(output)@[i].1 as int),
                ),
            forall|c: (int, int)|
                in_bounds(self.spec_width(), self.spec_height(), c) && #[trigger] ortho_adjacent(
                    (x as int, y as int),
                    c,
                ) ==> exists|i: int|
                    0 <= i < final(output)@.len() && ((#[trigger] final(output)@[i]).0 as int, final(output)@[i].1
                        as int) == c,
    {
        let ghost w = self.spec_width();
        let ghost h = self.spec_height();
        output.clear();
        if x > 0 {
            output.push((x - 1, y));
        }
        if x < self.size.0 - 1 {
            output.push((x + 1, y));
        }
        if y > 0 {
            output.push((x, y - 1));
        }
        if y < self.size.1 - 1 {
            output.push((x, y + 1));
        }
        proof {
            let l = ortho_neighbour_list(w, h, x as int, y as int);
            assert(output@.len() == l.len());
            assert forall|i: int| 0 <= i < output@.len() implies ((#[trigger] output@[i]).0 as int,
            output@[i].1 as int) == l[i] by {}
            assert forall|i: int|
                0 <= i < output@.len() implies in_bounds(
                w,
                h,
                ((#[trigger] output@[i]).0 as int, output@[i].1 as int),
            ) && ortho_adjacent((x as int, y as int), (output@[i].0 as int, output@[i].1 as int)) by {
                let c = (output@[i].0 as int, output@[i].1 as int);
                assert(l[i] == c);
                assert(l.contains(c));
                lemma_neighbour_list_iff(w, h, x as int, y as int, c);
            }
            assert forall|c: (int, int)|
                in_bounds(w, h, c) && #[trigger] ortho_adjacent((x as int, y as int), c) implies exists|
                i: int,
            |
                0 <= i < output@.len() && ((#[trigger] output@[i]).0 as int, output@[i].1 as int)
                    == c by {
                lemma_neighbour_list_iff(w, h, x as int, y as int, c);
                let i = choose|i: int| 0 <= i < l.len() && l[i] == c;
                assert(((output@[i]).0 as int, output@[i].1 as int) == c);
            }
        }
    }
}

} // verus!
