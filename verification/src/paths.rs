//! Paths of orthogonal steps from a goal cell, their cumulative entry
//! costs, and the characterization of a fully propagated integration value.

use vstd::prelude::*;

use crate::grid::{cost_at, in_bounds, ortho_adjacent, SENTINEL};

verus! {

/// A non-empty sequence of in-bounds cells that starts at `goal` and moves
/// by one orthogonal step at a time.
pub open spec fn valid_path(w: int, h: int, goal: (int, int), p: Seq<(int, int)>) -> bool {
    &&& p.len() >= 1
    &&& p[0] == goal
    &&& forall|i: int| 0 <= i < p.len() ==> in_bounds(w, h, #[trigger] p[i])
    &&& forall|i: int| 0 < i < p.len() ==> ortho_adjacent(p[i - 1], #[trigger] p[i])
}

/// The cumulative cost of a path: the sum of the entry costs of every cell
/// on it, the starting goal cell included.
pub open spec fn path_cost(costs: Seq<u8>, w: int, p: Seq<(int, int)>) -> int
    decreases p.len(),
{
    if p.len() == 0 {
        0
    } else {
        path_cost(costs, w, p.drop_last()) + cost_at(costs, w, p.last())
    }
}

/// Some path from the goal reaches `t` at exactly cost `v`.
pub open spec fn reachable_with_cost(
    costs: Seq<u8>,
    w: int,
    h: int,
    goal: (int, int),
    t: (int, int),
    v: int,
) -> bool {
    exists|p: Seq<(int, int)>|
        #[trigger] valid_path(w, h, goal, p) && p.last() == t && path_cost(costs, w, p) == v
}

/// What a finished propagation stores for cell `t`: the sentinel when no
/// path cheaper than the sentinel reaches `t`, and otherwise the minimal
/// cumulative cost over all paths from the goal.
pub open spec fn is_integration_value(
    costs: Seq<u8>,
    w: int,
    h: int,
    goal: (int, int),
    t: (int, int),
    v: int,
) -> bool {
    &&& 0 <= v <= SENTINEL
    &&& (v < SENTINEL ==> reachable_with_cost(costs, w, h, goal, t, v))
    &&& forall|p: Seq<(int, int)>|
        #[trigger] valid_path(w, h, goal, p) && p.last() == t && path_cost(costs, w, p) < SENTINEL
            ==> v <= path_cost(costs, w, p)
}

/// A path's cost is at least zero.
pub proof fn lemma_path_cost_nonneg(costs: Seq<u8>, w: int, p: Seq<(int, int)>)
    ensures
        path_cost(costs, w, p) >= 0,
    decreases p.len(),
{
    if p.len() > 0 {
        lemma_path_cost_nonneg(costs, w, p.drop_last());
    }
}

/// A path's cost is at least the entry cost of its final cell.
pub proof fn lemma_path_cost_ge_last(costs: Seq<u8>, w: int, p: Seq<(int, int)>)
    requires
        p.len() >= 1,
    ensures
        path_cost(costs, w, p) >= cost_at(costs, w, p.last()),
{
    lemma_path_cost_nonneg(costs, w, p.drop_last());
}

/// Extending a path by one adjacent in-bounds cell keeps it valid and adds
/// that cell's entry cost.
pub proof fn lemma_path_extend(
    costs: Seq<u8>,
    w: int,
    h: int,
    goal: (int, int),
    p: Seq<(int, int)>,
    n: (int, int),
)
    requires
        valid_path(w, h, goal, p),
        in_bounds(w, h, n),
        ortho_adjacent(p.last(), n),
    ensures
        valid_path(w, h, goal, p.push(n)),
        p.push(n).last() == n,
        path_cost(costs, w, p.push(n)) == path_cost(costs, w, p) + cost_at(costs, w, n),
{
    let q = p.push(n);
    assert(q.drop_last() =~= p);
    assert forall|i: int| 0 < i < q.len() implies ortho_adjacent(q[i - 1], #[trigger] q[i]) by {
        if i < p.len() {
            assert(ortho_adjacent(p[i - 1], p[i]));
        }
    }
}

/// Dropping a path's final cell keeps it valid, and lowers its cost by that
/// cell's entry cost.
pub proof fn lemma_path_shrink(
    costs: Seq<u8>,
    w: int,
    h: int,
    goal: (int, int),
    p: Seq<(int, int)>,
)
    requires
        valid_path(w, h, goal, p),
        p.len() >= 2,
    ensures
        valid_path(w, h, goal, p.drop_last()),
        ortho_adjacent(p.drop_last().last(), p.last()),
        path_cost(costs, w, p.drop_last()) == path_cost(costs, w, p) - cost_at(costs, w, p.last()),
{
    let q = p.drop_last();
    assert(q[0] == p[0]);
    assert forall|i: int| 0 < i < q.len() implies ortho_adjacent(q[i - 1], #[trigger] q[i]) by {
        assert(ortho_adjacent(p[i - 1], p[i]));
    }
    assert(ortho_adjacent(p[p.len() - 2], p[p.len() - 1]));
}

/// The singleton path that stays on the goal cell is valid and costs the
/// goal's own entry cost.
pub proof fn lemma_singleton_path(costs: Seq<u8>, w: int, h: int, goal: (int, int))
    requires
        in_bounds(w, h, goal),
    ensures
        valid_path(w, h, goal, seq![goal]),
        seq![goal].last() == goal,
        path_cost(costs, w, seq![goal]) == cost_at(costs, w, goal),
{
    let p = seq![goal];
    assert(p.drop_last() =~= Seq::<(int, int)>::empty());
    assert(path_cost(costs, w, p.drop_last()) == 0);
    assert(path_cost(costs, w, p) == path_cost(costs, w, p.drop_last()) + cost_at(
        costs,
        w,
        p.last(),
    ));
}

/// Two values that both satisfy the integration characterization for the
/// same grid, goal and cell are equal: the propagated surface is unique.
pub proof fn lemma_integration_value_unique(
    costs: Seq<u8>,
    w: int,
    h: int,
    goal: (int, int),
    t: (int, int),
    v1: int,
    v2: int,
)
    requires
        is_integration_value(costs, w, h, goal, t, v1),
        is_integration_value(costs, w, h, goal, t, v2),
    ensures
        v1 == v2,
{
    if v1 < SENTINEL {
        let p = choose|p: Seq<(int, int)>|
            #[trigger] valid_path(w, h, goal, p) && p.last() == t && path_cost(costs, w, p) == v1;
        assert(v2 <= path_cost(costs, w, p));
    }
    if v2 < SENTINEL {
        let p = choose|p: Seq<(int, int)>|
            #[trigger] valid_path(w, h, goal, p) && p.last() == t && path_cost(costs, w, p) == v2;
        assert(v1 <= path_cost(costs, w, p));
    }
}

/// A cell holds the sentinel after propagation exactly when no sequence of
/// orthogonal steps reaches it from the goal at a cost below the sentinel.
pub proof fn lemma_sentinel_iff_unreachable(
    costs: Seq<u8>,
    w: int,
    h: int,
    goal: (int, int),
    t: (int, int),
    v: int,
)
    requires
        is_integration_value(costs, w, h, goal, t, v),
    ensures
        v == SENTINEL <==> !(exists|p: Seq<(int, int)>|
            #[trigger] valid_path(w, h, goal, p) && p.last() == t && path_cost(costs, w, p)
                < SENTINEL),
{
    if v == SENTINEL {
        if exists|p: Seq<(int, int)>|
            #[trigger] valid_path(w, h, goal, p) && p.last() == t && path_cost(costs, w, p)
                < SENTINEL {
            let p = choose|p: Seq<(int, int)>|
                #[trigger] valid_path(w, h, goal, p) && p.last() == t && path_cost(costs, w, p)
                    < SENTINEL;
            assert(v <= path_cost(costs, w, p));
        }
    }
}

/// The goal cell's propagated value is its own entry cost: entering the
/// goal itself is paid for, so the value is not zero.
pub proof fn lemma_goal_value(costs: Seq<u8>, w: int, h: int, goal: (int, int), v: int)
    requires
        in_bounds(w, h, goal),
        is_integration_value(costs, w, h, goal, goal, v),
    ensures
        v == cost_at(costs, w, goal),
{
    lemma_singleton_path(costs, w, h, goal);
    assert(v <= cost_at(costs, w, goal));
    if v < SENTINEL {
        let p = choose|p: Seq<(int, int)>|
            #[trigger] valid_path(w, h, goal, p) && p.last() == goal && path_cost(costs, w, p)
                == v;
        lemma_path_cost_ge_last(costs, w, p);
    }
}

} // verus!
