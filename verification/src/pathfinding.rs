use vstd::prelude::*;
use crate::hexagon_pos::{
    HexagonPos, adjacent, in_grid, neighbour_at, spec_neighbours, spec_manhattan_dist,
    lemma_manhattan_dist_metric,
};
use crate::world::{WorldMap, ProvinceEntry, has_pos, all_in_grid, distinct_positions};

verus! {

/// `path` is a way that starts next to `from` and goes through provinces of `provs`,
/// listed from its end back to its first step: the last entry is a neighbour of
/// `from`, and each entry is a neighbour of the one after it. A division walks it by
/// taking entries from the back.
pub open spec fn leads_from(provs: Seq<ProvinceEntry>, from: HexagonPos, path: Seq<HexagonPos>) -> bool {
    &&& path.len() > 0
    &&& forall|i: int| 0 <= i < path.len() ==> has_pos(provs, #[trigger] path[i])
    &&& adjacent(from, path.last())
    &&& forall|i: int| 0 <= i < path.len() - 1 ==> adjacent(#[trigger] path[i + 1], path[i])
}

/// Some way through the provinces of `provs` leads from `from` to `to`.
pub open spec fn reachable(provs: Seq<ProvinceEntry>, from: HexagonPos, to: HexagonPos) -> bool {
    exists|path: Seq<HexagonPos>| #[trigger] leads_from(provs, from, path) && path[0] == to
}

/// The cell of search node `i`: node `i` is province `i`, and the node after the last
/// province stands for the starting cell when no province covers it.
pub open spec fn node_pos(provs: Seq<ProvinceEntry>, from: HexagonPos, i: int) -> HexagonPos {
    if i < provs.len() {
        provs[i].pos
    } else {
        from
    }
}

/// What a node that has no cost yet counts for in the potential.
pub open spec fn pot(o: Option<usize>, bound: nat) -> nat {
    match o {
        Some(v) => v as nat,
        None => bound,
    }
}

/// The sum of `pot` over the cost table; every improvement of a cost lowers it.
pub open spec fn potential(costs: Seq<Option<usize>>, bound: nat) -> nat
    decreases costs.len(),
{
    if costs.len() == 0 {
        0
    } else {
        potential(costs.drop_last(), bound) + pot(costs.last(), bound)
    }
}

/// The number of nodes that have a cost.
pub open spec fn count_some(costs: Seq<Option<usize>>) -> nat
    decreases costs.len(),
{
    if costs.len() == 0 {
        0
    } else {
        count_some(costs.drop_last()) + if costs.last() is Some {
            1nat
        } else {
            0nat
        }
    }
}

/// Some entry of the queue is for node `i`.
pub open spec fn queued(queue: Seq<(u128, usize)>, i: int) -> bool {
    exists|k: int| 0 <= k < queue.len() && #[trigger] queue[k].1 == i
}

/// Every province next to node `v` has a cost.
pub open spec fn closed_at(
    provs: Seq<ProvinceEntry>,
    from: HexagonPos,
    costs: Seq<Option<usize>>,
    v: int,
) -> bool {
    forall|j: int|
        0 <= j < provs.len() && #[trigger] adjacent(node_pos(provs, from, v), provs[j].pos)
            ==> costs[j] is Some
}

/// The cost of node `i`, or 0 where it has none.
pub open spec fn cost_of(costs: Seq<Option<usize>>, i: int) -> nat {
    match costs[i] {
        Some(v) => v as nat,
        None => 0,
    }
}

proof fn lemma_potential_update(s: Seq<Option<usize>>, i: int, x: Option<usize>, bound: nat)
    requires
        0 <= i < s.len(),
    ensures
        potential(s.update(i, x), bound) + pot(s[i], bound) == potential(s, bound) + pot(x, bound),
    decreases s.len(),
{
    if i == s.len() - 1 {
        assert(s.update(i, x).drop_last() =~= s.drop_last());
    } else {
        lemma_potential_update(s.drop_last(), i, x, bound);
        assert(s.update(i, x).drop_last() =~= s.drop_last().update(i, x));
    }
}

proof fn lemma_count_update(s: Seq<Option<usize>>, i: int, x: usize)
    requires
        0 <= i < s.len(),
    ensures
        count_some(s.update(i, Some(x))) == count_some(s) + if s[i] is None {
            1nat
        } else {
            0nat
        },
    decreases s.len(),
{
    if i == s.len() - 1 {
        assert(s.update(i, Some(x)).drop_last() =~= s.drop_last());
    } else {
        lemma_count_update(s.drop_last(), i, x);
        assert(s.update(i, Some(x)).drop_last() =~= s.drop_last().update(i, Some(x)));
    }
}

proof fn lemma_count_none(s: Seq<Option<usize>>)
    requires
        forall|k: int| 0 <= k < s.len() ==> s[k] is None,
    ensures
        count_some(s) == 0,
    decreases s.len(),
{
    if s.len() > 0 {
        lemma_count_none(s.drop_last());
    }
}

proof fn lemma_count_bound(s: Seq<Option<usize>>)
    ensures
        count_some(s) <= s.len(),
    decreases s.len(),
{
    if s.len() > 0 {
        lemma_count_bound(s.drop_last());
    }
}

proof fn lemma_queued_remove(q: Seq<(u128, usize)>, r: int, i: int)
    requires
        0 <= r < q.len(),
        queued(q, i),
        q[r].1 != i,
    ensures
        queued(q.remove(r), i),
{
    let k = choose|k: int| 0 <= k < q.len() && #[trigger] q[k].1 == i;
    if k < r {
        assert(q.remove(r)[k].1 == i);
    } else {
        assert(q.remove(r)[k - 1].1 == i);
    }
}

proof fn lemma_queued_push(q: Seq<(u128, usize)>, e: (u128, usize), i: int)
    requires
        queued(q, i) || e.1 == i,
    ensures
        queued(q.push(e), i),
{
    if e.1 == i {
        assert(q.push(e)[q.len() as int].1 == i);
    } else {
        let k = choose|k: int| 0 <= k < q.len() && #[trigger] q[k].1 == i;
        assert(q.push(e)[k].1 == i);
    }
}

/// Where every node with a cost has all its neighbouring provinces costed, every way
/// from the start stays among costed provinces.
proof fn lemma_way_costed(
    provs: Seq<ProvinceEntry>,
    from: HexagonPos,
    costs: Seq<Option<usize>>,
    s: int,
    path: Seq<HexagonPos>,
    i: int,
)
    requires
        costs.len() == provs.len() + 1,
        0 <= s <= provs.len(),
        node_pos(provs, from, s) == from,
        costs[s] is Some,
        forall|v: int| 0 <= v <= provs.len() && costs[v] is Some ==> closed_at(provs, from, costs, v),
        leads_from(provs, from, path),
        0 <= i < path.len(),
    ensures
        exists|j: int| 0 <= j < provs.len() && provs[j].pos == path[i] && costs[j] is Some,
    decreases path.len() - i,
{
    assert(has_pos(provs, path[i]));
    let j = choose|j: int| 0 <= j < provs.len() && provs[j].pos == path[i];
    if i == path.len() - 1 {
        assert(closed_at(provs, from, costs, s));
        assert(adjacent(node_pos(provs, from, s), provs[j].pos));
    } else {
        lemma_way_costed(provs, from, costs, s, path, i + 1);
        let j2 = choose|j2: int|
            0 <= j2 < provs.len() && provs[j2].pos == path[i + 1] && costs[j2] is Some;
        assert(closed_at(provs, from, costs, j2));
        assert(adjacent(path[i + 1], path[i]));
        assert(adjacent(node_pos(provs, from, j2), provs[j].pos));
    }
}

/// The estimate the search adds to the cost of node `i`: the Manhattan distance from
/// its cell to `to`.
pub open spec fn estimate(provs: Seq<ProvinceEntry>, from: HexagonPos, to: HexagonPos, i: int) -> nat {
    spec_manhattan_dist(node_pos(provs, from, i), to)
}

/// `w` is a way from `from` to `to` through the provinces of `provs`, and no such way
/// is shorter.
#[verifier::opaque]
spec fn is_shortest_way(
    provs: Seq<ProvinceEntry>,
    from: HexagonPos,
    to: HexagonPos,
    w: Seq<HexagonPos>,
) -> bool {
    &&& leads_from(provs, from, w)
    &&& w[0] == to
    &&& forall|u: Seq<HexagonPos>| #[trigger] leads_from(provs, from, u) && u[0] == to ==> w.len() <= u.len()
}

/// The province of `provs` at `p`.
pub open spec fn idx_of(provs: Seq<ProvinceEntry>, p: HexagonPos) -> int {
    choose|j: int| 0 <= j < provs.len() && provs[j].pos == p
}

/// The search nodes along the way `w` from node `s` (the start): entry `k` is the
/// node reached after `k` steps.
pub open spec fn way_ids(provs: Seq<ProvinceEntry>, s: int, w: Seq<HexagonPos>) -> Seq<int> {
    Seq::new(
        w.len() + 1,
        |k: int|
            if k == 0 {
                s
            } else {
                idx_of(provs, w[w.len() - k])
            },
    )
}

/// Node `i` has a cost of at most `k`.
pub open spec fn low(costs: Seq<Option<usize>>, i: int, k: int) -> bool {
    costs[i] matches Some(c) && c <= k
}

/// Some entry of the queue is for node `i`, with priority at most `b`.
pub open spec fn queued_below(queue: Seq<(u128, usize)>, i: int, b: int) -> bool {
    exists|kk: int| 0 <= kk < queue.len() && #[trigger] queue[kk].1 == i && queue[kk].0 <= b
}

/// Along the nodes `ids` of a way, every node other than `skip` that has been reached
/// within its number of steps is either waiting in the queue with a priority of at
/// most that number plus its estimate, or has already passed the next node of the
/// way a cost within the next number of steps.
#[verifier::opaque]
spec fn way_tracked(
    provs: Seq<ProvinceEntry>,
    from: HexagonPos,
    to: HexagonPos,
    costs: Seq<Option<usize>>,
    queue: Seq<(u128, usize)>,
    ids: Seq<int>,
    skip: int,
) -> bool {
    forall|k: int|
        0 <= k < ids.len() - 1 && ids[k] != skip && #[trigger] low(costs, ids[k], k) ==> queued_below(
            queue,
            ids[k],
            k + estimate(provs, from, to, ids[k]),
        ) || low(costs, ids[k + 1], k + 1)
}

/// Every queued entry has a priority of at least the cost of its node plus the node's
/// estimate.
#[verifier::opaque]
spec fn prio_ok(
    provs: Seq<ProvinceEntry>,
    from: HexagonPos,
    to: HexagonPos,
    costs: Seq<Option<usize>>,
    queue: Seq<(u128, usize)>,
) -> bool {
    forall|kk: int|
        0 <= kk < queue.len() ==> (#[trigger] queue[kk]).0 >= cost_of(costs, queue[kk].1 as int)
            + estimate(provs, from, to, queue[kk].1 as int)
}

/// `ids` are the `d + 1` nodes of a way from node `s` to node `t` (see `lemma_way_ids`).
#[verifier::opaque]
spec fn way_facts(
    provs: Seq<ProvinceEntry>,
    from: HexagonPos,
    to: HexagonPos,
    s: int,
    t: int,
    ids: Seq<int>,
    d: int,
) -> bool {
    &&& d >= 1
    &&& ids.len() == d + 1
    &&& ids[0] == s
    &&& ids[d] == t
    &&& forall|k: int| 1 <= k <= d ==> 0 <= #[trigger] ids[k] < provs.len()
    &&& forall|k: int|
        0 <= k < d ==> adjacent(node_pos(provs, from, #[trigger] ids[k]), node_pos(provs, from, ids[k + 1]))
    &&& forall|k: int| 0 <= k <= d ==> estimate(provs, from, to, #[trigger] ids[k]) <= 2 * (d - k)
}

/// A way found shorter than twice a shortest way is shorter than twice any way.
proof fn lemma_within_twice_shortest(
    provs: Seq<ProvinceEntry>,
    from: HexagonPos,
    to: HexagonPos,
    w: Seq<HexagonPos>,
    len: int,
)
    requires
        is_shortest_way(provs, from, to, w),
        len < 2 * w.len(),
    ensures
        forall|u: Seq<HexagonPos>| #[trigger] leads_from(provs, from, u) && u[0] == to ==> len < 2 * u.len(),
{
    reveal(is_shortest_way);
}

/// The search's last expansion: `cur` is not the target, so its estimate is at least
/// one, and the way it closes is at most its cost plus one long.
proof fn lemma_found_length(
    provs: Seq<ProvinceEntry>,
    from: HexagonPos,
    to: HexagonPos,
    cur: int,
    t: int,
    gc: int,
    len: int,
    b: int,
)
    requires
        0 <= t < provs.len(),
        provs[t].pos == to,
        cur != t,
        0 <= cur <= provs.len(),
        cur == provs.len() ==> from != to,
        distinct_positions(provs),
        gc + estimate(provs, from, to, cur) <= b,
        len <= gc + 1,
    ensures
        len <= b,
{
    if cur < provs.len() {
        assert(provs[cur].pos != provs[t].pos);
    }
    lemma_manhattan_dist_metric(node_pos(provs, from, cur), to);
}

/// The way has at least one step, and its first step is a province next to `from`.
proof fn lemma_way_first(
    provs: Seq<ProvinceEntry>,
    from: HexagonPos,
    to: HexagonPos,
    s: int,
    t: int,
    ids: Seq<int>,
    d: int,
)
    requires
        way_facts(provs, from, to, s, t, ids, d),
        node_pos(provs, from, s) == from,
    ensures
        d >= 1,
        ids.len() == d + 1,
        0 <= ids[1] < provs.len(),
        adjacent(from, provs[ids[1]].pos),
{
    reveal(way_facts);
    assert(adjacent(node_pos(provs, from, ids[0]), node_pos(provs, from, ids[1])));
}

/// At the start, only node `s` has a cost, 0, and the queue holds its single entry.
proof fn lemma_track_start(
    provs: Seq<ProvinceEntry>,
    from: HexagonPos,
    to: HexagonPos,
    s: int,
    t: int,
    ids: Seq<int>,
    d: int,
    costs: Seq<Option<usize>>,
    queue: Seq<(u128, usize)>,
)
    requires
        way_facts(provs, from, to, s, t, ids, d),
        s <= provs.len(),
        costs.len() == provs.len() + 1,
        forall|i: int| 0 <= i < costs.len() && i != s ==> costs[i] is None,
        queue.len() == 1,
        queue[0].1 == s,
        queue[0].0 == estimate(provs, from, to, s),
    ensures
        way_tracked(provs, from, to, costs, queue, ids, -1),
{
    reveal(way_facts);
    reveal(way_tracked);
    assert forall|k: int|
        0 <= k < ids.len() - 1 && ids[k] != -1 && #[trigger] low(costs, ids[k], k) implies queued_below(
        queue,
        ids[k],
        k + estimate(provs, from, to, ids[k]),
    ) || low(costs, ids[k + 1], k + 1) by {
        if k > 0 {
            assert(0 <= ids[k] < provs.len());
        }
        assert(ids[k] == s);
        assert(queue[0].1 == ids[k]);
    }
}

/// Popping an entry of least priority: its node's cost plus estimate is at most twice
/// the length of the way.
#[verifier::rlimit(50)]
proof fn lemma_track_pop(
    provs: Seq<ProvinceEntry>,
    from: HexagonPos,
    to: HexagonPos,
    s: int,
    t: int,
    ids: Seq<int>,
    d: int,
    costs: Seq<Option<usize>>,
    q0: Seq<(u128, usize)>,
    r: int,
    start_done: bool,
)
    requires
        way_facts(provs, from, to, s, t, ids, d),
        way_tracked(provs, from, to, costs, q0, ids, -1),
        prio_ok(provs, from, to, costs, q0),
        0 <= s <= provs.len(),
        costs[s] == Some(0usize),
        costs[t] is None,
        0 <= r < q0.len(),
        forall|k: int| 0 <= k < q0.len() ==> q0[r].0 <= #[trigger] q0[k].0,
        start_done ==> low(costs, ids[1], 1),
    ensures
        cost_of(costs, q0[r].1 as int) + estimate(provs, from, to, q0[r].1 as int) <= 2 * d,
        start_done ==> cost_of(costs, q0[r].1 as int) + estimate(provs, from, to, q0[r].1 as int)
            <= 2 * d - 1,
{
    reveal(way_facts);
    assert(ids.len() - 1 == d);
    let k0: int = if start_done {
        1
    } else {
        0
    };
    lemma_gap(costs, ids, k0);
    let i = choose|i: int|
        k0 <= i < ids.len() - 1 && #[trigger] low(costs, ids[i], i) && !low(costs, ids[i + 1], i + 1);
    let b = i + estimate(provs, from, to, ids[i]);
    if i > 0 {
        assert(0 <= ids[i] < provs.len());
    }
    assert(ids[i] != -1);
    assert(queued_below(q0, ids[i], b)) by {
        reveal(way_tracked);
    }
    let kk = choose|kk: int| 0 <= kk < q0.len() && #[trigger] q0[kk].1 == ids[i] && q0[kk].0 <= b;
    assert(q0[r].0 <= q0[kk].0);
    assert(q0[r].0 >= cost_of(costs, q0[r].1 as int) + estimate(provs, from, to, q0[r].1 as int)) by {
        reveal(prio_ok);
    }
    assert(estimate(provs, from, to, ids[i]) <= 2 * (d - i));
}

/// Removing the entry of node `cur` keeps the way tracked for every other node.
proof fn lemma_track_remove(
    provs: Seq<ProvinceEntry>,
    from: HexagonPos,
    to: HexagonPos,
    s: int,
    t: int,
    d: int,
    ids: Seq<int>,
    costs: Seq<Option<usize>>,
    q0: Seq<(u128, usize)>,
    r: int,
)
    requires
        way_tracked(provs, from, to, costs, q0, ids, -1),
        way_facts(provs, from, to, s, t, ids, d),
        0 <= s,
        0 <= r < q0.len(),
    ensures
        way_tracked(provs, from, to, costs, q0.remove(r), ids, q0[r].1 as int),
{
    reveal(way_tracked);
    reveal(way_facts);
    let cur = q0[r].1 as int;
    assert forall|k: int|
        0 <= k < ids.len() - 1 && ids[k] != cur && #[trigger] low(costs, ids[k], k) implies queued_below(
        q0.remove(r),
        ids[k],
        k + estimate(provs, from, to, ids[k]),
    ) || low(costs, ids[k + 1], k + 1) by {
        if k > 0 {
            assert(0 <= ids[k]);
        }
        if queued_below(q0, ids[k], k + estimate(provs, from, to, ids[k])) {
            lemma_queued_below_remove(q0, r, ids[k], k + estimate(provs, from, to, ids[k]));
        }
    }
}

/// Removing an entry keeps every remaining priority above its node's cost plus estimate.
proof fn lemma_prio_remove(
    provs: Seq<ProvinceEntry>,
    from: HexagonPos,
    to: HexagonPos,
    costs: Seq<Option<usize>>,
    q0: Seq<(u128, usize)>,
    r: int,
)
    requires
        prio_ok(provs, from, to, costs, q0),
        0 <= r < q0.len(),
    ensures
        prio_ok(provs, from, to, costs, q0.remove(r)),
        q0[r].0 >= cost_of(costs, q0[r].1 as int) + estimate(provs, from, to, q0[r].1 as int),
{
    reveal(prio_ok);
    assert forall|kk: int| 0 <= kk < q0.remove(r).len() implies (#[trigger] q0.remove(r)[kk]).0 >= cost_of(
        costs,
        q0.remove(r)[kk].1 as int,
    ) + estimate(provs, from, to, q0.remove(r)[kk].1 as int) by {
        if kk < r {
            assert(q0.remove(r)[kk] == q0[kk]);
        } else {
            assert(q0.remove(r)[kk] == q0[kk + 1]);
        }
    }
}

/// Lowering the cost of node `j` to `tent` and queuing it with priority `tent` plus its
/// estimate keeps the priorities above costs plus estimates, and keeps the way tracked.
proof fn lemma_track_relax(
    provs: Seq<ProvinceEntry>,
    from: HexagonPos,
    to: HexagonPos,
    s: int,
    t: int,
    d: int,
    ids: Seq<int>,
    skip: int,
    costs: Seq<Option<usize>>,
    queue: Seq<(u128, usize)>,
    j: int,
    tent: usize,
    entry: (u128, usize),
)
    requires
        entry.1 == j,
        entry.0 == tent + estimate(provs, from, to, j),
        0 <= j < costs.len(),
        costs[j] matches Some(c) ==> tent < c,
        0 <= s <= provs.len(),
        costs.len() == provs.len() + 1,
        way_facts(provs, from, to, s, t, ids, d),
        forall|kk: int|
            0 <= kk < queue.len() ==> (#[trigger] queue[kk]).1 < costs.len() && costs[queue[kk].1 as int] is Some,
        prio_ok(provs, from, to, costs, queue),
        way_tracked(provs, from, to, costs, queue, ids, skip),
    ensures
        prio_ok(provs, from, to, costs.update(j, Some(tent)), queue.push(entry)),
        way_tracked(provs, from, to, costs.update(j, Some(tent)), queue.push(entry), ids, skip),
{
    reveal(prio_ok);
    reveal(way_tracked);
    reveal(way_facts);
    let nc = costs.update(j, Some(tent));
    let nq = queue.push(entry);
    assert forall|kk: int| 0 <= kk < nq.len() implies (#[trigger] nq[kk]).0 >= cost_of(nc, nq[kk].1 as int)
        + estimate(provs, from, to, nq[kk].1 as int) by {
        if kk < queue.len() {
            assert(nq[kk] == queue[kk]);
            assert(costs[queue[kk].1 as int] is Some);
        } else {
            assert(nq[kk] == entry);
        }
    }
    assert forall|k: int|
        0 <= k < ids.len() - 1 && ids[k] != skip && #[trigger] low(nc, ids[k], k) implies queued_below(
        nq,
        ids[k],
        k + estimate(provs, from, to, ids[k]),
    ) || low(nc, ids[k + 1], k + 1) by {
        let b = k + estimate(provs, from, to, ids[k]);
        if ids[k] == j {
            lemma_queued_below_push(queue, entry, ids[k], b);
        } else {
            if k > 0 {
                assert(0 <= ids[k] < provs.len());
            }
            assert(nc[ids[k]] == costs[ids[k]]);
            assert(low(costs, ids[k], k));
            if queued_below(queue, ids[k], b) {
                lemma_queued_below_push(queue, entry, ids[k], b);
            }
        }
    }
}

/// Lowering the cost of node `j` to `tent` and queuing it with priority `tent` plus its
/// estimate keeps every priority above its node's cost plus estimate.
proof fn lemma_prio_relax(
    provs: Seq<ProvinceEntry>,
    from: HexagonPos,
    to: HexagonPos,
    costs: Seq<Option<usize>>,
    queue: Seq<(u128, usize)>,
    j: int,
    tent: usize,
    entry: (u128, usize),
)
    requires
        entry.1 == j,
        entry.0 == tent + estimate(provs, from, to, j),
        0 <= j < costs.len(),
        costs[j] matches Some(c) ==> tent < c,
        forall|kk: int|
            0 <= kk < queue.len() ==> (#[trigger] queue[kk]).1 < costs.len() && costs[queue[kk].1 as int] is Some,
        prio_ok(provs, from, to, costs, queue),
    ensures
        prio_ok(provs, from, to, costs.update(j, Some(tent)), queue.push(entry)),
{
    reveal(prio_ok);
    let nc = costs.update(j, Some(tent));
    let nq = queue.push(entry);
    assert forall|kk: int| 0 <= kk < nq.len() implies (#[trigger] nq[kk]).0 >= cost_of(nc, nq[kk].1 as int)
        + estimate(provs, from, to, nq[kk].1 as int) by {
        if kk < queue.len() {
            assert(nq[kk] == queue[kk]);
            assert(costs[queue[kk].1 as int] is Some);
        } else {
            assert(nq[kk] == entry);
        }
    }
}

/// Once every province next to `cur` has a cost of at most one more than that of
/// `cur`, the way is tracked for `cur` too.
proof fn lemma_track_expanded(
    provs: Seq<ProvinceEntry>,
    from: HexagonPos,
    to: HexagonPos,
    s: int,
    t: int,
    ids: Seq<int>,
    d: int,
    costs: Seq<Option<usize>>,
    queue: Seq<(u128, usize)>,
    cur: int,
    gc: usize,
)
    requires
        way_facts(provs, from, to, s, t, ids, d),
        way_tracked(provs, from, to, costs, queue, ids, cur),
        costs[cur] == Some(gc),
        forall|j: int|
            0 <= j < provs.len() && adjacent(node_pos(provs, from, cur), provs[j].pos) ==> low(
                costs,
                j,
                gc + 1,
            ),
    ensures
        way_tracked(provs, from, to, costs, queue, ids, -1),
{
    reveal(way_facts);
    reveal(way_tracked);
    assert forall|k: int|
        0 <= k < ids.len() - 1 && ids[k] != -1 && #[trigger] low(costs, ids[k], k) implies queued_below(
        queue,
        ids[k],
        k + estimate(provs, from, to, ids[k]),
    ) || low(costs, ids[k + 1], k + 1) by {
        if ids[k] == cur {
            assert(adjacent(node_pos(provs, from, ids[k]), node_pos(provs, from, ids[k + 1])));
            assert(0 <= ids[k + 1] < provs.len());
            assert(low(costs, ids[k + 1], gc + 1));
        }
    }
}

proof fn lemma_shortest_way_exists(
    provs: Seq<ProvinceEntry>,
    from: HexagonPos,
    to: HexagonPos,
    w: Seq<HexagonPos>,
)
    requires
        leads_from(provs, from, w),
        w[0] == to,
    ensures
        exists|v: Seq<HexagonPos>| is_shortest_way(provs, from, to, v),
    decreases w.len(),
{
    reveal(is_shortest_way);
    if !is_shortest_way(provs, from, to, w) {
        let u = choose|u: Seq<HexagonPos>|
            #[trigger] leads_from(provs, from, u) && u[0] == to && !(w.len() <= u.len());
        lemma_shortest_way_exists(provs, from, to, u);
    }
}

proof fn lemma_queued_below_remove(q: Seq<(u128, usize)>, r: int, i: int, b: int)
    requires
        0 <= r < q.len(),
        queued_below(q, i, b),
        q[r].1 != i,
    ensures
        queued_below(q.remove(r), i, b),
{
    let k = choose|k: int| 0 <= k < q.len() && #[trigger] q[k].1 == i && q[k].0 <= b;
    if k < r {
        assert(q.remove(r)[k] == q[k]);
    } else {
        assert(q.remove(r)[k - 1] == q[k]);
    }
}

proof fn lemma_queued_below_push(q: Seq<(u128, usize)>, e: (u128, usize), i: int, b: int)
    requires
        queued_below(q, i, b) || (e.1 == i && e.0 <= b),
    ensures
        queued_below(q.push(e), i, b),
{
    if e.1 == i && e.0 <= b {
        assert(q.push(e)[q.len() as int] == e);
    } else {
        let k = choose|k: int| 0 <= k < q.len() && #[trigger] q[k].1 == i && q[k].0 <= b;
        assert(q.push(e)[k] == q[k]);
    }
}

/// One step changes the Manhattan distance to a cell by at most two.
proof fn lemma_adjacent_estimate(a: HexagonPos, b: HexagonPos, to: HexagonPos)
    requires
        in_grid(a),
        adjacent(a, b),
    ensures
        spec_manhattan_dist(a, to) <= spec_manhattan_dist(b, to) + 2,
{
    let i = choose|i: int| 0 <= i < 6 && spec_neighbours(a)[i] == b;
    assert(spec_neighbours(a)[i] == neighbour_at(a, i));
}

/// From a node reached within its number of steps to the end of the way, which is not,
/// there is a last node reached in time whose successor is not.
proof fn lemma_gap(costs: Seq<Option<usize>>, ids: Seq<int>, k: int)
    requires
        0 <= k < ids.len(),
        low(costs, ids[k], k),
        !low(costs, ids[ids.len() - 1], ids.len() - 1),
    ensures
        exists|i: int|
            k <= i < ids.len() - 1 && #[trigger] low(costs, ids[i], i) && !low(costs, ids[i + 1], i + 1),
    decreases ids.len() - k,
{
    if low(costs, ids[k + 1], k + 1) {
        lemma_gap(costs, ids, k + 1);
    }
}

/// The nodes along a way from the start to `to`: they begin at the start and end at
/// `to`, each after the first is a province, consecutive ones are neighbours, and the
/// estimate of the node after `k` steps is at most twice the steps left.
proof fn lemma_way_ids(
    provs: Seq<ProvinceEntry>,
    from: HexagonPos,
    to: HexagonPos,
    s: int,
    t: int,
    w: Seq<HexagonPos>,
)
    requires
        is_shortest_way(provs, from, to, w),
        0 <= s <= provs.len(),
        node_pos(provs, from, s) == from,
        0 <= t < provs.len(),
        provs[t].pos == to,
        distinct_positions(provs),
        in_grid(from),
        all_in_grid(provs),
    ensures
        ({
            let ids = way_ids(provs, s, w);
            let d = w.len() as int;
            &&& ids.len() == d + 1
            &&& ids[0] == s
            &&& ids[d] == t
            &&& forall|k: int|
                1 <= k <= d ==> 0 <= #[trigger] ids[k] < provs.len() && provs[ids[k]].pos == w[d - k]
            &&& forall|k: int|
                0 <= k < d ==> adjacent(
                    node_pos(provs, from, #[trigger] ids[k]),
                    node_pos(provs, from, ids[k + 1]),
                )
            &&& forall|k: int| 0 <= k <= d ==> estimate(provs, from, to, #[trigger] ids[k]) <= 2 * (d - k)
        }),
        way_facts(provs, from, to, s, t, way_ids(provs, s, w), w.len() as int),
{
    reveal(way_facts);
    reveal(is_shortest_way);
    let ids = way_ids(provs, s, w);
    let d = w.len() as int;
    assert forall|k: int| 1 <= k <= d implies 0 <= #[trigger] ids[k] < provs.len() && provs[ids[k]].pos
        == w[d - k] by {
        assert(has_pos(provs, w[d - k]));
    }
    assert(ids[d] == t) by {
        assert(provs[ids[d]].pos == to);
    }
    assert forall|k: int| 0 <= k < d implies adjacent(
        node_pos(provs, from, #[trigger] ids[k]),
        node_pos(provs, from, ids[k + 1]),
    ) by {
        assert(provs[ids[k + 1]].pos == w[d - k - 1]);
        if k > 0 {
            assert(provs[ids[k]].pos == w[d - k]);
            assert(adjacent(w[(d - k - 1) + 1], w[d - k - 1]));
        }
    }
    lemma_way_estimates(provs, from, to, ids, 0);
}

proof fn lemma_way_estimates(
    provs: Seq<ProvinceEntry>,
    from: HexagonPos,
    to: HexagonPos,
    ids: Seq<int>,
    k: int,
)
    requires
        ids.len() >= 1,
        0 <= k < ids.len(),
        node_pos(provs, from, ids[ids.len() - 1]) == to,
        forall|j: int| 0 <= j < ids.len() ==> in_grid(node_pos(provs, from, #[trigger] ids[j])),
        forall|j: int|
            0 <= j < ids.len() - 1 ==> adjacent(
                node_pos(provs, from, #[trigger] ids[j]),
                node_pos(provs, from, ids[j + 1]),
            ),
    ensures
        forall|j: int| k <= j < ids.len() ==> estimate(provs, from, to, #[trigger] ids[j]) <= 2 * (ids.len() - 1 - j),
    decreases ids.len() - k,
{
    if k < ids.len() - 1 {
        lemma_way_estimates(provs, from, to, ids, k + 1);
        lemma_adjacent_estimate(node_pos(provs, from, ids[k]), node_pos(provs, from, ids[k + 1]), to);
    } else {
        lemma_manhattan_dist_metric(to, to);
    }
}

/// Removes an entry of least priority from the queue and returns it.
fn pop_min(queue: &mut Vec<(u128, usize)>) -> (res: (u128, usize))
    requires
        old(queue)@.len() > 0,
    ensures
        exists|r: int|
            0 <= r < old(queue)@.len() && old(queue)@[r] == res && final(queue)@ == old(
                queue,
            )@.remove(r),
        forall|k: int| 0 <= k < old(queue)@.len() ==> res.0 <= #[trigger] old(queue)@[k].0,
{
    let mut best: usize = 0;
    let mut i: usize = 1;
    while i < queue.len()
        invariant
            queue@ == old(queue)@,
            best < queue@.len(),
            1 <= i <= queue@.len(),
            forall|k: int| 0 <= k < i ==> queue@[best as int].0 <= #[trigger] queue@[k].0,
        decreases queue@.len() - i,
    {
        if queue[i].0 < queue[best].0 {
            best = i;
        }
        i += 1;
    }
    queue.remove(best)
}

/// Follows the parents back from `t` to the start node `s`: the way to `to`, listed
/// from its end, no longer than the cost of `t`.
#[verifier::loop_isolation(false)]
fn trace_back(
    map: &WorldMap,
    costs: &Vec<Option<usize>>,
    parent: &Vec<Option<usize>>,
    from: HexagonPos,
    to: HexagonPos,
    s: usize,
    t: usize,
) -> (path: Vec<HexagonPos>)
    requires
        costs@.len() == map@.len() + 1,
        parent@.len() == map@.len() + 1,
        s <= map@.len(),
        t < map@.len(),
        t != s,
        map@[t as int].pos == to,
        node_pos(map@, from, s as int) == from,
        s == map@.len() ==> !has_pos(map@, from),
        distinct_positions(map@),
        costs@[s as int] == Some(0usize),
        parent@[t as int] is Some,
        forall|i: int|
            0 <= i <= map@.len() ==> (#[trigger] parent@[i] is Some <==> (costs@[i] is Some && i != s)),
        forall|i: int|
            0 <= i <= map@.len() && #[trigger] parent@[i] is Some ==> {
                let p = parent@[i]->Some_0 as int;
                &&& i < map@.len()
                &&& p <= map@.len()
                &&& costs@[p] is Some
                &&& cost_of(costs@, p) < cost_of(costs@, i)
                &&& adjacent(node_pos(map@, from, p), node_pos(map@, from, i))
            },
    ensures
        leads_from(map@, from, path@),
        path@[0] == to,
        path@.no_duplicates(),
        !path@.contains(from),
        path@.len() <= cost_of(costs@, t as int),
{
    let ghost m = map@;
    let n = map.len();
    let mut path: Vec<HexagonPos> = Vec::new();
    path.push(to);
    let mut c = parent[t].unwrap();
    let ghost mut ids: Seq<usize> = seq![t];
    while c != s
        invariant
            c <= n,
            costs@[c as int] is Some,
            path@.len() == ids.len(),
            path@.len() >= 1,
            path@.len() + cost_of(costs@, c as int) <= cost_of(costs@, t as int),
            path@[0] == to,
            forall|i: int|
                0 <= i < ids.len() ==> {
                    &&& #[trigger] ids[i] < n
                    &&& m[ids[i] as int].pos == path@[i]
                    &&& costs@[ids[i] as int] is Some
                    &&& cost_of(costs@, ids[i] as int) > cost_of(costs@, c as int)
                },
            ids.no_duplicates(),
            forall|i: int| 0 <= i < path@.len() - 1 ==> adjacent(#[trigger] path@[i + 1], path@[i]),
            adjacent(node_pos(m, from, c as int), path@.last()),
        decreases cost_of(costs@, c as int),
    {
        assert(parent@[c as int] is Some);
        let ghost old_path = path@;
        let ghost old_ids = ids;
        path.push(map.province(c).pos);
        proof {
            ids = ids.push(c);
            assert forall|i: int| 0 <= i < path@.len() - 1 implies adjacent(
                #[trigger] path@[i + 1],
                path@[i],
            ) by {
                if i < old_path.len() - 1 {
                    assert(path@[i + 1] == old_path[i + 1]);
                }
            }
            assert forall|a: int, b: int|
                0 <= a < ids.len() && 0 <= b < ids.len() && a != b implies ids[a] != ids[b] by {
                if a < old_ids.len() && b < old_ids.len() {
                } else if a < old_ids.len() {
                    assert(cost_of(costs@, old_ids[a] as int) > cost_of(costs@, c as int));
                } else {
                    assert(cost_of(costs@, old_ids[b] as int) > cost_of(costs@, c as int));
                }
            }
        }
        c = parent[c].unwrap();
    }
    proof {
        let p = path@;
        assert forall|i: int| 0 <= i < p.len() implies has_pos(m, #[trigger] p[i]) by {
            assert(m[ids[i] as int].pos == p[i]);
        }
        assert forall|a: int, b: int|
            0 <= a < p.len() && 0 <= b < p.len() && a != b implies p[a] != p[b] by {
            assert(ids[a] != ids[b]);
            assert(m[ids[a] as int].pos == p[a]);
            assert(m[ids[b] as int].pos == p[b]);
        }
        if p.contains(from) {
            let i = choose|i: int| 0 <= i < p.len() && p[i] == from;
            assert(m[ids[i] as int].pos == from);
            assert(has_pos(m, from));
            assert(s < n);
            assert(cost_of(costs@, ids[i] as int) > cost_of(costs@, s as int));
        }
        assert(leads_from(m, from, p));
    }
    path
}

/// Looks for a way for a division at `from` to reach the province at `to`, with an A*
/// search over the provinces of `map`: each step costs one, and the Manhattan
/// distance to `to` guides the order in which cells are expanded. The search stops
/// as soon as `to` is reached from an expanded cell.
///
/// The way is returned from its end back to its first step: `to` first, the
/// neighbour of `from` last. There is none when `from` is `to`, or when no way
/// through the provinces joins them.
#[verifier::loop_isolation(false)]
#[verifier::rlimit(40)]
pub fn calculate_path(map: &WorldMap, from: HexagonPos, to: HexagonPos) -> (res: Option<
    Vec<HexagonPos>,
>)
    requires
        map.wf(),
        in_grid(from),
        all_in_grid(map@),
        map@.len() < usize::MAX,
    ensures
        res is Some <==> from != to && reachable(map@, from, to),
        res matches Some(path) ==> {
            &&& leads_from(map@, from, path@)
            &&& path@[0] == to
            &&& path@.no_duplicates()
            &&& !path@.contains(from)
        },
        res matches Some(path) ==> forall|u: Seq<HexagonPos>|
            #[trigger] leads_from(map@, from, u) && u[0] == to ==> path@.len() < 2 * u.len(),
{
    proof {
        map.lemma_wf_distinct();
    }
    let ghost m = map@;
    if from == to {
        return None;
    }
    let n = map.len();
    let t = match map.find(to) {
        Some(t) => t,
        None => {
            proof {
                if reachable(m, from, to) {
                    let p = choose|p: Seq<HexagonPos>| #[trigger] leads_from(m, from, p) && p[0] == to;
                    assert(has_pos(m, p[0]));
                }
            }
            return None;
        },
    };
    let s = match map.find(from) {
        Some(i) => i,
        None => n,
    };
    assert(node_pos(m, from, s as int) == from);
    let ghost ok = reachable(m, from, to);
    let ghost w: Seq<HexagonPos> = choose|v: Seq<HexagonPos>| is_shortest_way(m, from, to, v);
    let ghost way = way_ids(m, s as int, w);
    let ghost d: int = w.len() as int;
    proof {
        if ok {
            let p = choose|p: Seq<HexagonPos>| #[trigger] leads_from(m, from, p) && p[0] == to;
            lemma_shortest_way_exists(m, from, to, p);
            lemma_way_ids(m, from, to, s as int, t as int, w);
            lemma_way_first(m, from, to, s as int, t as int, way, d);
        }
    }
    let mut costs: Vec<Option<usize>> = Vec::new();
    let mut parent: Vec<Option<usize>> = Vec::new();
    let mut i: usize = 0;
    while i <= n
        invariant
            i <= n + 1,
            costs@.len() == i,
            parent@.len() == i,
            forall|k: int| 0 <= k < i ==> costs@[k] is None && parent@[k] is None,
        decreases n + 1 - i,
    {
        costs.push(None);
        parent.push(None);
        i += 1;
    }
    proof {
        lemma_count_update(costs@, s as int, 0);
        lemma_count_none(costs@);
    }
    costs.set(s, Some(0));
    let mut queue: Vec<(u128, usize)> = Vec::new();
    queue.push((from.manhattan_dist(to) as u128, s));
    proof {
        assert(queue@[0].1 == s);
        assert(prio_ok(m, from, to, costs@, queue@)) by {
            reveal(prio_ok);
        }
        if ok {
            lemma_track_start(m, from, to, s as int, t as int, way, d, costs@, queue@);
        }
    }
    let ghost bound: nat = (n + 2) as nat;
    proof {
        assert(queue@[0].1 == s);
    }
    loop
        invariant
            costs@.len() == n + 1,
            parent@.len() == n + 1,
            s <= n,
            t < n,
            t != s,
            m[t as int].pos == to,
            node_pos(m, from, s as int) == from,
            s == n ==> !has_pos(m, from),
            costs@[s as int] == Some(0usize),
            count_some(costs@) <= n + 1,
            forall|i: int| 0 <= i <= n ==> (#[trigger] costs@[i] matches Some(v) ==> v < count_some(costs@)),
            forall|i: int|
                0 <= i <= n ==> (#[trigger] parent@[i] is Some <==> (costs@[i] is Some && i != s)),
            forall|i: int|
                0 <= i <= n && #[trigger] parent@[i] is Some ==> {
                    let p = parent@[i]->Some_0 as int;
                    &&& i < n
                    &&& p <= n
                    &&& costs@[p] is Some
                    &&& cost_of(costs@, p) < cost_of(costs@, i)
                    &&& adjacent(node_pos(m, from, p), node_pos(m, from, i))
                },
            forall|k: int|
                0 <= k < queue@.len() ==> {
                    &&& (#[trigger] queue@[k]).1 <= n
                    &&& costs@[queue@[k].1 as int] is Some
                },
            forall|i: int|
                0 <= i <= n && #[trigger] costs@[i] is Some ==> queued(queue@, i) || closed_at(
                    m,
                    from,
                    costs@,
                    i,
                ),
            costs@[t as int] is None,
            prio_ok(m, from, to, costs@, queue@),
            ok ==> way_facts(m, from, to, s as int, t as int, way, d),
            ok ==> way_tracked(m, from, to, costs@, queue@, way, -1),
            ok ==> low(costs@, way[1], 1) || forall|kk: int|
                0 <= kk < queue@.len() ==> (#[trigger] queue@[kk]).1 == s,
        decreases potential(costs@, bound), queue@.len(),
    {
        if queue.len() == 0 {
            proof {
                if reachable(m, from, to) {
                    let p = choose|p: Seq<HexagonPos>| #[trigger] leads_from(m, from, p) && p[0] == to;
                    assert forall|v: int| 0 <= v <= m.len() && costs@[v] is Some implies closed_at(
                        m,
                        from,
                        costs@,
                        v,
                    ) by {
                        assert(costs@[v] is Some);
                    }
                    lemma_way_costed(m, from, costs@, s as int, p, 0);
                }
            }
            return None;
        }
        let ghost phi0 = potential(costs@, bound);
        let ghost q0 = queue@;
        let popped = pop_min(&mut queue);
        let cur = popped.1;
        let ghost q1 = queue@;
        proof {
            let r = choose|r: int| 0 <= r < q0.len() && q0[r] == popped && q1 == q0.remove(r);
            assert(q0[r].1 == cur);
            assert forall|i: int|
                0 <= i <= n && #[trigger] costs@[i] is Some && i != cur implies queued(q1, i)
                || closed_at(m, from, costs@, i) by {
                if queued(q0, i) {
                    lemma_queued_remove(q0, r, i);
                }
            }
            assert forall|k: int| 0 <= k < q1.len() implies {
                &&& (#[trigger] q1[k]).1 <= n
                &&& costs@[q1[k].1 as int] is Some
            } by {
                if k < r {
                    assert(q1[k] == q0[k]);
                } else {
                    assert(q1[k] == q0[k + 1]);
                }
            }
            lemma_prio_remove(m, from, to, costs@, q0, r);
            if ok {
                let sd = low(costs@, way[1], 1);
                if !sd {
                    assert(q0[r].1 == s);
                }
                lemma_track_pop(m, from, to, s as int, t as int, way, d, costs@, q0, r, sd);
                lemma_track_remove(m, from, to, s as int, t as int, d, way, costs@, q0, r);
            }
        }
        if cur == t {
            return None;
        }
        let cur_pos = if cur < n {
            map.province(cur).pos
        } else {
            from
        };
        let gc = costs[cur].unwrap();
        let nbs = cur_pos.neighbours();
        let mut k: usize = 0;
        #[verifier::loop_isolation(true)]
        while k < 6
            invariant
                k <= 6,
                m == map@,
                n == m.len(),
                n < usize::MAX,
                map.wf(),
                distinct_positions(m),
                all_in_grid(m),
                t < n,
                s <= n,
                bound == n + 2,
                costs@.len() == n + 1,
                parent@.len() == n + 1,
                cur <= n,
                cur_pos == node_pos(m, from, cur as int),
                nbs@ == spec_neighbours(cur_pos),
                costs@[cur as int] == Some(gc),
                costs@[s as int] == Some(0usize),
                count_some(costs@) <= n + 1,
                forall|i: int|
                    0 <= i <= n ==> (#[trigger] costs@[i] matches Some(v) ==> v < count_some(
                        costs@,
                    )),
                forall|i: int|
                    0 <= i <= n ==> (#[trigger] parent@[i] is Some <==> (costs@[i] is Some && i
                        != s)),
                forall|i: int|
                    0 <= i <= n && #[trigger] parent@[i] is Some ==> {
                        let p = parent@[i]->Some_0 as int;
                        &&& i < n
                        &&& p <= n
                        &&& costs@[p] is Some
                        &&& cost_of(costs@, p) < cost_of(costs@, i)
                        &&& adjacent(node_pos(m, from, p), node_pos(m, from, i))
                    },
                forall|kk: int|
                    0 <= kk < queue@.len() ==> {
                        &&& (#[trigger] queue@[kk]).1 <= n
                        &&& costs@[queue@[kk].1 as int] is Some
                    },
                forall|i: int|
                    0 <= i <= n && #[trigger] costs@[i] is Some && i != cur ==> queued(queue@, i)
                        || closed_at(m, from, costs@, i),
                forall|kk: int, j: int|
                    0 <= kk < k && 0 <= j < n && m[j].pos == #[trigger] spec_neighbours(cur_pos)[kk]
                        ==> #[trigger] costs@[j] is Some && cost_of(costs@, j) <= gc + 1,
                prio_ok(m, from, to, costs@, queue@),
                ok ==> way_facts(m, from, to, s as int, t as int, way, d),
                ok ==> way_tracked(m, from, to, costs@, queue@, way, cur as int),
                ok ==> gc + estimate(m, from, to, cur as int) <= 2 * d,
                ok ==> 0 <= way[1] < n,
                ok && cur != s ==> low(costs@, way[1], 1),
                ok && cur != s ==> gc + estimate(m, from, to, cur as int) <= 2 * d - 1,
                costs@[t as int] is Some ==> cost_of(costs@, t as int) == gc + 1,
                queue@.len() >= q1.len(),
                potential(costs@, bound) + (queue@.len() - q1.len()) <= phi0,
            decreases 6 - k,
        {
            let nb = nbs[k];
            assert(nb == spec_neighbours(cur_pos)[k as int]);
            match map.find(nb) {
                Some(j) => {
                    let tent = gc + 1;
                    let better = match costs[j] {
                        None => true,
                        Some(c) => tent < c,
                    };
                    if better {
                        let ghost old_costs = costs@;
                        let ghost old_queue = queue@;
                        let h = nb.manhattan_dist(to);
                        let entry = (tent as u128 + h as u128, j);
                        proof {
                            assert(node_pos(m, from, j as int) == nb);
                            lemma_prio_relax(m, from, to, costs@, queue@, j as int, tent, entry);
                            if ok {
                                lemma_track_relax(
                                    m,
                                    from,
                                    to,
                                    s as int,
                                    t as int,
                                    d,
                                    way,
                                    cur as int,
                                    costs@,
                                    queue@,
                                    j as int,
                                    tent,
                                    entry,
                                );
                            }
                            lemma_count_update(costs@, j as int, tent);
                            lemma_potential_update(costs@, j as int, Some(tent), bound);
                            lemma_count_bound(costs@.update(j as int, Some(tent)));
                        }
                        costs.set(j, Some(tent));
                        parent.set(j, Some(cur));
                        queue.push(entry);
                        proof {
                            assert(adjacent(cur_pos, nb));
                            assert forall|i: int|
                                0 <= i <= n && #[trigger] costs@[i] is Some && i != cur implies queued(
                                    queue@,
                                    i,
                                ) || closed_at(m, from, costs@, i) by {
                                if i == j {
                                    lemma_queued_push(old_queue, entry, i);
                                } else {
                                    assert(costs@[i] == old_costs[i]);
                                    if queued(old_queue, i) {
                                        lemma_queued_push(old_queue, entry, i);
                                    } else {
                                        assert(closed_at(m, from, old_costs, i));
                                        assert forall|jj: int|
                                            0 <= jj < m.len() && #[trigger] adjacent(
                                                node_pos(m, from, i),
                                                m[jj].pos,
                                            ) implies costs@[jj] is Some by {
                                            assert(old_costs[jj] is Some);
                                        }
                                    }
                                }
                            }
                            assert forall|i: int|
                                0 <= i <= n && #[trigger] parent@[i] is Some implies {
                                    let p = parent@[i]->Some_0 as int;
                                    &&& i < n
                                    &&& p <= n
                                    &&& costs@[p] is Some
                                    &&& cost_of(costs@, p) < cost_of(costs@, i)
                                    &&& adjacent(node_pos(m, from, p), node_pos(m, from, i))
                                } by {
                            }
                        }
                    }
                },
                None => {},
            }
            k += 1;
        }
        proof {
            assert(closed_at(m, from, costs@, cur as int)) by {
                assert forall|j: int|
                    0 <= j < m.len() && #[trigger] adjacent(node_pos(m, from, cur as int), m[j].pos)
                        implies costs@[j] is Some by {
                    let kk = choose|kk: int| 0 <= kk < 6 && spec_neighbours(cur_pos)[kk] == m[j].pos;
                    assert(spec_neighbours(cur_pos)[kk] == m[j].pos);
                }
            }
            if ok {
                assert forall|j: int|
                    0 <= j < m.len() && adjacent(node_pos(m, from, cur as int), m[j].pos) implies low(
                    costs@,
                    j,
                    gc + 1,
                ) by {
                    let kk = choose|kk: int| 0 <= kk < 6 && spec_neighbours(cur_pos)[kk] == m[j].pos;
                    assert(spec_neighbours(cur_pos)[kk] == m[j].pos);
                    assert(costs@[j] is Some);
                }
                lemma_track_expanded(m, from, to, s as int, t as int, way, d, costs@, queue@, cur as int, gc);
                if cur == s {
                    assert(adjacent(node_pos(m, from, cur as int), m[way[1]].pos));
                    assert(low(costs@, way[1], 1));
                }
            }
        }
        if parent[t].is_some() {
            let path = trace_back(map, &costs, &parent, from, to, s, t);
            proof {
                assert(leads_from(m, from, path@));
                assert(ok);
                if cur != s {
                    lemma_found_length(
                        m,
                        from,
                        to,
                        cur as int,
                        t as int,
                        gc as int,
                        path@.len() as int,
                        2 * d - 1,
                    );
                }
                lemma_within_twice_shortest(m, from, to, w, path@.len() as int);
            }
            return Some(path);
        }
        proof {
            if queue@.len() == q1.len() {
                assert(q1.len() < q0.len());
            }
        }
    }
}

} // verus!
