//! Sequential shortest-path relaxation over a weighted graph, driven by a
//! single max-extraction queue whose reversed item order hands out the
//! closest pending vertex first.
//!
//! The contracts mirror the breadth-first worker: queued items are justified
//! by the table, the table only improves and never invents a distance, and a
//! drained queue leaves every reached vertex relaxation-closed.

use vstd::prelude::*;
use vstd::multiset::Multiset;
use crate::graph::{WghGraph, INF, sum_dist, lemma_sum_dist_le, lemma_sum_dist_lt};
use crate::multiqueue::lemma_remove_len;
use crate::subqueue::SubQueue;
use crate::order::{Priority, ValType};

verus! {

/// Every queued item names a vertex whose recorded distance is at most the
/// item's distance.
pub open spec fn wgh_queue_ok(n: int, dist: Seq<usize>, q: Multiset<ValType>) -> bool {
    forall|x: ValType| #[trigger] q.count(x) > 0 ==> x.1 < n && dist[x.1 as int] <= x.0
}

/// No out-edge of `u` can lower its target's entry below `u`'s entry plus the
/// edge weight.
pub open spec fn wgh_edges_relaxed(g: WghGraph, dist: Seq<usize>, u: int) -> bool {
    forall|i: int|
        g.nodes@[u] <= i < g.nodes@[u + 1] ==> dist[(#[trigger] g.edges@[i]).target as int]
            <= dist[u] + g.edges@[i].weight
}

/// Every reached vertex has all its out-edges relaxed or an item at its
/// current distance still queued.
pub open spec fn wgh_closed_or_pending(g: WghGraph, dist: Seq<usize>, q: Multiset<ValType>) -> bool {
    forall|u: int|
        0 <= u < g.n && #[trigger] dist[u] < INF ==> wgh_edges_relaxed(g, dist, u) || q.count(
            ValType(dist[u], u as usize),
        ) > 0
}

/// Every reached vertex is a source (distance zero) or is witnessed by an
/// in-edge whose source plus weight covers it.
pub open spec fn wgh_supported(g: WghGraph, dist: Seq<usize>) -> bool {
    forall|v: int|
        0 <= v < g.n && #[trigger] dist[v] < INF ==> dist[v] == 0 || exists|u: int, i: int|
            #![trigger g.nodes@[u], g.edges@[i]]
            {
                &&& 0 <= u < g.n
                &&& g.nodes@[u] <= i < g.nodes@[u + 1]
                &&& g.edges@[i].target == v
                &&& dist[u] + g.edges@[i].weight <= dist[v]
            }
}

/// What the relaxation loop maintains of its state.
pub open spec fn wgh_search_inv(g: WghGraph, dist: Seq<usize>, q: Multiset<ValType>) -> bool {
    &&& dist.len() == g.n
    &&& wgh_queue_ok(g.n as int, dist, q)
    &&& wgh_closed_or_pending(g, dist, q)
    &&& wgh_supported(g, dist)
}

/// Mark the source: give it distance zero in an untouched table and queue its
/// item, establishing the relaxation loop's invariant.
pub fn seed_source(
    source: usize,
    graph: &WghGraph,
    dist: &mut Vec<usize>,
    pq: &mut SubQueue<ValType>,
)
    requires
        old(pq)@.len() == 0,
        source < graph.n,
        old(dist)@.len() == graph.n,
        forall|v: int| 0 <= v < graph.n ==> old(dist)@[v] == INF,
    ensures
        final(dist)@ == old(dist)@.update(source as int, 0usize),
        final(pq)@ == old(pq)@.push(ValType(0, source)),
        wgh_search_inv(*graph, final(dist)@, final(pq).contents()),
{
    dist.set(source, 0);
    pq.push_item(ValType(0, source));
    proof {
        broadcast use vstd::seq_lib::group_to_multiset_ensures;

        let v0 = ValType(0, source);
        assert forall|x: ValType| #[trigger] pq.contents().count(x) > 0 implies x.1 < graph.n
            && dist@[x.1 as int] <= x.0 by {
            assert(old(pq).contents().len() == 0);
            assert(old(pq).contents().count(x) == 0);
            assert(pq.contents().count(x) == old(pq).contents().count(x) + (if x == v0 {
                1int
            } else {
                0int
            }));
        }
        assert forall|u: int| 0 <= u < graph.n && #[trigger] dist@[u] < INF implies
            wgh_edges_relaxed(*graph, dist@, u) || pq.contents().count(
            ValType(dist@[u], u as usize),
        ) > 0 by {
            assert(u == source);
            assert(pq.contents().count(v0) == old(pq).contents().count(v0) + 1);
        }
        assert(wgh_supported(*graph, dist@));
    }
}

/// Relax every out-edge of a popped `(distance, vertex)` item: lower each
/// target entry that the hop improves and push the corresponding item.
fn relax_out_edges(
    val: ValType,
    graph: &WghGraph,
    dist: &mut Vec<usize>,
    pq: &mut SubQueue<ValType>,
)
    requires
        graph.valid(),
        old(dist)@.len() == graph.n,
        val.1 < graph.n,
        old(dist)@[val.1 as int] <= val.0,
    ensures
        final(dist)@.len() == graph.n,
        forall|t: int| 0 <= t < graph.n ==> #[trigger] final(dist)@[t] <= old(dist)@[t],
        final(dist)@[val.1 as int] == old(dist)@[val.1 as int],
        forall|i: int|
            graph.nodes@[val.1 as int] <= i < graph.nodes@[val.1 as int + 1] ==> final(dist)@[(
            #[trigger] graph.edges@[i]).target as int] <= val.0 + graph.edges@[i].weight,
        forall|t: int|
            0 <= t < graph.n && #[trigger] final(dist)@[t] != old(dist)@[t] ==> (exists|i: int|
                graph.nodes@[val.1 as int] <= i < graph.nodes@[val.1 as int + 1] && (
                #[trigger] graph.edges@[i]).target == t && final(dist)@[t] == val.0 + graph.edges@[
                    i
                ].weight) && final(pq).contents().count(ValType(final(dist)@[t], t as usize)) > 0,
        forall|x: ValType| #[trigger] final(pq).contents().count(x) >= old(pq).contents().count(x),
        forall|x: ValType|
            #[trigger] final(pq).contents().count(x) > old(pq).contents().count(x) ==> x.1
                < graph.n && final(dist)@[x.1 as int] <= x.0,
        final(dist)@ == old(dist)@ ==> final(pq)@ == old(pq)@,
{
    let d = val.0;
    let s = val.1;
    let lo = graph.nodes[s];
    let hi = graph.nodes[s + 1];
    proof {
        crate::graph::lemma_wgh_offsets_monotone(*graph, s as int + 1, graph.n as int);
    }
    let mut i = lo;
    while i < hi
        invariant
            graph.valid(),
            s < graph.n,
            d == val.0,
            lo == graph.nodes@[s as int],
            hi == graph.nodes@[s as int + 1],
            lo <= i <= hi,
            hi <= graph.m,
            dist@.len() == graph.n,
            old(dist)@[s as int] <= d,
            dist@[s as int] == old(dist)@[s as int],
            forall|t: int| 0 <= t < graph.n ==> #[trigger] dist@[t] <= old(dist)@[t],
            forall|j: int|
                lo <= j < i ==> dist@[(#[trigger] graph.edges@[j]).target as int] <= val.0
                    + graph.edges@[j].weight,
            forall|t: int|
                0 <= t < graph.n && #[trigger] dist@[t] != old(dist)@[t] ==> (exists|j: int|
                    lo <= j < i && (#[trigger] graph.edges@[j]).target == t && dist@[t] == val.0
                        + graph.edges@[j].weight) && pq.contents().count(
                    ValType(dist@[t], t as usize),
                ) > 0,
            forall|x: ValType| #[trigger] pq.contents().count(x) >= old(pq).contents().count(x),
            forall|x: ValType|
                #[trigger] pq.contents().count(x) > old(pq).contents().count(x) ==> x.1 < graph.n
                    && dist@[x.1 as int] <= x.0,
            dist@ == old(dist)@ ==> pq@ == old(pq)@,
        decreases hi - i,
    {
        let t = graph.edges[i].target;
        let w = graph.edges[i].weight;
        let ghost dist_before = dist@;
        let ghost q_before = pq.contents();
        let dt = dist[t];
        if dt > d && w < dt - d {
            let nd = d + w;
            dist.set(t, nd);
            pq.push_item(ValType(nd, t));
            proof {
                if t == s {
                    assert(dist_before[s as int] <= d);
                    assert(false);
                }
                let v_new = ValType(nd, t);
                assert forall|x: ValType| #[trigger] pq.contents().count(x) >= old(
                    pq,
                ).contents().count(x) by {
                    assert(pq.contents().count(x) == q_before.count(x) + (if x == v_new {
                        1int
                    } else {
                        0int
                    }));
                }
                assert forall|tt: int|
                    0 <= tt < graph.n && #[trigger] dist@[tt] != old(dist)@[tt] implies (exists|
                    j: int|
                    lo <= j < i + 1 && (#[trigger] graph.edges@[j]).target == tt && dist@[tt]
                        == val.0 + graph.edges@[j].weight) && pq.contents().count(
                    ValType(dist@[tt], tt as usize),
                ) > 0 by {
                    if tt == t {
                        assert(graph.edges@[i as int].target == tt && dist@[tt] == val.0
                            + graph.edges@[i as int].weight);
                        assert(pq.contents().count(v_new) == q_before.count(v_new) + 1);
                    } else {
                        assert(dist_before[tt] != old(dist)@[tt]);
                        let j = choose|j: int|
                            lo <= j < i && (#[trigger] graph.edges@[j]).target == tt
                                && dist_before[tt] == val.0 + graph.edges@[j].weight;
                        assert(lo <= j < i + 1 && graph.edges@[j].target == tt && dist@[tt] == val.0
                            + graph.edges@[j].weight);
                        assert(ValType(dist@[tt], tt as usize) != v_new);
                        assert(pq.contents().count(ValType(dist@[tt], tt as usize)) >=
                            q_before.count(ValType(dist_before[tt], tt as usize)));
                    }
                }
            }
        } else {
            proof {
                assert(dist@[t as int] <= val.0 + graph.edges@[i as int].weight);
            }
        }
        proof {
            assert forall|j: int|
                lo <= j < i + 1 implies dist@[(#[trigger] graph.edges@[j]).target as int] <= val.0
                + graph.edges@[j].weight by {
                if j < i {
                    assert(dist_before[(graph.edges@[j]).target as int] <= val.0 + graph.edges@[
                        j
                    ].weight);
                    assert(dist@[(graph.edges@[j]).target as int] <= dist_before[(graph.edges@[
                        j
                    ]).target as int]);
                }
            }
        }
        i = i + 1;
    }
}

/// The closed-or-pending disjunction survives one handled item.
#[verifier::rlimit(100)]
proof fn lemma_wgh_step_closed(
    g: WghGraph,
    val: ValType,
    dist_prev: Seq<usize>,
    q_prev: Multiset<ValType>,
    q_mid: Multiset<ValType>,
    dist: Seq<usize>,
    q: Multiset<ValType>,
)
    requires
        g.valid(),
        dist_prev.len() == g.n,
        wgh_closed_or_pending(g, dist_prev, q_prev),
        wgh_queue_ok(g.n as int, dist_prev, q_prev),
        q_prev.count(val) > 0,
        q_mid == q_prev.remove(val),
        dist.len() == g.n,
        forall|t: int| 0 <= t < g.n ==> #[trigger] dist[t] <= dist_prev[t],
        dist[val.1 as int] == dist_prev[val.1 as int],
        forall|i: int|
            g.nodes@[val.1 as int] <= i < g.nodes@[val.1 as int + 1] ==> dist[(#[trigger] g.edges@[
                i
            ]).target as int] <= val.0 + g.edges@[i].weight,
        forall|t: int|
            0 <= t < g.n && #[trigger] dist[t] != dist_prev[t] ==> q.count(
                ValType(dist[t], t as usize),
            ) > 0,
        forall|x: ValType| #[trigger] q.count(x) >= q_mid.count(x),
    ensures
        wgh_closed_or_pending(g, dist, q),
{
    let s = val.1 as int;
    let d = val.0;
    assert(0 <= s < g.n && dist_prev[s] <= d);
    assert forall|u: int| 0 <= u < g.n && #[trigger] dist[u] < INF implies wgh_edges_relaxed(
        g,
        dist,
        u,
    ) || q.count(ValType(dist[u], u as usize)) > 0 by {
        if dist[u] != dist_prev[u] {
            // freshly improved: its new item is queued
            assert(q.count(ValType(dist[u], u as usize)) > 0);
        } else if u == s && dist_prev[s] == d {
            // the handled vertex is now relaxed
            assert forall|i: int|
                g.nodes@[u] <= i < g.nodes@[u + 1] implies dist[(#[trigger] g.edges@[
                i]).target as int] <= dist[u] + g.edges@[i].weight by {
                assert(dist[(g.edges@[i]).target as int] <= val.0 + g.edges@[i].weight);
            }
        } else {
            // untouched, or handled through a stale item
            if wgh_edges_relaxed(g, dist_prev, u) {
                assert forall|i: int|
                    g.nodes@[u] <= i < g.nodes@[u + 1] implies dist[(#[trigger] g.edges@[
                    i]).target as int] <= dist[u] + g.edges@[i].weight by {
                    let t = g.edges@[i].target as int;
                    assert(g.nodes@[u + 1] <= g.m) by {
                        crate::graph::lemma_wgh_offsets_monotone(g, u + 1, g.n as int);
                    }
                    assert(dist[t] <= dist_prev[t]);
                    assert(dist_prev[t] <= dist_prev[u] + g.edges@[i].weight);
                }
            } else {
                let w_u = ValType(dist_prev[u], u as usize);
                assert(q_prev.count(w_u) > 0);
                assert(w_u != val);
                assert(q_mid.count(w_u) > 0);
                assert(q.count(w_u) >= q_mid.count(w_u));
            }
        }
    }
}

/// Recorded distances stay witnessed across one handled item.
#[verifier::rlimit(100)]
proof fn lemma_wgh_step_supported(
    g: WghGraph,
    val: ValType,
    dist_prev: Seq<usize>,
    dist: Seq<usize>,
)
    requires
        g.valid(),
        dist_prev.len() == g.n,
        wgh_supported(g, dist_prev),
        0 <= val.1 < g.n,
        dist_prev[val.1 as int] <= val.0,
        dist.len() == g.n,
        forall|t: int| 0 <= t < g.n ==> #[trigger] dist[t] <= dist_prev[t],
        forall|t: int|
            0 <= t < g.n && #[trigger] dist[t] != dist_prev[t] ==> (exists|i: int|
                g.nodes@[val.1 as int] <= i < g.nodes@[val.1 as int + 1] && (#[trigger] g.edges@[
                    i
                ]).target == t && dist[t] == val.0 + g.edges@[i].weight),
    ensures
        wgh_supported(g, dist),
{
    let s = val.1 as int;
    let d = val.0;
    assert forall|v: int| 0 <= v < g.n && #[trigger] dist[v] < INF implies dist[v] == 0 || (
    exists|u: int, i: int|
        #![trigger g.nodes@[u], g.edges@[i]]
        {
            &&& 0 <= u < g.n
            &&& g.nodes@[u] <= i < g.nodes@[u + 1]
            &&& g.edges@[i].target == v
            &&& dist[u] + g.edges@[i].weight <= dist[v]
        }) by {
        if dist[v] != dist_prev[v] {
            let i = choose|i: int|
                g.nodes@[s] <= i < g.nodes@[s + 1] && (#[trigger] g.edges@[i]).target == v
                    && dist[v] == val.0 + g.edges@[i].weight;
            assert(dist[s] <= dist_prev[s] <= d);
            assert(0 <= s < g.n && g.nodes@[s] <= i < g.nodes@[s + 1] && g.edges@[i].target == v
                && dist[s] + g.edges@[i].weight <= dist[v]);
        } else if dist_prev[v] != 0 {
            let (u, i) = choose|u: int, i: int|
                #![trigger g.nodes@[u], g.edges@[i]]
                {
                    &&& 0 <= u < g.n
                    &&& g.nodes@[u] <= i < g.nodes@[u + 1]
                    &&& g.edges@[i].target == v
                    &&& dist_prev[u] + g.edges@[i].weight <= dist_prev[v]
                };
            assert(dist[u] <= dist_prev[u]);
            assert(0 <= u < g.n && g.nodes@[u] <= i < g.nodes@[u + 1] && g.edges@[i].target == v
                && dist[u] + g.edges@[i].weight <= dist[v]);
        }
    }
}

/// Queued items stay justified across one handled item.
proof fn lemma_wgh_step_queue_ok(
    g: WghGraph,
    val: ValType,
    dist_prev: Seq<usize>,
    q_prev: Multiset<ValType>,
    q_mid: Multiset<ValType>,
    dist: Seq<usize>,
    q: Multiset<ValType>,
)
    requires
        wgh_queue_ok(g.n as int, dist_prev, q_prev),
        q_mid == q_prev.remove(val),
        dist.len() == g.n,
        forall|t: int| 0 <= t < g.n ==> #[trigger] dist[t] <= dist_prev[t],
        forall|x: ValType|
            #[trigger] q.count(x) > q_mid.count(x) ==> x.1 < g.n && dist[x.1 as int] <= x.0,
    ensures
        wgh_queue_ok(g.n as int, dist, q),
{
    assert forall|x: ValType| #[trigger] q.count(x) > 0 implies x.1 < g.n && dist[x.1 as int]
        <= x.0 by {
        if q.count(x) <= q_mid.count(x) {
            assert(q_prev.count(x) > 0);
        }
    }
}

/// The termination measure: a step either strictly lowers the table total or
/// leaves the table alone and shortens the queue.
proof fn lemma_wgh_step_measure(
    val: ValType,
    q_prev: Multiset<ValType>,
    q_mid: Multiset<ValType>,
    dist_prev: Seq<usize>,
    dist: Seq<usize>,
    q: Multiset<ValType>,
)
    requires
        q_prev.count(val) > 0,
        q_mid == q_prev.remove(val),
        dist.len() == dist_prev.len(),
        forall|t: int| 0 <= t < dist.len() ==> #[trigger] dist[t] <= dist_prev[t],
        dist == dist_prev ==> q == q_mid,
    ensures
        sum_dist(dist) <= sum_dist(dist_prev),
        sum_dist(dist) == sum_dist(dist_prev) ==> q.len() < q_prev.len(),
{
    lemma_remove_len(q_prev, val);
    lemma_sum_dist_le(dist, dist_prev);
    if dist == dist_prev {
        assert(q.len() < q_prev.len());
    } else {
        assert(!(dist =~= dist_prev));
        let t = choose|t: int| 0 <= t < dist.len() && dist[t] != dist_prev[t];
        lemma_sum_dist_lt(dist, dist_prev, t);
    }
}

/// Re-establishes the relaxation-loop invariant across one handled item.
#[verifier::rlimit(100)]
proof fn lemma_wgh_step_preserves_inv(
    g: WghGraph,
    val: ValType,
    dist_prev: Seq<usize>,
    q_prev: Multiset<ValType>,
    q_mid: Multiset<ValType>,
    dist: Seq<usize>,
    q: Multiset<ValType>,
)
    requires
        g.valid(),
        wgh_search_inv(g, dist_prev, q_prev),
        q_prev.count(val) > 0,
        q_mid == q_prev.remove(val),
        // what `relax_out_edges` ensures, as facts about the passed values
        dist.len() == g.n,
        forall|t: int| 0 <= t < g.n ==> #[trigger] dist[t] <= dist_prev[t],
        dist[val.1 as int] == dist_prev[val.1 as int],
        forall|i: int|
            g.nodes@[val.1 as int] <= i < g.nodes@[val.1 as int + 1] ==> dist[(#[trigger] g.edges@[
                i
            ]).target as int] <= val.0 + g.edges@[i].weight,
        forall|t: int|
            0 <= t < g.n && #[trigger] dist[t] != dist_prev[t] ==> (exists|i: int|
                g.nodes@[val.1 as int] <= i < g.nodes@[val.1 as int + 1] && (#[trigger] g.edges@[
                    i
                ]).target == t && dist[t] == val.0 + g.edges@[i].weight) && q.count(
                ValType(dist[t], t as usize),
            ) > 0,
        forall|x: ValType| #[trigger] q.count(x) >= q_mid.count(x),
        forall|x: ValType|
            #[trigger] q.count(x) > q_mid.count(x) ==> x.1 < g.n && dist[x.1 as int] <= x.0,
        dist == dist_prev ==> q == q_mid,
    ensures
        wgh_search_inv(g, dist, q),
        sum_dist(dist) <= sum_dist(dist_prev),
        sum_dist(dist) == sum_dist(dist_prev) ==> q.len() < q_prev.len(),
{
    assert(0 <= val.1 < g.n && dist_prev[val.1 as int] <= val.0);
    lemma_wgh_step_queue_ok(g, val, dist_prev, q_prev, q_mid, dist, q);
    lemma_wgh_step_closed(g, val, dist_prev, q_prev, q_mid, dist, q);
    lemma_wgh_step_supported(g, val, dist_prev, dist);
    lemma_wgh_step_measure(val, q_prev, q_mid, dist_prev, dist, q);
}

/// Drain the queue, relaxing the out-edges of each popped item.  On return
/// the queue is empty, the table has only improved, every reached vertex is
/// relaxation-closed, and no recorded distance is invented.
#[verifier::rlimit(100)]
pub fn dijkstra(graph: &WghGraph, pq: &mut SubQueue<ValType>, dist: &mut Vec<usize>)
    requires
        graph.valid(),
        wgh_search_inv(*graph, old(dist)@, old(pq).contents()),
    ensures
        final(pq)@.len() == 0,
        final(dist)@.len() == graph.n,
        forall|v: int| 0 <= v < graph.n ==> #[trigger] final(dist)@[v] <= old(dist)@[v],
        forall|u: int|
            0 <= u < graph.n && #[trigger] final(dist)@[u] < INF ==> wgh_edges_relaxed(
                *graph,
                final(dist)@,
                u,
            ),
        wgh_supported(*graph, final(dist)@),
{
    loop
        invariant
            graph.valid(),
            wgh_search_inv(*graph, dist@, pq.contents()),
            forall|v: int| 0 <= v < graph.n ==> #[trigger] dist@[v] <= old(dist)@[v],
        ensures
            pq@.len() == 0,
        decreases sum_dist(dist@), pq.contents().len(),
    {
        let ghost dist_prev = dist@;
        let ghost q_prev = pq.contents();
        match pq.pop_max() {
            Some(val) => {
                let ghost q_mid = pq.contents();
                proof {
                    assert(q_prev.count(val) > 0);
                }
                relax_out_edges(val, graph, dist, pq);
                proof {
                    lemma_wgh_step_preserves_inv(
                        *graph,
                        val,
                        dist_prev,
                        q_prev,
                        q_mid,
                        dist@,
                        pq.contents(),
                    );
                }
            },
            None => {
                break ;
            },
        }
    }
    proof {
        broadcast use vstd::seq_lib::group_to_multiset_ensures;

        assert(pq.contents().len() == 0);
        assert forall|u: int|
            0 <= u < graph.n && #[trigger] dist@[u] < INF implies wgh_edges_relaxed(
            *graph,
            dist@,
            u,
        ) by {
            assert(pq.contents().count(ValType(dist@[u], u as usize)) == 0);
        }
    }
}

/// Whether a walk from `src` of at most `k` hops and total weight at most
/// `c` ends at `v`.
pub open spec fn reaches_within(g: WghGraph, src: int, v: int, c: int, k: nat) -> bool
    decreases k,
{
    (v == src && c >= 0) || (k > 0 && exists|u: int, i: int|
        #![trigger g.nodes@[u], g.edges@[i]]
        {
            &&& 0 <= u < g.n
            &&& g.nodes@[u] <= i < g.nodes@[u + 1]
            &&& g.edges@[i].target == v
            &&& reaches_within(g, src, u, c - g.edges@[i].weight, (k - 1) as nat)
        })
}

/// Optimality: in a relaxation-closed table whose source reads zero, no walk
/// undercuts a recorded distance — whatever order the queue handed the items
/// out in, `dijkstra` leaves a table that no path beats.
pub proof fn lemma_no_better_walk(
    g: WghGraph,
    src: int,
    dist: Seq<usize>,
    v: int,
    c: int,
    k: nat,
)
    requires
        g.valid(),
        dist.len() == g.n,
        0 <= src < g.n,
        dist[src] == 0,
        forall|u: int| 0 <= u < g.n && #[trigger] dist[u] < INF ==> wgh_edges_relaxed(g, dist, u),
        0 <= v < g.n,
        reaches_within(g, src, v, c, k),
        c < INF,
    ensures
        dist[v] <= c,
    decreases k,
{
    if v == src && c >= 0 {
        assert(dist[v] == 0);
    } else {
        let (u, i) = choose|u: int, i: int|
            #![trigger g.nodes@[u], g.edges@[i]]
            {
                &&& 0 <= u < g.n
                &&& g.nodes@[u] <= i < g.nodes@[u + 1]
                &&& g.edges@[i].target == v
                &&& reaches_within(g, src, u, c - g.edges@[i].weight, (k - 1) as nat)
            };
        lemma_no_better_walk(g, src, dist, u, c - g.edges@[i].weight, (k - 1) as nat);
        assert(dist[u] < INF);
        assert(dist[(g.edges@[i]).target as int] <= dist[u] + g.edges@[i].weight);
    }
}

/// A walk within one weight and hop budget fits any larger budget.
proof fn lemma_reaches_within_monotone(
    g: WghGraph,
    src: int,
    v: int,
    c1: int,
    k1: nat,
    c2: int,
    k2: nat,
)
    requires
        reaches_within(g, src, v, c1, k1),
        c1 <= c2,
        k1 <= k2,
    ensures
        reaches_within(g, src, v, c2, k2),
    decreases k1,
{
    if !(v == src && c1 >= 0) {
        let (u, i) = choose|u: int, i: int|
            #![trigger g.nodes@[u], g.edges@[i]]
            {
                &&& 0 <= u < g.n
                &&& g.nodes@[u] <= i < g.nodes@[u + 1]
                &&& g.edges@[i].target == v
                &&& reaches_within(g, src, u, c1 - g.edges@[i].weight, (k1 - 1) as nat)
            };
        lemma_reaches_within_monotone(
            g,
            src,
            u,
            c1 - g.edges@[i].weight,
            (k1 - 1) as nat,
            c2 - g.edges@[i].weight,
            (k2 - 1) as nat,
        );
        assert(0 <= u < g.n && g.nodes@[u] <= i < g.nodes@[u + 1] && g.edges@[i].target == v
            && reaches_within(g, src, u, c2 - g.edges@[i].weight, (k2 - 1) as nat));
    }
}

/// With strictly positive weights, a supported table whose only zero entry is
/// the source records only realizable costs: every recorded distance is met
/// by an actual walk of that total weight (and of no more hops than weight).
/// A zero-weight edge voids this reading — two vertices covering one another
/// through zero-weight edges would satisfy the support relation without any
/// walk from the source — so the positive-weight premise is essential.
pub proof fn lemma_wgh_supported_realized(g: WghGraph, src: int, dist: Seq<usize>, v: int)
    requires
        g.valid(),
        dist.len() == g.n,
        0 <= src < g.n,
        wgh_supported(g, dist),
        forall|w: int| 0 <= w < g.n && #[trigger] dist[w] == 0 ==> w == src,
        forall|i: int| 0 <= i < g.m ==> (#[trigger] g.edges@[i]).weight >= 1,
        0 <= v < g.n,
        dist[v] < INF,
    ensures
        reaches_within(g, src, v, dist[v] as int, dist[v] as nat),
    decreases dist[v],
{
    if dist[v] == 0 {
        assert(v == src);
    } else {
        let (u, i) = choose|u: int, i: int|
            #![trigger g.nodes@[u], g.edges@[i]]
            {
                &&& 0 <= u < g.n
                &&& g.nodes@[u] <= i < g.nodes@[u + 1]
                &&& g.edges@[i].target == v
                &&& dist[u] + g.edges@[i].weight <= dist[v]
            };
        assert(g.nodes@[u + 1] <= g.m) by {
            crate::graph::lemma_wgh_offsets_monotone(g, u + 1, g.n as int);
        }
        assert(g.edges@[i].weight >= 1);
        assert(dist[u] < dist[v]);
        lemma_wgh_supported_realized(g, src, dist, u);
        lemma_reaches_within_monotone(
            g,
            src,
            u,
            dist[u] as int,
            dist[u] as nat,
            dist[v] - g.edges@[i].weight,
            (dist[v] - 1) as nat,
        );
        assert(0 <= u < g.n && g.nodes@[u] <= i < g.nodes@[u + 1] && g.edges@[i].target == v
            && reaches_within(g, src, u, dist[v] - g.edges@[i].weight, (dist[v] - 1) as nat));
    }
}

} // verus!
