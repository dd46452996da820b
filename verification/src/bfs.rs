//! The breadth-first worker: the relaxation handler run on each popped item
//! and the per-thread work loop that drives it through the MultiQueue and the
//! termination detector.
//!
//! The distance table is shared state in a running phase; a handler claims an
//! improvement of an entry before it pushes the corresponding item, so every
//! queued item names a vertex whose recorded distance is at most the item's.
//! The loop keeps the table sound (every finite distance is witnessed by an
//! in-edge from a closer vertex) and, once the queue drains, relaxation-closed
//! (no edge can lower a recorded distance further).

use vstd::prelude::*;
use vstd::multiset::Multiset;
use crate::graph::{Graph, INF, sum_dist, lemma_sum_dist_le, lemma_sum_dist_lt};
use crate::multiqueue::{MultiQueue, lemma_remove_len};
use crate::order::{Priority, ValType};

verus! {

/// Whether one of the first out-edges of `u` (those with index below `hi`)
/// reaches `t` and would lower its entry in `dist` to `nd`.
pub open spec fn improves(g: Graph, dist: Seq<usize>, u: int, hi: int, t: int, nd: usize) -> bool {
    exists|i: int|
        g.nodes@[u] <= i < hi && (#[trigger] g.edges@[i]).target == t && nd < dist[t]
}

/// The exact table that relaxing the out-edges of `u` below `hi` with the
/// tentative value `nd` produces from `dist0`.
pub open spec fn relaxed_upto(
    g: Graph,
    dist0: Seq<usize>,
    dist: Seq<usize>,
    u: int,
    hi: int,
    nd: usize,
) -> bool {
    &&& dist.len() == dist0.len()
    &&& (forall|t: int|
        0 <= t < dist.len() ==> #[trigger] dist[t] == (if improves(g, dist0, u, hi, t, nd) {
            nd
        } else {
            dist0[t]
        }))
}

/// The exact queue effect of the same relaxation: one pushed item per
/// improved target, nothing else.
pub open spec fn pushed_upto(
    g: Graph,
    dist0: Seq<usize>,
    u: int,
    hi: int,
    nd: usize,
    q0: Multiset<ValType>,
    q: Multiset<ValType>,
) -> bool {
    forall|x: ValType|
        #[trigger] q.count(x) == q0.count(x) + (if x.0 == nd && x.1 < dist0.len() && improves(
            g,
            dist0,
            u,
            hi,
            x.1 as int,
            nd,
        ) {
            1int
        } else {
            0int
        })
}

/// How taking one more edge into account changes `improves`.
proof fn lemma_improves_step(g: Graph, dist0: Seq<usize>, u: int, hi: int, nd: usize)
    requires
        g.nodes@[u] <= hi,
    ensures
        forall|t: int|
            #[trigger] improves(g, dist0, u, hi + 1, t, nd) <==> (improves(g, dist0, u, hi, t, nd)
                || (g.edges@[hi].target == t && nd < dist0[t])),
{
    assert forall|t: int|
        #[trigger] improves(g, dist0, u, hi + 1, t, nd) <==> (improves(g, dist0, u, hi, t, nd) || (
        g.edges@[hi].target == t && nd < dist0[t])) by {
        if improves(g, dist0, u, hi + 1, t, nd) {
            let i = choose|i: int|
                g.nodes@[u] <= i < hi + 1 && (#[trigger] g.edges@[i]).target == t && nd < dist0[t];
            if i < hi {
                assert(improves(g, dist0, u, hi, t, nd));
            }
        }
        if improves(g, dist0, u, hi, t, nd) {
            let i = choose|i: int|
                g.nodes@[u] <= i < hi && (#[trigger] g.edges@[i]).target == t && nd < dist0[t];
            assert(g.nodes@[u] <= i < hi + 1 && g.edges@[i].target == t && nd < dist0[t]);
            assert(improves(g, dist0, u, hi + 1, t, nd));
        }
        if g.edges@[hi].target == t && nd < dist0[t] {
            assert(g.nodes@[u] <= hi < hi + 1 && (g.edges@[hi]).target == t && nd < dist0[t]);
            assert(improves(g, dist0, u, hi + 1, t, nd));
        }
    }
}

/// Every queued item names a vertex whose recorded distance is at most the
/// item's distance, which is below the sentinel.
pub open spec fn queue_ok(n: int, dist: Seq<usize>, q: Multiset<ValType>) -> bool {
    forall|x: ValType|
        #[trigger] q.count(x) > 0 ==> x.1 < n && dist[x.1 as int] <= x.0 && x.0 < INF
}

/// No out-edge of `u` can lower its target's entry below one hop more than
/// `u`'s own entry.
pub open spec fn edges_relaxed(g: Graph, dist: Seq<usize>, u: int) -> bool {
    forall|i: int|
        g.nodes@[u] <= i < g.nodes@[u + 1] ==> dist[(#[trigger] g.edges@[i]).target as int]
            <= dist[u] + 1
}

/// Every reached vertex either has all its out-edges relaxed or still has an
/// item at its current distance queued.  This is what makes a drained queue
/// mean a relaxation-closed table: no push that happened before the drain can
/// be lost.
pub open spec fn closed_or_pending(g: Graph, dist: Seq<usize>, q: Multiset<ValType>) -> bool {
    forall|u: int|
        0 <= u < g.n && #[trigger] dist[u] < INF ==> edges_relaxed(g, dist, u) || q.count(
            ValType(dist[u], u as usize),
        ) > 0
}

/// Every reached vertex other than a source is witnessed by an in-edge from
/// a strictly closer vertex, so recorded distances are never invented.
pub open spec fn supported(g: Graph, dist: Seq<usize>) -> bool {
    forall|v: int|
        0 <= v < g.n && 0 < dist[v] && #[trigger] dist[v] < INF ==> exists|u: int, i: int|
            #![trigger g.nodes@[u], g.edges@[i]]
            {
                &&& 0 <= u < g.n
                &&& g.nodes@[u] <= i < g.nodes@[u + 1]
                &&& g.edges@[i].target == v
                &&& dist[u] < dist[v]
            }
}

/// What the worker loop maintains of the shared state.
pub open spec fn search_inv(g: Graph, dist: Seq<usize>, q: Multiset<ValType>) -> bool {
    &&& dist.len() == g.n
    &&& queue_ok(g.n as int, dist, q)
    &&& closed_or_pending(g, dist, q)
    &&& supported(g, dist)
}

/// Mark the source: give it distance zero in an untouched table and queue its
/// item.  This is the seeding that a phase driver performs before its workers
/// start, and it establishes the worker loop's invariant.
pub fn seed_source(
    source: usize,
    graph: &Graph,
    dist: &mut Vec<usize>,
    pq: &mut MultiQueue<ValType>,
)
    requires
        old(pq).wf(),
        old(pq).contents().len() == 0,
        source < graph.n,
        old(dist)@.len() == graph.n,
        forall|v: int| 0 <= v < graph.n ==> old(dist)@[v] == INF,
    ensures
        final(pq).wf(),
        final(pq).shard_count() == old(pq).shard_count(),
        final(dist)@ == old(dist)@.update(source as int, 0usize),
        final(pq).contents() == old(pq).contents().insert(ValType(0, source)),
        search_inv(*graph, final(dist)@, final(pq).contents()),
{
    dist.set(source, 0);
    pq.push(ValType(0, source));
    proof {
        let v0 = ValType(0, source);
        assert forall|x: ValType| #[trigger] pq.contents().count(x) > 0 implies x.1 < graph.n
            && dist@[x.1 as int] <= x.0 && x.0 < INF by {
            assert(old(pq).contents().count(x) == 0);
            assert(pq.contents().count(x) == old(pq).contents().count(x) + (if x == v0 {
                1int
            } else {
                0int
            }));
        }
        assert forall|u: int| 0 <= u < graph.n && #[trigger] dist@[u] < INF implies edges_relaxed(
            *graph,
            dist@,
            u,
        ) || pq.contents().count(ValType(dist@[u], u as usize)) > 0 by {
            assert(u == source);
            assert(pq.contents().count(v0) == old(pq).contents().count(v0) + 1);
        }
        assert(supported(*graph, dist@));
    }
}

/// The relaxation handler: on a popped `(distance, vertex)` item that is not
/// stale, lower every out-neighbor's table entry that the hop improves and
/// push one item per improvement; a stale item (the table has moved past it)
/// is dropped without effect.
pub fn process_node(
    val: ValType,
    graph: &Graph,
    dist: &mut Vec<usize>,
    pq: &mut MultiQueue<ValType>,
)
    requires
        graph.valid(),
        old(pq).wf(),
        old(dist)@.len() == graph.n,
        val.1 < graph.n,
        val.0 < INF,
    ensures
        final(pq).wf(),
        final(pq).shard_count() == old(pq).shard_count(),
        final(dist)@.len() == graph.n,
        forall|t: int| 0 <= t < graph.n ==> #[trigger] final(dist)@[t] <= old(dist)@[t],
        old(dist)@[val.1 as int] < val.0 ==> *final(dist) == *old(dist) && *final(pq) == *old(pq),
        old(dist)@[val.1 as int] >= val.0 ==> relaxed_upto(
            *graph,
            old(dist)@,
            final(dist)@,
            val.1 as int,
            graph.nodes@[val.1 as int + 1] as int,
            (val.0 + 1) as usize,
        ) && pushed_upto(
            *graph,
            old(dist)@,
            val.1 as int,
            graph.nodes@[val.1 as int + 1] as int,
            (val.0 + 1) as usize,
            old(pq).contents(),
            final(pq).contents(),
        ),
{
    let d = val.0;
    let s = val.1;
    if dist[s] < d {
        return ;
    }
    let nd = d + 1;
    let start = graph.nodes[s];
    let end = graph.nodes[s + 1];
    proof {
        crate::graph::lemma_offsets_monotone(*graph, s as int + 1, graph.n as int);
    }
    let ghost dist0 = dist@;
    let ghost q0 = pq.contents();
    let mut i: usize = start;
    proof {
        assert forall|t: int| 0 <= t < dist@.len() implies #[trigger] dist@[t] == (if improves(
            *graph,
            dist0,
            s as int,
            start as int,
            t,
            nd,
        ) {
            nd
        } else {
            dist0[t]
        }) by {
            if improves(*graph, dist0, s as int, start as int, t, nd) {
                let w = choose|w: int|
                    graph.nodes@[s as int] <= w < start as int && (#[trigger] graph.edges@[
                        w
                    ]).target == t && nd < dist0[t];
            }
        }
    }
    while i < end
        invariant
            graph.valid(),
            pq.wf(),
            pq.shard_count() == old(pq).shard_count(),
            s < graph.n,
            nd == val.0 + 1,
            start == graph.nodes@[s as int],
            end == graph.nodes@[s as int + 1],
            start <= i <= end,
            end <= graph.m,
            dist@.len() == graph.n,
            dist0.len() == graph.n,
            relaxed_upto(*graph, dist0, dist@, s as int, i as int, nd),
            pushed_upto(*graph, dist0, s as int, i as int, nd, q0, pq.contents()),
        decreases end - i,
    {
        let t = graph.edges[i].target;
        let ghost q_before = pq.contents();
        let ghost dist_before = dist@;
        if nd < dist[t] {
            dist.set(t, nd);
            pq.push(ValType(nd, t));
        }
        proof {
            lemma_improves_step(*graph, dist0, s as int, i as int, nd);
            if nd < dist_before[t as int] {
                // this edge improved `t`: it was unimproved so far
                assert(!improves(*graph, dist0, s as int, i as int, t as int, nd));
                assert(nd < dist0[t as int]);
                assert(improves(*graph, dist0, s as int, i as int + 1, t as int, nd));
                assert forall|tt: int| 0 <= tt < dist@.len() implies #[trigger] dist@[tt] == (
                if improves(*graph, dist0, s as int, i as int + 1, tt, nd) {
                    nd
                } else {
                    dist0[tt]
                }) by {}
                assert forall|x: ValType| #[trigger] pq.contents().count(x) == q0.count(x) + (
                if x.0 == nd && x.1 < dist0.len() && improves(
                    *graph,
                    dist0,
                    s as int,
                    i as int + 1,
                    x.1 as int,
                    nd,
                ) {
                    1int
                } else {
                    0int
                }) by {
                    assert(pq.contents().count(x) == q_before.count(x) + (if x == ValType(nd, t) {
                        1int
                    } else {
                        0int
                    }));
                }
            } else {
                // no improvement: the edge changes nothing
                assert forall|tt: int|
                    #[trigger] improves(*graph, dist0, s as int, i as int + 1, tt, nd) <==>
                    improves(*graph, dist0, s as int, i as int, tt, nd) by {
                    if graph.edges@[i as int].target == tt && nd < dist0[tt] {
                        // then `tt` was improved by an earlier edge already,
                        // else its entry would still exceed `nd`
                        assert(dist_before[tt] == (if improves(
                            *graph,
                            dist0,
                            s as int,
                            i as int,
                            tt,
                            nd,
                        ) {
                            nd
                        } else {
                            dist0[tt]
                        }));
                        assert(improves(*graph, dist0, s as int, i as int, tt, nd));
                    }
                }
            }
        }
        i = i + 1;
    }
    proof {
        assert forall|t: int| 0 <= t < graph.n implies #[trigger] dist@[t] <= dist0[t] by {
            if improves(*graph, dist0, s as int, end as int, t, nd) {
                let w = choose|w: int|
                    graph.nodes@[s as int] <= w < end as int && (#[trigger] graph.edges@[
                        w
                    ]).target == t && nd < dist0[t];
            }
        }
    }
}

/// Re-establishes the worker-loop invariant across one handled item, and
/// yields the facts the loop's termination measure needs.
#[verifier::rlimit(100)]
proof fn lemma_step_preserves_inv(
    g: Graph,
    val: ValType,
    dist_prev: Seq<usize>,
    q_prev: Multiset<ValType>,
    q_mid: Multiset<ValType>,
    dist: Seq<usize>,
    q: Multiset<ValType>,
)
    requires
        g.valid(),
        search_inv(g, dist_prev, q_prev),
        q_prev.count(val) > 0,
        q_mid == q_prev.remove(val),
        // what `process_node` ensures, as facts about the passed values
        dist.len() == g.n,
        forall|t: int| 0 <= t < g.n ==> #[trigger] dist[t] <= dist_prev[t],
        dist_prev[val.1 as int] < val.0 ==> dist == dist_prev && q == q_mid,
        dist_prev[val.1 as int] >= val.0 ==> relaxed_upto(
            g,
            dist_prev,
            dist,
            val.1 as int,
            g.nodes@[val.1 as int + 1] as int,
            (val.0 + 1) as usize,
        ) && pushed_upto(
            g,
            dist_prev,
            val.1 as int,
            g.nodes@[val.1 as int + 1] as int,
            (val.0 + 1) as usize,
            q_mid,
            q,
        ),
    ensures
        search_inv(g, dist, q),
        sum_dist(dist) <= sum_dist(dist_prev),
        sum_dist(dist) == sum_dist(dist_prev) ==> q.len() < q_prev.len(),
        forall|t: int| 0 <= t < g.n && #[trigger] dist[t] != dist_prev[t] ==> dist[t] >= 1,
{
    let s = val.1 as int;
    let d = val.0;
    let nd = (val.0 + 1) as usize;
    let lo = g.nodes@[s] as int;
    let hi = g.nodes@[s + 1] as int;
    // the popped item is justified, so a non-stale pop hits the exact entry
    assert(0 <= s < g.n && dist_prev[s] <= d && d < INF);
    lemma_remove_len(q_prev, val);
    lemma_sum_dist_le(dist, dist_prev);
    crate::graph::lemma_offsets_monotone(g, s + 1, g.n as int);
    assert forall|u: int| 0 <= u < g.n implies #[trigger] g.nodes@[u + 1] <= g.m by {
        crate::graph::lemma_offsets_monotone(g, u + 1, g.n as int);
    }
    if dist_prev[s] < d {
        // stale item: nothing changed but the removed entry
        assert(queue_ok(g.n as int, dist, q)) by {
            assert forall|x: ValType| #[trigger] q.count(x) > 0 implies x.1 < g.n && dist[
                x.1 as int
            ] <= x.0 && x.0 < INF by {
                assert(q_prev.count(x) > 0);
            }
        }
        assert forall|u: int| 0 <= u < g.n && #[trigger] dist[u] < INF implies edges_relaxed(
            g,
            dist,
            u,
        ) || q.count(ValType(dist[u], u as usize)) > 0 by {
            let w_u = ValType(dist_prev[u], u as usize);
            if !edges_relaxed(g, dist_prev, u) {
                assert(q_prev.count(w_u) > 0);
                assert(w_u != val);
                assert(q.count(w_u) > 0);
            }
        }
        assert(sum_dist(dist) == sum_dist(dist_prev));
        assert(q.len() < q_prev.len());
    } else {
        assert(dist_prev[s] == d);
        // the popped vertex itself is never improved by its own relaxation
        assert(dist[s] == d) by {
            if improves(g, dist_prev, s, hi, s, nd) {
                let w = choose|w: int|
                    lo <= w < hi && (#[trigger] g.edges@[w]).target == s && nd < dist_prev[s];
            }
        }
        // monotonicity with the improvement facts spelled out
        assert forall|t: int| 0 <= t < g.n && #[trigger] dist[t] != dist_prev[t] implies dist[t]
            == nd && improves(g, dist_prev, s, hi, t, nd) && nd < dist_prev[t] by {
            assert(improves(g, dist_prev, s, hi, t, nd));
            let w = choose|w: int|
                lo <= w < hi && (#[trigger] g.edges@[w]).target == t && nd < dist_prev[t];
        }
        assert(queue_ok(g.n as int, dist, q)) by {
            assert forall|x: ValType| #[trigger] q.count(x) > 0 implies x.1 < g.n && dist[
                x.1 as int
            ] <= x.0 && x.0 < INF by {
                if x.0 == nd && x.1 < g.n && improves(g, dist_prev, s, hi, x.1 as int, nd) {
                    let w = choose|w: int|
                        lo <= w < hi && (#[trigger] g.edges@[w]).target == x.1 as int && nd
                            < dist_prev[x.1 as int];
                    assert(dist[x.1 as int] == nd);
                } else {
                    assert(q.count(x) == q_mid.count(x));
                    assert(q_prev.count(x) > 0);
                }
            }
        }
        assert forall|u: int| 0 <= u < g.n && #[trigger] dist[u] < INF implies edges_relaxed(
            g,
            dist,
            u,
        ) || q.count(ValType(dist[u], u as usize)) > 0 by {
            if improves(g, dist_prev, s, hi, u, nd) {
                // freshly improved: its new item is queued
                let w_new = ValType(nd, u as usize);
                assert(dist[u] == nd);
                assert(q.count(w_new) == q_mid.count(w_new) + 1);
            } else if u == s {
                // the handled vertex is now relaxed
                assert forall|i: int|
                    g.nodes@[u] <= i < g.nodes@[u + 1] implies dist[(#[trigger] g.edges@[
                    i]).target as int] <= dist[u] + 1 by {
                    let t = g.edges@[i].target as int;
                    if !improves(g, dist_prev, s, hi, t, nd) {
                        assert(!(lo <= i < hi && g.edges@[i].target == t && nd < dist_prev[t]));
                        assert(dist[t] == dist_prev[t]);
                    }
                }
            } else {
                // untouched vertex: its disjunct carries over
                assert(dist[u] == dist_prev[u]);
                if edges_relaxed(g, dist_prev, u) {
                    assert forall|i: int|
                        g.nodes@[u] <= i < g.nodes@[u + 1] implies dist[(#[trigger] g.edges@[
                        i]).target as int] <= dist[u] + 1 by {
                        let t = g.edges@[i].target as int;
                        assert(dist[t] <= dist_prev[t]);
                        assert(dist_prev[t] <= dist_prev[u] + 1);
                    }
                } else {
                    let w_u = ValType(dist_prev[u], u as usize);
                    assert(q_prev.count(w_u) > 0);
                    assert(w_u != val);
                    assert(q_mid.count(w_u) > 0);
                    assert(q.count(w_u) >= q_mid.count(w_u));
                }
            }
        }
        assert(supported(g, dist)) by {
            assert forall|v: int| 0 <= v < g.n && 0 < dist[v] && #[trigger] dist[v]
                < INF implies exists|u: int, i: int|
                #![trigger g.nodes@[u], g.edges@[i]]
                {
                    &&& 0 <= u < g.n
                    &&& g.nodes@[u] <= i < g.nodes@[u + 1]
                    &&& g.edges@[i].target == v
                    &&& dist[u] < dist[v]
                } by {
                if improves(g, dist_prev, s, hi, v, nd) {
                    let w = choose|w: int|
                        lo <= w < hi && (#[trigger] g.edges@[w]).target == v && nd < dist_prev[v];
                    assert(dist[v] == nd);
                    assert(0 <= s < g.n && g.nodes@[s] <= w < g.nodes@[s + 1] && g.edges@[w].target
                        == v && dist[s] < dist[v]);
                } else {
                    assert(dist[v] == dist_prev[v]);
                    let (u, i) = choose|u: int, i: int|
                        #![trigger g.nodes@[u], g.edges@[i]]
                        {
                            &&& 0 <= u < g.n
                            &&& g.nodes@[u] <= i < g.nodes@[u + 1]
                            &&& g.edges@[i].target == v
                            &&& dist_prev[u] < dist_prev[v]
                        };
                    assert(dist[u] <= dist_prev[u]);
                    assert(0 <= u < g.n && g.nodes@[u] <= i < g.nodes@[u + 1] && g.edges@[i].target
                        == v && dist[u] < dist[v]);
                }
            }
        }
        // the termination measure: an improvement lowers the table total;
        // otherwise the step only removed the popped item
        if dist == dist_prev {
            assert forall|x: ValType| #[trigger] q.count(x) == q_mid.count(x) by {
                if x.0 == nd && x.1 < g.n && improves(g, dist_prev, s, hi, x.1 as int, nd) {
                    let w = choose|w: int|
                        lo <= w < hi && (#[trigger] g.edges@[w]).target == x.1 as int && nd
                            < dist_prev[x.1 as int];
                    assert(dist[x.1 as int] == nd && dist_prev[x.1 as int] != nd);
                    assert(false);
                }
            }
            assert(q =~= q_mid);
            assert(q.len() < q_prev.len());
        } else {
            assert(!(dist =~= dist_prev));
            let t = choose|t: int| 0 <= t < dist.len() && dist[t] != dist_prev[t];
            lemma_sum_dist_lt(dist, dist_prev, t);
        }
    }
}

/// The per-thread worker loop, embodied for the one remaining active thread:
/// pop and relax until the queue is definitively empty and the termination
/// handshake reaches unanimity.  On return the queue has drained with no item
/// lost, the table has only improved, every reached vertex is fully relaxed,
/// and no recorded distance is invented.
pub fn main_loop(
    graph: &Graph,
    pq: &mut MultiQueue<ValType>,
    dist: &mut Vec<usize>,
    data: &mut crate::termination_detection::TerminationData,
)
    requires
        graph.valid(),
        old(pq).wf(),
        old(data).wf(),
        old(data).others_settled(),
        search_inv(*graph, old(dist)@, old(pq).contents()),
    ensures
        final(pq).wf(),
        final(pq).contents().len() == 0,
        final(dist)@.len() == graph.n,
        forall|v: int| 0 <= v < graph.n ==> #[trigger] final(dist)@[v] <= old(dist)@[v],
        forall|v: int|
            0 <= v < graph.n && #[trigger] final(dist)@[v] == 0 ==> old(dist)@[v] == 0,
        forall|u: int|
            0 <= u < graph.n && #[trigger] final(dist)@[u] < INF ==> edges_relaxed(
                *graph,
                final(dist)@,
                u,
            ),
        supported(*graph, final(dist)@),
        final(data).wf(),
        final(data).consensus(),
        final(data).num_threads == old(data).num_threads,
{
    loop
        invariant_except_break
            data.others_settled(),
        invariant
            graph.valid(),
            pq.wf(),
            data.wf(),
            data.num_threads == old(data).num_threads,
            search_inv(*graph, dist@, pq.contents()),
            forall|v: int| 0 <= v < graph.n ==> #[trigger] dist@[v] <= old(dist)@[v],
            forall|v: int|
                0 <= v < graph.n && #[trigger] dist@[v] == 0 ==> old(dist)@[v] == 0,
        ensures
            pq.contents().len() == 0,
            data.consensus(),
        decreases sum_dist(dist@), pq.contents().len(),
    {
        let ghost dist_prev = dist@;
        let ghost q_prev = pq.contents();
        match crate::termination_detection::try_do(pq, data) {
            Ok(val) => {
                let ghost q_mid = pq.contents();
                proof {
                    assert(q_prev.count(val) > 0);
                }
                process_node(val, graph, dist, pq);
                proof {
                    lemma_step_preserves_inv(
                        *graph,
                        val,
                        dist_prev,
                        q_prev,
                        q_mid,
                        dist@,
                        pq.contents(),
                    );
                }
            },
            Err(()) => {
                break ;
            },
        }
    }
    proof {
        assert forall|u: int|
            0 <= u < graph.n && #[trigger] dist@[u] < INF implies edges_relaxed(
            *graph,
            dist@,
            u,
        ) by {
            assert(pq.contents().count(ValType(dist@[u], u as usize)) == 0);
        }
    }
}

/// Check a finished table: report whether every reached vertex is fully
/// relaxed, and the greatest finite distance found.  This is the verification
/// pass a driver runs over the converged distances.
pub fn check_distances(graph: &Graph, dist: &Vec<usize>) -> (r: (bool, usize))
    requires
        graph.valid(),
        dist@.len() == graph.n,
    ensures
        r.0 == (forall|u: int|
            0 <= u < graph.n && #[trigger] dist@[u] < INF ==> edges_relaxed(*graph, dist@, u)),
        forall|v: int| 0 <= v < graph.n && #[trigger] dist@[v] < INF ==> dist@[v] <= r.1,
        r.1 == 0 || (exists|v: int|
            0 <= v < graph.n && #[trigger] dist@[v] < INF && dist@[v] == r.1),
{
    let mut ok = true;
    let mut mx: usize = 0;
    let mut v: usize = 0;
    while v < graph.n
        invariant
            graph.valid(),
            dist@.len() == graph.n,
            v <= graph.n,
            ok == (forall|u: int|
                0 <= u < v && #[trigger] dist@[u] < INF ==> edges_relaxed(*graph, dist@, u)),
            forall|u: int| 0 <= u < v && #[trigger] dist@[u] < INF ==> dist@[u] <= mx,
            mx == 0 || (exists|u: int|
                0 <= u < v && #[trigger] dist@[u] < INF && dist@[u] == mx),
        decreases graph.n - v,
    {
        let dv = dist[v];
        if dv != INF {
            let lo = graph.nodes[v];
            let hi = graph.nodes[v + 1];
            proof {
                crate::graph::lemma_offsets_monotone(*graph, v as int + 1, graph.n as int);
            }
            let mut i = lo;
            let mut v_ok = true;
            while i < hi
                invariant
                    graph.valid(),
                    dist@.len() == graph.n,
                    v < graph.n,
                    dv == dist@[v as int],
                    dv < INF,
                    lo == graph.nodes@[v as int],
                    hi == graph.nodes@[v as int + 1],
                    lo <= i <= hi,
                    hi <= graph.m,
                    v_ok == (forall|j: int|
                        lo <= j < i ==> dist@[(#[trigger] graph.edges@[j]).target as int] <= dv
                            + 1),
                decreases hi - i,
            {
                let t = graph.edges[i].target;
                if dist[t] > dv + 1 {
                    v_ok = false;
                }
                i = i + 1;
            }
            if !v_ok {
                ok = false;
                proof {
                    assert(!edges_relaxed(*graph, dist@, v as int));
                }
            }
            if dv > mx {
                mx = dv;
            }
        }
        v = v + 1;
    }
    (ok, mx)
}

/// Whether `v` lies within `k` hops of `src`.
pub open spec fn reaches(g: Graph, src: int, v: int, k: nat) -> bool
    decreases k,
{
    v == src || (k > 0 && exists|u: int, i: int|
        #![trigger g.nodes@[u], g.edges@[i]]
        {
            &&& 0 <= u < g.n
            &&& g.nodes@[u] <= i < g.nodes@[u + 1]
            &&& g.edges@[i].target == v
            &&& reaches(g, src, u, (k - 1) as nat)
        })
}

/// A vertex within `k` hops is within any larger bound too.
proof fn lemma_reaches_monotone(g: Graph, src: int, v: int, k1: nat, k2: nat)
    requires
        reaches(g, src, v, k1),
        k1 <= k2,
    ensures
        reaches(g, src, v, k2),
    decreases k1,
{
    if v != src {
        let (u, i) = choose|u: int, i: int|
            #![trigger g.nodes@[u], g.edges@[i]]
            {
                &&& 0 <= u < g.n
                &&& g.nodes@[u] <= i < g.nodes@[u + 1]
                &&& g.edges@[i].target == v
                &&& reaches(g, src, u, (k1 - 1) as nat)
            };
        lemma_reaches_monotone(g, src, u, (k1 - 1) as nat, (k2 - 1) as nat);
        assert(0 <= u < g.n && g.nodes@[u] <= i < g.nodes@[u + 1] && g.edges@[i].target == v
            && reaches(g, src, u, (k2 - 1) as nat));
    }
}

/// In a relaxation-closed table whose source reads zero, no vertex within
/// `k` hops records more than `k`.
proof fn lemma_closed_upper_bound(g: Graph, src: int, dist: Seq<usize>, v: int, k: nat)
    requires
        g.valid(),
        dist.len() == g.n,
        0 <= src < g.n,
        dist[src] == 0,
        forall|u: int| 0 <= u < g.n && #[trigger] dist[u] < INF ==> edges_relaxed(g, dist, u),
        0 <= v < g.n,
        reaches(g, src, v, k),
    ensures
        dist[v] <= k,
    decreases k,
{
    if v != src && k < INF {
        let (u, i) = choose|u: int, i: int|
            #![trigger g.nodes@[u], g.edges@[i]]
            {
                &&& 0 <= u < g.n
                &&& g.nodes@[u] <= i < g.nodes@[u + 1]
                &&& g.edges@[i].target == v
                &&& reaches(g, src, u, (k - 1) as nat)
            };
        lemma_closed_upper_bound(g, src, dist, u, (k - 1) as nat);
        assert(dist[u] < INF);
        assert(dist[(g.edges@[i]).target as int] <= dist[u] + 1);
    }
}

/// In a supported table whose only zero entry is the source, every recorded
/// distance is realized by a walk of that many hops.
proof fn lemma_supported_lower_bound(g: Graph, src: int, dist: Seq<usize>, v: int)
    requires
        g.valid(),
        dist.len() == g.n,
        0 <= src < g.n,
        supported(g, dist),
        forall|w: int| 0 <= w < g.n && #[trigger] dist[w] == 0 ==> w == src,
        0 <= v < g.n,
        dist[v] < INF,
    ensures
        reaches(g, src, v, dist[v] as nat),
    decreases dist[v],
{
    if dist[v] == 0 {
        assert(v == src);
    } else {
        let (u, i) = choose|u: int, i: int|
            #![trigger g.nodes@[u], g.edges@[i]]
            {
                &&& 0 <= u < g.n
                &&& g.nodes@[u] <= i < g.nodes@[u + 1]
                &&& g.edges@[i].target == v
                &&& dist[u] < dist[v]
            };
        lemma_supported_lower_bound(g, src, dist, u);
        lemma_reaches_monotone(g, src, u, dist[u] as nat, (dist[v] - 1) as nat);
        assert(0 <= u < g.n && g.nodes@[u] <= i < g.nodes@[u + 1] && g.edges@[i].target == v
            && reaches(g, src, u, (dist[v] - 1) as nat));
    }
}

/// Convergence: a relaxation-closed, supported table whose only zero entry is
/// the source records exactly the breadth-first hop distances.  A recorded
/// distance is realized by a walk of that many hops and beaten by none, and a
/// vertex recorded unreached is beyond every realizable bound.  These are
/// precisely the facts `main_loop` leaves behind for a table seeded at `src`,
/// whatever order the queue handed the items out in.
pub proof fn lemma_bfs_distances_exact(g: Graph, src: int, dist: Seq<usize>, v: int)
    requires
        g.valid(),
        dist.len() == g.n,
        0 <= src < g.n,
        dist[src] == 0,
        forall|u: int| 0 <= u < g.n && #[trigger] dist[u] < INF ==> edges_relaxed(g, dist, u),
        supported(g, dist),
        forall|w: int| 0 <= w < g.n && #[trigger] dist[w] == 0 ==> w == src,
        0 <= v < g.n,
    ensures
        dist[v] < INF ==> reaches(g, src, v, dist[v] as nat),
        forall|k: nat| #[trigger] reaches(g, src, v, k) ==> dist[v] <= k,
{
    if dist[v] < INF {
        lemma_supported_lower_bound(g, src, dist, v);
    }
    assert forall|k: nat| #[trigger] reaches(g, src, v, k) implies dist[v] <= k by {
        lemma_closed_upper_bound(g, src, dist, v, k);
    }
}

} // verus!

