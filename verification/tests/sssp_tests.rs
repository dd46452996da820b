use multiqueue::graph::{WghEdge, WghGraph};
use multiqueue::order::ValType;
use multiqueue::sssp::{dijkstra, seed_source};
use multiqueue::subqueue::SubQueue;

fn weighted_cycle() -> WghGraph {
    // 0 -(2)-> 1 -(3)-> 2 -(1)-> 3 -(5)-> 0
    let mut g = WghGraph::new(4, 4);
    g.nodes = vec![0, 1, 2, 3, 4];
    g.edges = vec![
        WghEdge { target: 1, weight: 2 },
        WghEdge { target: 2, weight: 3 },
        WghEdge { target: 3, weight: 1 },
        WghEdge { target: 0, weight: 5 },
    ];
    g
}

#[test]
fn weighted_graph_getters() {
    let g = weighted_cycle();
    assert_eq!(g.num_nodes(), 4);
    assert_eq!(g.num_edges(), 4);
}

#[test]
fn dijkstra_on_weighted_cycle() {
    let g = weighted_cycle();
    let mut dist = vec![usize::MAX; 4];
    let mut pq = SubQueue::<ValType>::new();
    seed_source(0, &g, &mut dist, &mut pq);
    dijkstra(&g, &mut pq, &mut dist);
    assert_eq!(dist, vec![0, 2, 5, 6]);
    assert!(pq.is_empty());
}

#[test]
fn dijkstra_on_unit_cycle() {
    // unit weights reproduce the hop counts around the cycle
    let mut g = weighted_cycle();
    for e in g.edges.iter_mut() {
        e.weight = 1;
    }
    let mut dist = vec![usize::MAX; 4];
    let mut pq = SubQueue::<ValType>::new();
    seed_source(0, &g, &mut dist, &mut pq);
    dijkstra(&g, &mut pq, &mut dist);
    assert_eq!(dist, vec![0, 1, 2, 3]);
}

#[test]
fn dijkstra_prefers_cheaper_detour() {
    // 0 -(10)-> 1 and 0 -(1)-> 2 -(2)-> 1: the detour wins
    let mut g = WghGraph::new(3, 3);
    g.nodes = vec![0, 2, 2, 3];
    g.edges = vec![
        WghEdge { target: 1, weight: 10 },
        WghEdge { target: 2, weight: 1 },
        WghEdge { target: 1, weight: 2 },
    ];
    let mut dist = vec![usize::MAX; 3];
    let mut pq = SubQueue::<ValType>::new();
    seed_source(0, &g, &mut dist, &mut pq);
    dijkstra(&g, &mut pq, &mut dist);
    assert_eq!(dist, vec![0, 3, 1]);
}

#[test]
fn dijkstra_ignores_unreachable() {
    // 0 -(4)-> 1 and an isolated vertex 2
    let mut g = WghGraph::new(3, 1);
    g.nodes = vec![0, 1, 1, 1];
    g.edges = vec![WghEdge { target: 1, weight: 4 }];
    let mut dist = vec![usize::MAX; 3];
    let mut pq = SubQueue::<ValType>::new();
    seed_source(0, &g, &mut dist, &mut pq);
    dijkstra(&g, &mut pq, &mut dist);
    assert_eq!(dist, vec![0, 4, usize::MAX]);
}

#[test]
fn dijkstra_with_zero_weights() {
    // a zero-weight edge propagates the same distance
    let mut g = WghGraph::new(3, 2);
    g.nodes = vec![0, 1, 2, 2];
    g.edges = vec![
        WghEdge { target: 1, weight: 0 },
        WghEdge { target: 2, weight: 7 },
    ];
    let mut dist = vec![usize::MAX; 3];
    let mut pq = SubQueue::<ValType>::new();
    seed_source(0, &g, &mut dist, &mut pq);
    dijkstra(&g, &mut pq, &mut dist);
    assert_eq!(dist, vec![0, 0, 7]);
}
