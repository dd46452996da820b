use multiqueue::bfs::{check_distances, main_loop, process_node, seed_source};
use multiqueue::graph::{Edge, Graph};
use multiqueue::multiqueue::MultiQueue;
use multiqueue::order::ValType;
use multiqueue::termination_detection::TerminationData;

fn cycle_graph() -> Graph {
    // a directed 4-cycle: 0 -> 1 -> 2 -> 3 -> 0
    let mut g = Graph::new(4, 4);
    g.nodes = vec![0, 1, 2, 3, 4];
    g.edges = vec![
        Edge { target: 1 },
        Edge { target: 2 },
        Edge { target: 3 },
        Edge { target: 0 },
    ];
    g
}

#[test]
fn graph_getters() {
    let g = cycle_graph();
    assert_eq!(g.num_nodes(), 4);
    assert_eq!(g.num_edges(), 4);
}

#[test]
fn graph_shell_is_zeroed() {
    let g = Graph::new(3, 2);
    assert_eq!(g.nodes, vec![0, 0, 0]);
    assert_eq!(g.edges.len(), 2);
    assert_eq!(g.edges[0].target, 0);
}

#[test]
fn validity_check_accepts_cycle() {
    assert!(cycle_graph().check_valid());
}

#[test]
fn validity_check_rejects_bad_layouts() {
    let mut g = cycle_graph();
    g.nodes = vec![0, 2, 1, 3, 4];
    // offsets step backwards
    assert!(!g.check_valid());

    let mut g = cycle_graph();
    g.edges[2] = Edge { target: 9 };
    // a target out of range
    assert!(!g.check_valid());

    let mut g = cycle_graph();
    g.nodes = vec![0, 1, 2, 3];
    // the closing offset is missing
    assert!(!g.check_valid());
}

#[test]
fn bfs_on_cycle_converges() {
    // unit-weight distances around the cycle from source 0
    let g = cycle_graph();
    let mut dist = vec![usize::MAX; 4];
    let mut pq = MultiQueue::<ValType>::new(1);
    let mut td = TerminationData::new(1);
    seed_source(0, &g, &mut dist, &mut pq);
    main_loop(&g, &mut pq, &mut dist, &mut td);
    assert_eq!(dist, vec![0, 1, 2, 3]);
    assert_eq!(pq.pop(), None);
    let (ok, mx) = check_distances(&g, &dist);
    assert!(ok);
    assert_eq!(mx, 3);
}

#[test]
fn bfs_on_diamond_converges() {
    // 0 -> 1, 0 -> 2, 1 -> 3, 2 -> 3
    let mut g = Graph::new(4, 4);
    g.nodes = vec![0, 2, 3, 4, 4];
    g.edges = vec![
        Edge { target: 1 },
        Edge { target: 2 },
        Edge { target: 3 },
        Edge { target: 3 },
    ];
    assert!(g.check_valid());
    let mut dist = vec![usize::MAX; 4];
    let mut pq = MultiQueue::<ValType>::new(2);
    let mut td = TerminationData::new(1);
    seed_source(0, &g, &mut dist, &mut pq);
    main_loop(&g, &mut pq, &mut dist, &mut td);
    assert_eq!(dist, vec![0, 1, 1, 2]);
}

#[test]
fn bfs_leaves_unreachable_at_sentinel() {
    // 0 -> 1 and an isolated vertex 2
    let mut g = Graph::new(3, 1);
    g.nodes = vec![0, 1, 1, 1];
    g.edges = vec![Edge { target: 1 }];
    let mut dist = vec![usize::MAX; 3];
    let mut pq = MultiQueue::<ValType>::new(1);
    let mut td = TerminationData::new(1);
    seed_source(0, &g, &mut dist, &mut pq);
    main_loop(&g, &mut pq, &mut dist, &mut td);
    assert_eq!(dist, vec![0, 1, usize::MAX]);
}

#[test]
fn handler_relaxes_out_edges() {
    // 0 -> 1: handling (0, 0) lowers vertex 1 to distance 1 and queues it
    let mut g = Graph::new(2, 1);
    g.nodes = vec![0, 1, 1];
    g.edges = vec![Edge { target: 1 }];
    let mut dist = vec![0, usize::MAX];
    let mut pq = MultiQueue::<ValType>::new(1);
    process_node(ValType(0, 0), &g, &mut dist, &mut pq);
    assert_eq!(dist, vec![0, 1]);
    assert_eq!(pq.pop(), Some(ValType(1, 1)));
    assert_eq!(pq.pop(), None);
}

#[test]
fn handler_drops_stale_items() {
    // vertex 0 already sits at distance 0; a stale item at 5 does nothing
    let mut g = Graph::new(2, 1);
    g.nodes = vec![0, 1, 1];
    g.edges = vec![Edge { target: 1 }];
    let mut dist = vec![0, usize::MAX];
    let mut pq = MultiQueue::<ValType>::new(1);
    process_node(ValType(5, 0), &g, &mut dist, &mut pq);
    assert_eq!(dist, vec![0, usize::MAX]);
    assert_eq!(pq.pop(), None);
}

#[test]
fn distance_check_spots_a_gap() {
    // 0 -> 1 with dist 0 and 5: the edge is not relaxed
    let mut g = Graph::new(2, 1);
    g.nodes = vec![0, 1, 1];
    g.edges = vec![Edge { target: 1 }];
    let dist = vec![0, 5];
    let (ok, mx) = check_distances(&g, &dist);
    assert!(!ok);
    assert_eq!(mx, 5);
}
