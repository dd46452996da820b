//! A sharded, randomized priority queue (the "MultiQueue"), a two-counter
//! termination-detection protocol, and the worker-loop logic that binds them
//! to graph-traversal handlers.
//!
//! The queue scatters work items over an array of shards, pushes into a
//! random shard, and pops by comparing the maxima of two random shards —
//! an approximate global order at constant expected cost.  A phase runs a
//! fixed set of worker threads over one queue until the detector's two
//! counters show unanimous agreement that no work remains.
//!
//! Every state transition of the queue and of the protocol is a function
//! here with a full contract: what a push adds, what a pop removes and how
//! good the removed item is, when termination may be declared, and what the
//! traversal handlers do to the shared distance table.  A driver owns the
//! threads and the locking and runs those transitions; the single-threaded
//! embodiment of the whole loop ([`bfs::main_loop`], [`sssp::dijkstra`]) is
//! verified end to end, down to termination of the loop itself.

pub mod bfs;
pub mod graph;
pub mod history;
pub mod multiqueue;
pub mod order;
pub mod sssp;
pub mod subqueue;
pub mod termination_detection;
