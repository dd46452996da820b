//! The total preorder that drives shard heaps and inter-shard selection.
//!
//! A work item is an opaque, copyable value with a total order; "greater"
//! items are extracted first.  Callers that want "lower value wins" (such as
//! the shortest-path workers) encode it with a reversed comparison, as
//! [`ValType`] does.

use vstd::prelude::*;

verus! {

/// A total preorder on work items.  `le_spec` is the mathematical relation;
/// `le` is its executable decision procedure.  Ties (two items each `le` the
/// other) are allowed and are broken arbitrarily by the queue.
pub trait Priority: Sized {
    /// `self` is extracted no earlier than `other` is, all else being equal.
    spec fn le_spec(self, other: Self) -> bool;

    /// The relation is total (and hence reflexive).
    proof fn le_total(a: Self, b: Self)
        ensures
            a.le_spec(b) || b.le_spec(a),
    ;

    /// The relation is transitive.
    proof fn le_trans(a: Self, b: Self, c: Self)
        requires
            a.le_spec(b),
            b.le_spec(c),
        ensures
            a.le_spec(c),
    ;

    /// Decides `le_spec`.
    fn le(&self, other: &Self) -> (r: bool)
        ensures
            r == self.le_spec(*other),
    ;
}

impl Priority for u32 {
    open spec fn le_spec(self, other: Self) -> bool {
        self <= other
    }

    proof fn le_total(a: Self, b: Self) {
    }

    proof fn le_trans(a: Self, b: Self, c: Self) {
    }

    fn le(&self, other: &Self) -> (r: bool) {
        *self <= *other
    }
}

/// A `(distance, vertex)` work item for the traversal workers.
///
/// The comparison is reversed on the distance: an item with a *smaller*
/// distance is the *greater* one, so a max-extraction queue hands out the
/// closest pending vertex first.
#[derive(Clone, Copy, Debug, PartialEq, Eq, Structural)]
pub struct ValType(pub usize, pub usize);

impl Priority for ValType {
    open spec fn le_spec(self, other: Self) -> bool {
        self.0 >= other.0
    }

    proof fn le_total(a: Self, b: Self) {
    }

    proof fn le_trans(a: Self, b: Self, c: Self) {
    }

    fn le(&self, other: &Self) -> (r: bool) {
        self.0 >= other.0
    }
}

} // verus!
