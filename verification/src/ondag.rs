//! The interface every graph variant works against: the error values the
//! mutating operations return, the equality obligation on edge weights, and
//! the `OnDag` trait that the online-checked variants implement.

use vstd::prelude::*;

verus! {

/// Returned by edge insertion when committing the edge would close a cycle
/// (in the strict variants) or an all-zero-cost cycle (in the positive-cost
/// variant).  The graph is left unmodified.
#[derive(Clone, Copy, Debug, PartialEq, Eq, Structural)]
pub struct CycleError;

/// Returned by node deletion while the node still has an outbound or inbound
/// edge; the edges must be deleted first.
#[derive(Clone, Copy, Debug, PartialEq, Eq, Structural)]
pub struct AlreadyConnected;

/// What the engine needs of an edge-weight type: a decidable equality that
/// agrees with mathematical equality.  Weights take part in edge identity, so
/// differently-weighted edges between the same endpoints can coexist.
pub trait EdgeWeight: Sized + Copy {
    /// Decides whether two weights are equal.
    fn weight_eq(&self, other: &Self) -> (r: bool)
        ensures
            r == (*self == *other),
    ;
}

impl EdgeWeight for u32 {
    fn weight_eq(&self, other: &Self) -> bool {
        *self == *other
    }
}

impl EdgeWeight for u64 {
    fn weight_eq(&self, other: &Self) -> bool {
        *self == *other
    }
}

/// The interface that the online-checked graph variants implement: node
/// allocation and gated edge insertion and removal.  Each implementation
/// supplies its own invariant, its own notion of an acceptable handle, and
/// its own cycle policy behind `add_edge`.
pub trait OnDag<N, E> {
    type NodeHandle;

    /// The implementation's well-formedness invariant.
    spec fn dag_inv(&self) -> bool;

    /// Whether this graph accepts the handle.
    spec fn ok_handle(&self, h: Self::NodeHandle) -> bool;

    /// Whether another node can still be allocated.
    spec fn can_grow(&self) -> bool;

    /// Allocates a node holding `node`.
    fn add_node(&mut self, node: N) -> (h: Self::NodeHandle)
        requires
            old(self).dag_inv(),
            old(self).can_grow(),
        ensures
            final(self).dag_inv(),
            final(self).ok_handle(h),
            !old(self).ok_handle(h),
            forall|g: Self::NodeHandle|
                old(self).ok_handle(g) ==> final(self).ok_handle(g),
    ;

    /// Commits the edge `from -> to` unless it would violate the
    /// implementation's cycle policy; a rejected edge changes nothing.
    fn add_edge(&mut self, from: &Self::NodeHandle, to: &Self::NodeHandle, data: E) -> (r: Result<
        (),
        CycleError,
    >)
        requires
            old(self).dag_inv(),
            old(self).ok_handle(*from),
            old(self).ok_handle(*to),
        ensures
            final(self).dag_inv(),
            forall|g: Self::NodeHandle|
                old(self).ok_handle(g) ==> final(self).ok_handle(g),
    ;

    /// Removes the edge `from -> to` if present; removing an absent edge is
    /// a no-op success.
    fn rm_edge(&mut self, from: &Self::NodeHandle, to: &Self::NodeHandle, data: E) -> (r: Result<
        (),
        CycleError,
    >)
        requires
            old(self).dag_inv(),
            old(self).ok_handle(*from),
            old(self).ok_handle(*to),
        ensures
            final(self).dag_inv(),
            r is Ok,
            forall|g: Self::NodeHandle|
                old(self).ok_handle(g) ==> final(self).ok_handle(g),
    ;
}

} // verus!
