//! The strictly acyclic graph variant.
//!
//! `RcDag` wraps the arena core and gates every edge insertion with the
//! reachability oracle: an edge `from -> to` is committed only when `from` is
//! not already reachable from `to`, which is exactly the condition under
//! which the new edge cannot close a cycle.  Acyclicity is therefore an
//! invariant of every well-formed value of this type.

use vstd::prelude::*;

use crate::ondag::{CycleError, EdgeWeight, OnDag};
use crate::rcdagbase::{DagEdge, NodeHandle, RcDagBase};
use crate::reach;
use crate::util;

verus! {

broadcast use RcDagBase::lemma_has_node_id;

/// A graph that can never hold a directed cycle.  Nodes carry payloads of
/// type `N`; edges carry weights of type `E`.
pub struct RcDag<N, E> {
    dag: RcDagBase<N, E>,
}

impl<N, E> RcDag<N, E> {
    /// The underlying arena, for stating contracts; the arena itself stays
    /// abstract to callers.
    pub closed spec fn base(self) -> RcDagBase<N, E> {
        self.dag
    }

    /// Well-formedness: a structurally sound arena with no directed cycle.
    pub open spec fn wf(self) -> bool {
        &&& self.base().wf()
        &&& self.base().spec_acyclic()
    }

    /// Number of nodes this graph has issued.
    pub open spec fn node_count(self) -> int {
        self.base().node_count()
    }

    /// Whether `h` denotes a node of this graph.
    pub open spec fn has_node(self, h: NodeHandle) -> bool {
        self.base().has_node(h)
    }

    /// The payload stored at `h`.
    pub open spec fn spec_data(self, h: NodeHandle) -> N {
        self.base().spec_data(h)
    }

    /// The outbound half-edges of `h`, in insertion order.
    pub open spec fn spec_children(self, h: NodeHandle) -> Seq<DagEdge<E>> {
        self.base().spec_children(h)
    }

    /// There is at least one edge from `u` to `v`.
    pub open spec fn spec_edge(self, u: NodeHandle, v: NodeHandle) -> bool {
        self.base().spec_edge(u, v)
    }

    /// `b` is reachable from `a` along zero or more edges.
    pub open spec fn spec_reaches(self, a: NodeHandle, b: NodeHandle) -> bool {
        self.base().spec_reaches(a, b)
    }

    /// All committed edges, as (source, half-edge) pairs.
    pub open spec fn edge_set(self) -> Set<(NodeHandle, DagEdge<E>)> {
        self.base().edge_set()
    }

    /// The depth-first postorder from `from`, as a function of the state;
    /// both traversal directions are specified against it.
    pub open spec fn spec_topo_rev(self, from: NodeHandle) -> Seq<NodeHandle> {
        self.base().spec_topo_rev(from)
    }

    /// Everything except the edge list of `u` agrees between `a` and `b`.
    pub open spec fn same_but_children_of(a: Self, b: Self, u: NodeHandle) -> bool {
        RcDagBase::same_but_children_of(a.base(), b.base(), u)
    }

    /// Acyclicity, stated for callers: in a well-formed strict graph two
    /// distinct nodes are never reachable from each other in both
    /// directions.
    pub proof fn lemma_no_mutual_reachability(self, a: NodeHandle, b: NodeHandle)
        requires
            self.wf(),
            a != b,
        ensures
            !(self.spec_reaches(a, b) && self.spec_reaches(b, a)),
    {
        reach::lemma_acyclic_no_mutual_reach(self.dag.rel(), a, b);
    }

    /// Creates an empty graph.
    pub fn new() -> (dag: Self)
        ensures
            dag.wf(),
            dag.node_count() == 0,
            forall|h: NodeHandle| !dag.has_node(h),
    {
        RcDag { dag: RcDagBase::new() }
    }

    /// Allocates a node holding `node_data`, with no edges; the new handle
    /// was never returned before by this graph.
    pub fn add_node(&mut self, node_data: N) -> (h: NodeHandle)
        requires
            old(self).wf(),
            old(self).node_count() < u64::MAX as int,
        ensures
            final(self).wf(),
            h.id() == old(self).node_count(),
            !old(self).has_node(h),
            final(self).has_node(h),
            final(self).node_count() == old(self).node_count() + 1,
            forall|g: NodeHandle| old(self).has_node(g) ==> final(self).has_node(g),
            final(self).spec_children(h).len() == 0,
            forall|g: NodeHandle|
                old(self).has_node(g) ==> final(self).spec_children(g) == old(self).spec_children(
                    g,
                ),
            forall|g: NodeHandle|
                old(self).has_node(g) ==> final(self).spec_data(g) == old(self).spec_data(g),
            final(self).spec_data(h) == node_data,
            final(self).edge_set() == old(self).edge_set(),
            forall|a: NodeHandle, b: NodeHandle|
                final(self).spec_reaches(a, b) == old(self).spec_reaches(a, b),
    {
        let ghost prev = self.dag;
        let h = self.dag.add_node(node_data);
        proof {
            reach::lemma_acyclic_mono(self.dag.rel(), prev.rel());
            assert forall|a: NodeHandle, b: NodeHandle|
                self.dag.spec_reaches(a, b) == prev.spec_reaches(a, b) by {
                if self.dag.spec_reaches(a, b) {
                    reach::lemma_reaches_mono(self.dag.rel(), prev.rel(), a, b);
                }
                if prev.spec_reaches(a, b) {
                    reach::lemma_reaches_mono(prev.rel(), self.dag.rel(), a, b);
                }
            }
        }
        h
    }

    /// Borrows the data of a node.
    pub fn node_data(&self, h: &NodeHandle) -> (d: &N)
        requires
            self.has_node(*h),
        ensures
            *d == self.spec_data(*h),
    {
        self.dag.node_data(h)
    }
}

impl<N, E: EdgeWeight> RcDag<N, E> {
    /// Commits the edge `from -> to` with weight `data` unless doing so would
    /// close a cycle — that is, unless `from` is already reachable from `to`.
    /// A rejected edge leaves the graph exactly as it was; inserting an edge
    /// that is already present succeeds and also changes nothing.
    pub fn add_edge(&mut self, from: &NodeHandle, to: &NodeHandle, data: E) -> (r: Result<
        (),
        CycleError,
    >)
        requires
            old(self).wf(),
            old(self).has_node(*from),
            old(self).has_node(*to),
        ensures
            final(self).wf(),
            r is Err <==> old(self).spec_reaches(*to, *from),
            r is Err ==> *final(self) == *old(self),
            r is Ok ==> final(self).edge_set() == old(self).edge_set().insert(
                (*from, (DagEdge { to: *to, weight: data })),
            ),
            r is Ok ==> final(self).spec_children(*from) == (if old(self).spec_children(
                *from,
            ).contains((DagEdge { to: *to, weight: data })) {
                old(self).spec_children(*from)
            } else {
                old(self).spec_children(*from).push((DagEdge { to: *to, weight: data }))
            }),
            Self::same_but_children_of(*old(self), *final(self), *from),
            forall|g: NodeHandle| final(self).has_node(g) == old(self).has_node(g),
            old(self).spec_children(*from).contains((DagEdge { to: *to, weight: data })) ==> (
            r is Ok && *final(self) == *old(self)),
            r is Ok ==> forall|u: NodeHandle, v: NodeHandle|
                final(self).spec_edge(u, v) <==> (old(self).spec_edge(u, v) || (u == *from && v
                    == *to)),
    {
        let ghost e = DagEdge { to: *to, weight: data };
        if self.dag.is_reachable(from, to) {
            proof {
                if old(self).spec_children(*from).contains(e) {
                    let k = choose|k: int|
                        0 <= k < old(self).spec_children(*from).len() && old(self).spec_children(
                            *from,
                        )[k] == e;
                    assert((#[trigger] old(self).spec_children(*from)[k]).to == *to);
                    assert(old(self).spec_edge(*from, *to));
                    assert(self.dag.rel()(*from, *to));
                    reach::lemma_acyclic_no_back_path(self.dag.rel(), *from, *to);
                }
            }
            Err(CycleError)
        } else {
            let ghost prev = self.dag;
            self.dag.add_edge_unchecked(from, to, data);
            proof {
                reach::lemma_add_step_acyclic(prev.rel(), self.dag.rel(), *from, *to);
            }
            Ok(())
        }
    }

    /// Removes the edge `from -> to` with weight `data` if present; removing
    /// an absent edge is a no-op.  Removal can never create a cycle, so the
    /// graph stays well formed.
    pub fn rm_edge(&mut self, from: &NodeHandle, to: &NodeHandle, data: E) -> (r: Result<
        (),
        CycleError,
    >)
        requires
            old(self).wf(),
            old(self).has_node(*from),
            old(self).has_node(*to),
        ensures
            final(self).wf(),
            r is Ok,
            final(self).edge_set() == old(self).edge_set().remove(
                (*from, (DagEdge { to: *to, weight: data })),
            ),
            final(self).spec_children(*from) == util::remove_first(
                old(self).spec_children(*from),
                (DagEdge { to: *to, weight: data }),
            ),
            Self::same_but_children_of(*old(self), *final(self), *from),
            forall|g: NodeHandle| final(self).has_node(g) == old(self).has_node(g),
    {
        let ghost prev = self.dag;
        self.dag.rm_edge(from, to, data);
        proof {
            reach::lemma_acyclic_mono(self.dag.rel(), prev.rel());
        }
        Ok(())
    }

    /// True exactly when `search` is reachable from (or equal to) `base`.
    pub fn is_reachable(&self, search: &NodeHandle, base: &NodeHandle) -> (r: bool)
        requires
            self.wf(),
            self.has_node(*search),
            self.has_node(*base),
        ensures
            r == self.spec_reaches(*base, *search),
    {
        self.dag.is_reachable(search, base)
    }
}

impl<N, E: Copy> RcDag<N, E> {
    /// The topological ordering of everything reachable from `from`: every
    /// node appears before the nodes its edges point at.
    pub fn iter_topo(&self, from: &NodeHandle) -> (out: Vec<NodeHandle>)
        requires
            self.wf(),
            self.has_node(*from),
        ensures
            out@.no_duplicates(),
            out@ == self.spec_topo_rev(*from).reverse(),
            out@.len() > 0 && out@[0] == *from,
            forall|h: NodeHandle| out@.contains(h) <==> self.spec_reaches(*from, h),
            forall|i: int, k: int|
                0 <= i < out@.len() && 0 <= k < out@.len() && self.spec_edge(out@[i], out@[k])
                    ==> i < k,
    {
        proof {
            self.dag.lemma_acyclic_from(*from);
        }
        self.dag.iter_topo(from)
    }

    /// The reverse topological ordering of everything reachable from `from`:
    /// pure postorder, children before the nodes that point at them.
    pub fn iter_topo_rev(&self, from: &NodeHandle) -> (out: Vec<NodeHandle>)
        requires
            self.wf(),
            self.has_node(*from),
        ensures
            out@.no_duplicates(),
            out@ == self.spec_topo_rev(*from),
            out@.len() > 0 && out@.last() == *from,
            forall|h: NodeHandle| out@.contains(h) <==> self.spec_reaches(*from, h),
            forall|i: int, k: int|
                0 <= i < out@.len() && 0 <= k < out@.len() && self.spec_edge(out@[i], out@[k])
                    ==> k < i,
    {
        proof {
            self.dag.lemma_acyclic_from(*from);
        }
        self.dag.iter_topo_rev(from)
    }

    /// All outbound half-edges of `node`, as a fresh vector.
    pub fn children(&self, node: &NodeHandle) -> (out: Vec<DagEdge<E>>)
        requires
            self.has_node(*node),
        ensures
            out@ == self.spec_children(*node),
    {
        self.dag.children(node)
    }
}

impl<N, E: EdgeWeight> OnDag<N, E> for RcDag<N, E> {
    type NodeHandle = NodeHandle;

    open spec fn dag_inv(&self) -> bool {
        self.wf()
    }

    open spec fn ok_handle(&self, h: NodeHandle) -> bool {
        self.has_node(h)
    }

    open spec fn can_grow(&self) -> bool {
        self.node_count() < u64::MAX as int
    }

    fn add_node(&mut self, node: N) -> NodeHandle {
        RcDag::add_node(self, node)
    }

    fn add_edge(&mut self, from: &NodeHandle, to: &NodeHandle, data: E) -> Result<
        (),
        CycleError,
    > {
        let ghost prev = *self;
        let r = RcDag::add_edge(self, from, to, data);
        proof {
            assert forall|g: NodeHandle| prev.has_node(g) implies self.has_node(g) by {
                assert(self.node_count() == prev.node_count());
            }
        }
        r
    }

    fn rm_edge(&mut self, from: &NodeHandle, to: &NodeHandle, data: E) -> Result<
        (),
        CycleError,
    > {
        RcDag::rm_edge(self, from, to, data)
    }
}

} // verus!
