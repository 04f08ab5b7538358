//! The shared arena core that the graph variants build on.
//!
//! `RcDagBase` owns every node: per node a user payload and the outbound edge
//! set, kept as a duplicate-free vector.  Callers hold opaque `NodeHandle`
//! values — indices into the arena — and all mutation goes through the graph,
//! which is what lets the variants enforce their cycle policies at a single
//! choke point.  The base itself maintains only structural well-formedness
//! (no dangling edge targets, no duplicate edges); acyclicity policies live in
//! the variants.

use vstd::prelude::*;

use crate::ondag::EdgeWeight;
use crate::reach;
use crate::util;

verus! {

/// An opaque, copyable identity for a node, issued by `add_node` and valid
/// only for the graph that issued it.  Two handles are equal exactly when
/// they denote the same node.
#[derive(Clone, Copy, Debug, PartialEq, Eq, Hash, Structural)]
pub struct NodeHandle {
    index: u64,
}

/// Identifies a node, like `NodeHandle`, for external side tables that must
/// not be mistaken for a right to dereference: a weak handle can be compared
/// for identity but never hands out node data.
#[derive(Clone, Copy, Debug, PartialEq, Eq, Hash, Structural)]
pub struct WeakNodeHandle {
    index: u64,
}

/// An outbound half-edge: the target node and the edge weight.  The source is
/// given by the edge set the half-edge is stored in.
#[derive(Clone, Copy, Debug, PartialEq, Eq, Hash)]
pub struct DagEdge<E> {
    pub to: NodeHandle,
    pub weight: E,
}

struct DagNode<N, E> {
    value: N,
    children: Vec<DagEdge<E>>,
}

/// The arena: node payloads and outbound edge sets, indexed by handle.
pub struct RcDagBase<N, E> {
    nodes: Vec<DagNode<N, E>>,
}

impl NodeHandle {
    /// The arena slot this handle denotes.
    pub closed spec fn id(self) -> int {
        self.index as int
    }

    /// A handle that no graph ever issues, for callers that need a sentinel
    /// in place of "no node".  Using it in a query is rejected by that
    /// query's precondition.
    pub fn null() -> (h: NodeHandle)
        ensures
            h.id() == u64::MAX as int,
    {
        NodeHandle { index: u64::MAX }
    }

    /// Handle identity is exactly slot identity.
    pub proof fn lemma_id_injective(a: NodeHandle, b: NodeHandle)
        requires
            a.id() == b.id(),
        ensures
            a == b,
    {
    }

    /// Demotes the handle to a weak handle for external indexing.
    pub fn weak(&self) -> (w: WeakNodeHandle)
        ensures
            w.id() == self.id(),
    {
        WeakNodeHandle { index: self.index }
    }

    /// Weak handles compare for identity exactly as the handles they came
    /// from: an external map keyed by weak handles distinguishes nodes.
    pub proof fn lemma_weak_identity(a: NodeHandle, b: NodeHandle, wa: WeakNodeHandle, wb: WeakNodeHandle)
        requires
            wa.id() == a.id(),
            wb.id() == b.id(),
        ensures
            (wa == wb) <==> (a == b),
    {
        if wa == wb {
            NodeHandle::lemma_id_injective(a, b);
        }
        if a == b {
            WeakNodeHandle::lemma_id_injective(wa, wb);
        }
    }

    /// Borrows the data of the node this handle denotes.
    pub fn node_data<'a, N, E>(&self, dag: &'a RcDagBase<N, E>) -> (d: &'a N)
        requires
            dag.has_node(*self),
        ensures
            *d == dag.spec_data(*self),
    {
        dag.node_data(self)
    }
}

impl WeakNodeHandle {
    /// The arena slot this weak handle denotes.
    pub closed spec fn id(self) -> int {
        self.index as int
    }

    /// Weak-handle identity is exactly slot identity.
    pub proof fn lemma_id_injective(a: WeakNodeHandle, b: WeakNodeHandle)
        requires
            a.id() == b.id(),
        ensures
            a == b,
    {
    }
}

impl<E> DagEdge<E> {
    /// The node this half-edge points at.
    pub fn to(&self) -> (t: &NodeHandle)
        ensures
            *t == self.to,
    {
        &self.to
    }

    /// The weight carried by this half-edge.
    pub fn weight(&self) -> (w: &E)
        ensures
            *w == self.weight,
    {
        &self.weight
    }
}

impl<N, E> RcDagBase<N, E> {
    /// Number of nodes the arena has issued.
    pub closed spec fn node_count(self) -> int {
        self.nodes@.len() as int
    }

    /// Whether `h` denotes a node of this graph.
    pub closed spec fn has_node(self, h: NodeHandle) -> bool {
        h.index < self.nodes@.len()
    }

    /// The outbound half-edges of `h`, in insertion order.
    pub closed spec fn spec_children(self, h: NodeHandle) -> Seq<DagEdge<E>> {
        self.nodes@[h.index as int].children@
    }

    /// The payload stored at `h`.
    pub closed spec fn spec_data(self, h: NodeHandle) -> N {
        self.nodes@[h.index as int].value
    }

    /// There is at least one edge from `u` to `v`, of whatever weight.
    pub open spec fn spec_edge(self, u: NodeHandle, v: NodeHandle) -> bool {
        self.has_node(u) && exists|j: int|
            0 <= j < self.spec_children(u).len() && (#[trigger] self.spec_children(u)[j]).to == v
    }

    /// No directed cycle among the nodes reachable from `root`: weaker than
    /// whole-graph acyclicity, and exactly what a topological order of the
    /// region reachable from `root` needs.
    pub open spec fn acyclic_from(self, root: NodeHandle) -> bool {
        forall|p: Seq<NodeHandle>|
            !(#[trigger] reach::is_cycle(self.rel(), p) && self.spec_reaches(root, p.first()))
    }

    /// The step relation of this graph, for the path theory.
    pub open spec fn rel(self) -> spec_fn(NodeHandle, NodeHandle) -> bool {
        |u: NodeHandle, v: NodeHandle| self.spec_edge(u, v)
    }

    /// `b` is reachable from `a` along zero or more edges.
    pub open spec fn spec_reaches(self, a: NodeHandle, b: NodeHandle) -> bool {
        reach::reaches(self.rel(), a, b)
    }

    /// No directed cycle among the nodes.
    pub open spec fn spec_acyclic(self) -> bool {
        reach::acyclic(self.rel())
    }

    /// All committed edges, as (source, half-edge) pairs.
    pub open spec fn edge_set(self) -> Set<(NodeHandle, DagEdge<E>)> {
        Set::new(
            |p: (NodeHandle, DagEdge<E>)|
                self.has_node(p.0) && self.spec_children(p.0).contains(p.1),
        )
    }

    /// The edge list of one node is well formed: duplicate-free and with every
    /// target pointing at a node of this graph.
    pub open spec fn kids_ok(self, h: NodeHandle) -> bool {
        &&& self.spec_children(h).no_duplicates()
        &&& forall|j: int|
            0 <= j < self.spec_children(h).len() ==> self.has_node(
                (#[trigger] self.spec_children(h)[j]).to,
            )
    }

    /// Structural well-formedness of the arena.
    pub open spec fn wf(self) -> bool {
        &&& self.node_count() <= u64::MAX as int
        &&& forall|h: NodeHandle| self.has_node(h) ==> #[trigger] self.kids_ok(h)
    }

    /// A graph recognizes exactly the handles that denote its arena slots.
    pub broadcast proof fn lemma_has_node_id(g: RcDagBase<N, E>, h: NodeHandle)
        ensures
            #[trigger] g.has_node(h) <==> (0 <= h.id() < g.node_count()),
    {
    }

    /// Everything but the edge list of `u` is the same in `b` as in `a`.
    pub open spec fn same_but_children_of(a: Self, b: Self, u: NodeHandle) -> bool {
        &&& b.node_count() == a.node_count()
        &&& forall|h: NodeHandle| b.has_node(h) ==> b.spec_data(h) == a.spec_data(h)
        &&& forall|h: NodeHandle|
            b.has_node(h) && h != u ==> b.spec_children(h) == a.spec_children(h)
    }

    /// One node of the specification-level postorder walk: if `u` is live and
    /// unmarked, mark it, walk its children in list order, then emit it.
    /// `fuel` only bounds the recursion; any fuel at least the number of
    /// unmarked entries gives the same answer (`lemma_po_fuel`).
    pub open spec fn po_node(
        self,
        u: NodeHandle,
        o: Seq<NodeHandle>,
        m: Seq<bool>,
        fuel: nat,
    ) -> (Seq<NodeHandle>, Seq<bool>)
        decreases fuel, 1int, 0int,
    {
        if !self.has_node(u) || !(0 <= u.id() < m.len()) || m[u.id()] {
            (o, m)
        } else {
            let r = self.po_kids(u, 0, o, m.update(u.id(), true), fuel);
            (r.0.push(u), r.1)
        }
    }

    /// The children loop of the specification-level postorder walk.
    pub open spec fn po_kids(
        self,
        u: NodeHandle,
        j: int,
        o: Seq<NodeHandle>,
        m: Seq<bool>,
        fuel: nat,
    ) -> (Seq<NodeHandle>, Seq<bool>)
        decreases fuel, 0int, self.spec_children(u).len() - j,
    {
        if j < 0 || j >= self.spec_children(u).len() {
            (o, m)
        } else {
            let c = self.spec_children(u)[j].to;
            if self.has_node(c) && 0 <= c.id() < m.len() && !m[c.id()] && fuel > 0 {
                let r = self.po_node(c, o, m, (fuel - 1) as nat);
                self.po_kids(u, j + 1, r.0, r.1, (fuel - 1) as nat)
            } else {
                self.po_kids(u, j + 1, o, m, fuel)
            }
        }
    }

    /// The depth-first postorder of everything reachable from `from`, as a
    /// function of the graph state: children in edge-list order before their
    /// parent.  Both traversal directions are specified against it.
    pub open spec fn spec_topo_rev(self, from: NodeHandle) -> Seq<NodeHandle> {
        self.po_node(
            from,
            Seq::<NodeHandle>::empty(),
            Seq::new(self.node_count() as nat, |k: int| false),
            self.node_count() as nat,
        ).0
    }

    /// The walk only adds marks, and marks its node when it is live and
    /// unmarked.
    proof fn lemma_po_grow(self, u: NodeHandle, o: Seq<NodeHandle>, m: Seq<bool>, fuel: nat)
        ensures
            ({
                let r = self.po_node(u, o, m, fuel);
                &&& r.1.len() == m.len()
                &&& (forall|k: int| 0 <= k < m.len() && m[k] ==> r.1[k])
                &&& (self.has_node(u) && 0 <= u.id() < m.len() && !m[u.id()] ==> r.1[u.id()])
            }),
        decreases fuel, 1int, 0int,
    {
        if !(!self.has_node(u) || !(0 <= u.id() < m.len()) || m[u.id()]) {
            let m1 = m.update(u.id(), true);
            self.lemma_po_kids_grow(u, 0, o, m1, fuel);
            let r = self.po_kids(u, 0, o, m1, fuel);
            assert(m1[u.id()]);
            assert(r.1[u.id()]);
            assert forall|k: int| 0 <= k < m.len() && m[k] implies r.1[k] by {
                assert(m1[k]);
            }
            assert(self.po_node(u, o, m, fuel) == (r.0.push(u), r.1));
        }
    }

    /// The children loop only adds marks.
    proof fn lemma_po_kids_grow(
        self,
        u: NodeHandle,
        j: int,
        o: Seq<NodeHandle>,
        m: Seq<bool>,
        fuel: nat,
    )
        ensures
            ({
                let r = self.po_kids(u, j, o, m, fuel);
                &&& r.1.len() == m.len()
                &&& (forall|k: int| 0 <= k < m.len() && m[k] ==> r.1[k])
            }),
        decreases fuel, 0int, self.spec_children(u).len() - j,
    {
        if !(j < 0 || j >= self.spec_children(u).len()) {
            let c = self.spec_children(u)[j].to;
            if self.has_node(c) && 0 <= c.id() < m.len() && !m[c.id()] && fuel > 0 {
                self.lemma_po_grow(c, o, m, (fuel - 1) as nat);
                let r = self.po_node(c, o, m, (fuel - 1) as nat);
                self.lemma_po_kids_grow(u, j + 1, r.0, r.1, (fuel - 1) as nat);
            } else {
                self.lemma_po_kids_grow(u, j + 1, o, m, fuel);
            }
        }
    }

    /// Any fuel at least the number of unmarked entries, less one for the
    /// node about to be marked, gives the same walk.
    proof fn lemma_po_fuel(
        self,
        u: NodeHandle,
        o: Seq<NodeHandle>,
        m: Seq<bool>,
        f1: nat,
        f2: nat,
    )
        requires
            util::count_false(m) <= f1 + 1,
            util::count_false(m) <= f2 + 1,
        ensures
            self.po_node(u, o, m, f1) == self.po_node(u, o, m, f2),
        decreases f1 + f2, 1int, 0int,
    {
        if !(!self.has_node(u) || !(0 <= u.id() < m.len()) || m[u.id()]) {
            util::lemma_count_false_update(m, u.id());
            self.lemma_po_kids_fuel(u, 0, o, m.update(u.id(), true), f1, f2);
        }
    }

    /// Fuel irrelevance for the children loop.
    proof fn lemma_po_kids_fuel(
        self,
        u: NodeHandle,
        j: int,
        o: Seq<NodeHandle>,
        m: Seq<bool>,
        f1: nat,
        f2: nat,
    )
        requires
            util::count_false(m) <= f1,
            util::count_false(m) <= f2,
        ensures
            self.po_kids(u, j, o, m, f1) == self.po_kids(u, j, o, m, f2),
        decreases f1 + f2, 0int, self.spec_children(u).len() - j,
    {
        if !(j < 0 || j >= self.spec_children(u).len()) {
            let c = self.spec_children(u)[j].to;
            if self.has_node(c) && 0 <= c.id() < m.len() && !m[c.id()] {
                util::lemma_count_false_pos(m, c.id());
                assert(f1 > 0 && f2 > 0);
                self.lemma_po_fuel(c, o, m, (f1 - 1) as nat, (f2 - 1) as nat);
                let r = self.po_node(c, o, m, (f1 - 1) as nat);
                self.lemma_po_grow(c, o, m, (f1 - 1) as nat);
                let mc = m.update(c.id(), true);
                util::lemma_count_false_update(m, c.id());
                assert forall|k: int| 0 <= k < mc.len() && mc[k] implies r.1[k] by {
                    if k != c.id() {
                        assert(m[k]);
                    }
                }
                util::lemma_count_false_mono(mc, r.1);
                self.lemma_po_kids_fuel(u, j + 1, r.0, r.1, (f1 - 1) as nat, (f2 - 1) as nat);
            } else {
                self.lemma_po_kids_fuel(u, j + 1, o, m, f1, f2);
            }
        }
    }

    /// Whole-graph acyclicity gives acyclicity of every reachable region.
    pub proof fn lemma_acyclic_from(self, root: NodeHandle)
        requires
            self.spec_acyclic(),
        ensures
            self.acyclic_from(root),
    {
        assert forall|p: Seq<NodeHandle>|
            !(#[trigger] reach::is_cycle(self.rel(), p) && self.spec_reaches(
                root,
                p.first(),
            )) by {
            assert(!reach::is_cycle(self.rel(), p));
        }
    }

    /// A graph without edges has no cycles.
    pub proof fn lemma_no_edges_acyclic(self)
        requires
            forall|u: NodeHandle, v: NodeHandle| !self.spec_edge(u, v),
        ensures
            self.spec_acyclic(),
    {
        assert forall|p: Seq<NodeHandle>| !reach::is_cycle(self.rel(), p) by {
            if reach::is_cycle(self.rel(), p) {
                reach::path_step(self.rel(), p, 0);
                assert(self.spec_edge(p[0], p[1]));
            }
        }
    }

    /// Creates an empty graph.
    pub fn new() -> (dag: Self)
        ensures
            dag.wf(),
            dag.node_count() == 0,
            forall|h: NodeHandle| !dag.has_node(h),
            dag.spec_acyclic(),
    {
        let dag = RcDagBase { nodes: Vec::new() };
        proof {
            assert(forall|u: NodeHandle, v: NodeHandle| !dag.spec_edge(u, v));
            dag.lemma_no_edges_acyclic();
        }
        dag
    }

    /// The exec index of a handle, bounds-checked against the arena.
    pub(crate) fn slot(&self, h: &NodeHandle) -> (i: usize)
        requires
            self.has_node(*h),
        ensures
            i as int == h.id(),
            i < self.node_count(),
    {
        let n = self.nodes.len();
        assert(h.index < n as u64);
        h.index as usize
    }

    /// How many nodes this graph has issued, as an exec value.
    pub fn num_nodes(&self) -> (n: usize)
        ensures
            n as int == self.node_count(),
    {
        self.nodes.len()
    }

    /// The handle denoting arena slot `i`, for enumerating the nodes.
    pub fn handle_of(&self, i: usize) -> (h: NodeHandle)
        requires
            i < self.node_count(),
        ensures
            h.id() == i,
            self.has_node(h),
    {
        NodeHandle { index: i as u64 }
    }

    /// Borrows the data of a node.
    pub fn node_data(&self, h: &NodeHandle) -> (d: &N)
        requires
            self.has_node(*h),
        ensures
            *d == self.spec_data(*h),
    {
        let i = self.slot(h);
        &self.nodes[i].value
    }

    /// How many outbound edges a node has.
    pub fn children_len(&self, u: &NodeHandle) -> (l: usize)
        requires
            self.has_node(*u),
        ensures
            l == self.spec_children(*u).len(),
    {
        let i = self.slot(u);
        self.nodes[i].children.len()
    }

    /// Allocates a node holding `node_data`, with no edges.  The returned
    /// handle was never returned before by this graph.
    pub fn add_node(&mut self, node_data: N) -> (h: NodeHandle)
        requires
            old(self).wf(),
            old(self).node_count() < u64::MAX as int,
        ensures
            final(self).wf(),
            h.id() == old(self).node_count(),
            !old(self).has_node(h),
            final(self).has_node(h),
            final(self).node_count() == old(self).node_count() + 1,
            forall|g: NodeHandle| old(self).has_node(g) ==> final(self).has_node(g),
            forall|g: NodeHandle| final(self).has_node(g) ==> old(self).has_node(g) || g == h,
            final(self).spec_children(h).len() == 0,
            forall|g: NodeHandle|
                old(self).has_node(g) ==> final(self).spec_children(g) == old(self).spec_children(
                    g,
                ),
            forall|g: NodeHandle|
                old(self).has_node(g) ==> final(self).spec_data(g) == old(self).spec_data(g),
            final(self).spec_data(h) == node_data,
            forall|u: NodeHandle, v: NodeHandle|
                final(self).spec_edge(u, v) <==> old(self).spec_edge(u, v),
            final(self).edge_set() == old(self).edge_set(),
    {
        let idx = self.nodes.len();
        self.nodes.push(DagNode { value: node_data, children: Vec::new() });
        let h = NodeHandle { index: idx as u64 };
        proof {
            assert forall|u: NodeHandle, v: NodeHandle|
                self.spec_edge(u, v) <==> old(self).spec_edge(u, v) by {
                if u.index < idx as u64 {
                    assert(self.spec_children(u) == old(self).spec_children(u));
                } else {
                    assert(!old(self).has_node(u));
                    if self.has_node(u) {
                        assert(self.spec_children(u).len() == 0);
                    }
                }
            }
            assert(self.edge_set() =~= old(self).edge_set()) by {
                assert forall|p: (NodeHandle, DagEdge<E>)|
                    self.edge_set().contains(p) <==> old(self).edge_set().contains(p) by {
                    if p.0.index < idx as u64 {
                        assert(self.spec_children(p.0) == old(self).spec_children(p.0));
                    } else if self.has_node(p.0) {
                        assert(self.spec_children(p.0).len() == 0);
                    }
                }
            }
            assert forall|g: NodeHandle| self.has_node(g) implies #[trigger] self.kids_ok(g) by {
                if g.index < idx as u64 {
                    assert(old(self).kids_ok(g));
                    assert(self.spec_children(g) == old(self).spec_children(g));
                    assert forall|j: int|
                        0 <= j < self.spec_children(g).len() implies self.has_node(
                        (#[trigger] self.spec_children(g)[j]).to,
                    ) by {
                        assert(old(self).has_node(self.spec_children(g)[j].to));
                    }
                } else {
                    assert(self.spec_children(g).len() == 0);
                }
            }
        }
        h
    }

}

impl<N, E: Copy> RcDagBase<N, E> {
    /// The `j`-th outbound half-edge of `u`.
    pub fn child_at(&self, u: &NodeHandle, j: usize) -> (d: DagEdge<E>)
        requires
            self.has_node(*u),
            j < self.spec_children(*u).len(),
        ensures
            d == self.spec_children(*u)[j as int],
    {
        let i = self.slot(u);
        self.nodes[i].children[j]
    }

    /// All outbound half-edges of `node`, as a fresh vector.
    pub fn children(&self, node: &NodeHandle) -> (out: Vec<DagEdge<E>>)
        requires
            self.has_node(*node),
        ensures
            out@ == self.spec_children(*node),
    {
        let len = self.children_len(node);
        let mut out: Vec<DagEdge<E>> = Vec::new();
        let mut j: usize = 0;
        while j < len
            invariant
                j <= len,
                len == self.spec_children(*node).len(),
                self.has_node(*node),
                out@ =~= self.spec_children(*node).subrange(0, j as int),
            decreases len - j,
        {
            out.push(self.child_at(node, j));
            j += 1;
            proof {
                assert(out@ =~= self.spec_children(*node).subrange(0, j as int));
            }
        }
        proof {
            assert(out@ =~= self.spec_children(*node));
        }
        out
    }

    /// The nodes a mark array declares visited.
    spec fn vset(self, marked: Seq<bool>) -> Set<NodeHandle> {
        Set::new(
            |h: NodeHandle| self.has_node(h) && 0 <= h.id() < marked.len() && marked[h.id()],
        )
    }

    /// Every edge out of `h` lands on a visited node.
    spec fn scanned(self, marked: Seq<bool>, h: NodeHandle) -> bool {
        forall|v: NodeHandle| self.spec_edge(h, v) ==> self.vset(marked).contains(v)
    }

    /// Postorder discipline: every edge out of a listed node points at a node
    /// listed strictly earlier.
    pub open spec fn children_before(self, s: Seq<NodeHandle>) -> bool {
        forall|i: int, v: NodeHandle|
            0 <= i < s.len() && #[trigger] self.spec_edge(s[i], v) ==> exists|j: int|
                0 <= j < i && s[j] == v
    }

    /// The state invariant of the postorder walk: the marks agree with the
    /// output plus the in-progress ancestor chain, the output is duplicate-
    /// free and fully scanned, and — whenever the region reachable from the
    /// traversal root is acyclic — postorder-sorted.
    spec fn sort_inv(
        self,
        marked: Seq<bool>,
        ordered: Seq<NodeHandle>,
        anc: Seq<NodeHandle>,
        root: NodeHandle,
    ) -> bool {
        &&& marked.len() == self.node_count()
        &&& self.vset(marked) == ordered.to_set().union(anc.to_set())
        &&& ordered.no_duplicates()
        &&& (forall|h: NodeHandle| ordered.contains(h) ==> self.has_node(h))
        &&& (forall|h: NodeHandle| anc.contains(h) ==> self.has_node(h))
        &&& (forall|h: NodeHandle|
            self.vset(marked).contains(h) && !anc.contains(h) ==> #[trigger] self.scanned(
                marked,
                h,
            ))
        &&& (self.acyclic_from(root) ==> self.children_before(ordered))
    }

    /// Depth-first postorder walk: appends to `ordered` every node reachable
    /// from `u` that is not yet marked, each after all of its children.
    /// `anc` is the chain of in-progress ancestors, already marked but not
    /// yet emitted.
    fn dfs_post(
        &self,
        u: NodeHandle,
        ordered: &mut Vec<NodeHandle>,
        marked: &mut Vec<bool>,
        Ghost(anc): Ghost<Seq<NodeHandle>>,
        Ghost(root): Ghost<NodeHandle>,
    )
        requires
            self.wf(),
            self.has_node(u),
            self.sort_inv(old(marked)@, old(ordered)@, anc, root),
            reach::is_path(self.rel(), anc.push(u)),
            anc.push(u).first() == root,
        ensures
            self.sort_inv(final(marked)@, final(ordered)@, anc, root),
            old(ordered)@.is_prefix_of(final(ordered)@),
            self.vset(final(marked)@).contains(u),
            forall|k: int| 0 <= k < old(marked)@.len() && old(marked)@[k] ==> final(marked)@[k],
            forall|h: NodeHandle|
                self.vset(final(marked)@).contains(h) ==> self.vset(old(marked)@).contains(h)
                    || self.spec_reaches(u, h),
            forall|h: NodeHandle|
                final(ordered)@.contains(h) ==> old(ordered)@.contains(h) || !self.vset(
                    old(marked)@,
                ).contains(h),
            final(ordered)@ == self.po_node(
                u,
                old(ordered)@,
                old(marked)@,
                util::count_false(old(marked)@),
            ).0,
            final(marked)@ == self.po_node(
                u,
                old(ordered)@,
                old(marked)@,
                util::count_false(old(marked)@),
            ).1,
        decreases util::count_false(old(marked)@),
    {
        let ghost m0 = marked@;
        let ghost o0 = ordered@;
        let ui = self.slot(&u);
        if marked[ui] {
            proof {
                assert(self.sort_inv(marked@, ordered@, anc, root));
                assert(self.vset(marked@).contains(u)) by {
                    assert(marked@[u.id()]);
                }
                assert(ordered@.is_prefix_of(ordered@)) by {
                    assert(ordered@.subrange(0, ordered@.len() as int) =~= ordered@);
                }
                assert(self.po_node(u, ordered@, marked@, util::count_false(marked@)) == (
                ordered@,
                marked@,
                ));
            }
            return ;
        }
        marked[ui] = true;
        let ghost m1g = marked@;
        let ghost anc2 = anc.push(u);
        proof {
            assert(anc2.first() == root);
            assert(marked@ == m0.update(ui as int, true));
            util::lemma_count_false_update(m0, ui as int);
            assert(self.vset(marked@).contains(u)) by {
                assert(marked@[u.id()]);
            }
            assert(anc2[anc2.len() - 1] == u);
            assert(anc2.contains(u));
            assert(!self.vset(m0).contains(u)) by {
                assert(!m0[u.id()]);
            }
            assert(self.vset(m0) == o0.to_set().union(anc.to_set()));
            assert(!o0.contains(u)) by {
                assert((o0.to_set().union(anc.to_set())).contains(u) == (o0.to_set().contains(u)
                    || anc.to_set().contains(u)));
            }
            assert forall|h: NodeHandle|
                anc2.contains(h) <==> (anc.contains(h) || h == u) by {
                if anc.contains(h) {
                    let k = choose|k: int| 0 <= k < anc.len() && anc[k] == h;
                    assert(anc2[k] == h);
                }
                if anc2.contains(h) {
                    let k = choose|k: int| 0 <= k < anc2.len() && anc2[k] == h;
                    if k < anc.len() {
                        assert(anc[k] == h);
                    }
                }
            }
            assert(self.sort_inv(marked@, ordered@, anc2, root)) by {
                assert(self.vset(marked@) =~= ordered@.to_set().union(anc2.to_set())) by {
                    assert forall|h: NodeHandle|
                        self.vset(marked@).contains(h) == (ordered@.to_set().union(
                        anc2.to_set(),
                    )).contains(h) by {
                        assert((o0.to_set().union(anc.to_set())).contains(h) == (o0.contains(h)
                            || anc.contains(h)));
                        assert((ordered@.to_set().union(anc2.to_set())).contains(h) == (
                        ordered@.contains(h) || anc2.contains(h)));
                        assert(self.vset(m0).contains(h) == (o0.contains(h) || anc.contains(h)));
                        assert(anc2.contains(h) <==> (anc.contains(h) || h == u));
                        assert(ordered@ == o0);
                        if self.has_node(h) {
                            if h.id() != ui as int {
                                assert(m0[h.id()] == marked@[h.id()]);
                            } else {
                                assert(h == u) by {
                                    assert(h.id() == u.id());
                                }
                            }
                        } else {
                            assert(!self.vset(marked@).contains(h));
                            assert(!self.vset(m0).contains(h));
                        }
                    }
                }
                assert forall|h: NodeHandle|
                    self.vset(marked@).contains(h) && !anc2.contains(h) implies
                    #[trigger] self.scanned(marked@, h) by {
                    assert(h != u);
                    assert(self.vset(m0).contains(h)) by {
                        assert(m0[h.id()] == marked@[h.id()]);
                    }
                    assert(!anc.contains(h));
                    assert(self.scanned(m0, h));
                    assert forall|v: NodeHandle|
                        self.spec_edge(h, v) implies self.vset(marked@).contains(v) by {
                        assert(self.vset(m0).contains(v));
                        assert(marked@[v.id()]);
                    }
                }
                assert forall|h: NodeHandle| ordered@.contains(h) implies self.has_node(h) by {
                    assert(self.vset(m0).contains(h)) by {
                        assert((o0.to_set().union(anc.to_set())).contains(h) == (o0.contains(h)
                            || anc.contains(h)));
                    }
                }
            }
            // The only fresh mark so far is `u` itself.
            assert forall|h: NodeHandle|
                self.vset(marked@).contains(h) implies self.vset(m0).contains(h)
                    || self.spec_reaches(u, h) by {
                if h.id() != ui as int {
                    assert(m0[h.id()] == marked@[h.id()]);
                } else {
                    assert(h == u) by {
                        assert(h.id() == u.id());
                    }
                    reach::lemma_reaches_refl(self.rel(), u);
                }
            }
        }
        let len = self.children_len(&u);
        let mut j: usize = 0;
        while j < len
            invariant
                self.wf(),
                self.has_node(u),
                j <= len,
                len == self.spec_children(u).len(),
                m0 == old(marked)@,
                o0 == old(ordered)@,
                m0.len() == self.node_count(),
                marked@.len() == m0.len(),
                m1g == m0.update(ui as int, true),
                ui as int == u.id(),
                self.po_kids(u, j as int, ordered@, marked@, util::count_false(marked@))
                    == self.po_kids(u, 0, o0, m1g, util::count_false(m1g)),
                anc2 == anc.push(u),
                anc2.contains(u),
                self.sort_inv(marked@, ordered@, anc2, root),
                anc2.first() == root,
                o0.is_prefix_of(ordered@),
                !ordered@.contains(u),
                self.vset(marked@).contains(u),
                reach::is_path(self.rel(), anc2),
                forall|k: int| 0 <= k < m0.len() && m0[k] ==> marked@[k],
                util::count_false(marked@) < util::count_false(m0),
                forall|h: NodeHandle|
                    self.vset(marked@).contains(h) ==> self.vset(m0).contains(h)
                        || self.spec_reaches(u, h),
                forall|h: NodeHandle|
                    ordered@.contains(h) ==> o0.contains(h) || !self.vset(m0).contains(h),
                forall|jj: int|
                    0 <= jj < j ==> self.vset(marked@).contains(
                        (#[trigger] self.spec_children(u)[jj]).to,
                    ),
            decreases len - j,
        {
            proof {
                assert(self.kids_ok(u));
            }
            let d = self.child_at(&u, j);
            let c = d.to;
            let ghost mc = marked@;
            let ghost oc = ordered@;
            proof {
                assert(self.spec_edge(u, c)) by {
                    assert((#[trigger] self.spec_children(u)[j as int]).to == c);
                }
                assert(self.rel()(u, c));
                assert(anc2[anc2.len() - 1] == u);
                assert(anc2.last() == u);
                reach::lemma_path_push(self.rel(), anc2, c);
                assert(anc2.push(c).drop_last() =~= anc2);
                assert(anc2.push(c).first() == anc2[0]);
                assert(anc2.push(c).first() == root);
            }
            self.dfs_post(c, ordered, marked, Ghost(anc2), Ghost(root));
            proof {
                util::lemma_count_false_mono(mc, marked@);
                assert forall|k: int| 0 <= k < m0.len() && m0[k] implies marked@[k] by {
                    assert(mc[k]);
                }
                assert forall|h: NodeHandle|
                    self.vset(marked@).contains(h) implies self.vset(m0).contains(h)
                        || self.spec_reaches(u, h) by {
                    if !self.vset(m0).contains(h) {
                        if self.vset(mc).contains(h) {
                            assert(self.spec_reaches(u, h));
                        } else {
                            assert(self.spec_reaches(c, h));
                            assert(self.rel()(u, c));
                            reach::lemma_reaches_step(self.rel(), u, c);
                            reach::lemma_reaches_trans(self.rel(), u, c, h);
                        }
                    }
                }
                assert forall|h: NodeHandle|
                    ordered@.contains(h) implies o0.contains(h) || !self.vset(m0).contains(
                    h,
                ) by {
                    if !oc.contains(h) {
                        assert(!self.vset(mc).contains(h));
                        if self.vset(m0).contains(h) {
                            assert(mc[h.id()]);
                        }
                    }
                }
                assert(!ordered@.contains(u)) by {
                    if ordered@.contains(u) && !oc.contains(u) {
                        assert(!self.vset(mc).contains(u));
                        assert(mc[u.id()]);
                    }
                }
                assert(o0.is_prefix_of(ordered@)) by {
                    assert(oc.is_prefix_of(ordered@));
                    assert forall|k: int| 0 <= k < o0.len() implies o0[k] == ordered@[k] by {
                        assert(o0[k] == oc[k]);
                        assert(oc[k] == ordered@[k]);
                    }
                    assert(o0 =~= ordered@.subrange(0, o0.len() as int));
                }
                assert forall|jj: int|
                    0 <= jj < j + 1 implies self.vset(marked@).contains(
                    (#[trigger] self.spec_children(u)[jj]).to,
                ) by {
                    if jj < j {
                        assert(self.vset(mc).contains(self.spec_children(u)[jj].to));
                        assert(marked@[self.spec_children(u)[jj].to.id()]);
                    } else {
                        assert(self.vset(marked@).contains(c));
                    }
                }
                // The walk specification advances by exactly this child.
                let fpre = util::count_false(mc);
                assert(self.has_node(c) && 0 <= c.id() < mc.len());
                if mc[c.id()] {
                    assert(self.po_node(c, oc, mc, fpre) == (oc, mc));
                    assert(ordered@ == oc && marked@ == mc);
                    assert(self.po_kids(u, j as int, oc, mc, fpre) == self.po_kids(
                        u,
                        j + 1,
                        oc,
                        mc,
                        fpre,
                    ));
                } else {
                    util::lemma_count_false_pos(mc, c.id());
                    self.lemma_po_fuel(c, oc, mc, (fpre - 1) as nat, fpre);
                    assert(self.po_node(c, oc, mc, (fpre - 1) as nat) == self.po_node(
                        c,
                        oc,
                        mc,
                        fpre,
                    ));
                    assert(ordered@ == self.po_node(c, oc, mc, (fpre - 1) as nat).0);
                    assert(marked@ == self.po_node(c, oc, mc, (fpre - 1) as nat).1);
                    self.lemma_po_grow(c, oc, mc, (fpre - 1) as nat);
                    let mcu = mc.update(c.id(), true);
                    util::lemma_count_false_update(mc, c.id());
                    assert forall|k: int| 0 <= k < mcu.len() && mcu[k] implies marked@[k] by {
                        if k != c.id() {
                            assert(mc[k]);
                        }
                    }
                    util::lemma_count_false_mono(mcu, marked@);
                    assert(util::count_false(marked@) <= fpre - 1);
                    self.lemma_po_kids_fuel(
                        u,
                        j + 1,
                        ordered@,
                        marked@,
                        (fpre - 1) as nat,
                        util::count_false(marked@),
                    );
                    assert(self.po_kids(u, j as int, oc, mc, fpre) == self.po_kids(
                        u,
                        j + 1,
                        ordered@,
                        marked@,
                        util::count_false(marked@),
                    ));
                }
            }
            j += 1;
        }
        let ghost mb = marked@;
        let ghost ob = ordered@;
        ordered.push(u);
        proof {
            assert(mb == marked@);
            assert(ordered@ == ob.push(u));
            assert(self.sort_inv(marked@, ob, anc2, root));
            assert(self.scanned(marked@, u)) by {
                assert forall|v: NodeHandle|
                    self.spec_edge(u, v) implies self.vset(marked@).contains(v) by {
                    let jj = choose|jj: int|
                        0 <= jj < self.spec_children(u).len() && (#[trigger] self.spec_children(
                            u,
                        )[jj]).to == v;
                    assert(self.vset(marked@).contains(self.spec_children(u)[jj].to));
                }
            }
            assert forall|h: NodeHandle|
                anc2.contains(h) <==> (anc.contains(h) || h == u) by {
                if anc.contains(h) {
                    let k = choose|k: int| 0 <= k < anc.len() && anc[k] == h;
                    assert(anc2[k] == h);
                }
                if anc2.contains(h) {
                    let k = choose|k: int| 0 <= k < anc2.len() && anc2[k] == h;
                    if k < anc.len() {
                        assert(anc[k] == h);
                    }
                }
            }
            assert forall|h: NodeHandle|
                ordered@.contains(h) <==> (ob.contains(h) || h == u) by {
                if ob.contains(h) {
                    let k = choose|k: int| 0 <= k < ob.len() && ob[k] == h;
                    assert(ordered@[k] == h);
                }
                if h == u {
                    assert(ordered@[ordered@.len() - 1] == u);
                }
                if ordered@.contains(h) {
                    let k = choose|k: int| 0 <= k < ordered@.len() && ordered@[k] == h;
                    if k < ob.len() {
                        assert(ob[k] == h);
                    }
                }
            }
            assert(ordered@.no_duplicates()) by {
                assert forall|a: int, b: int|
                    0 <= a < ordered@.len() && 0 <= b < ordered@.len() && a != b implies
                    ordered@[a] != ordered@[b] by {
                    if a < ob.len() && b < ob.len() {
                        assert(ob[a] != ob[b]);
                    } else if a < ob.len() {
                        if ob[a] == u {
                            assert(ob.contains(u));
                        }
                    } else if b < ob.len() {
                        if ob[b] == u {
                            assert(ob.contains(u));
                        }
                    }
                }
            }
            assert(ob.is_prefix_of(ordered@)) by {
                assert(ob =~= ordered@.subrange(0, ob.len() as int));
            }
            assert(o0.is_prefix_of(ordered@)) by {
                assert forall|k: int| 0 <= k < o0.len() implies o0[k] == ordered@[k] by {
                    assert(o0[k] == ob[k]);
                }
                assert(o0 =~= ordered@.subrange(0, o0.len() as int));
            }
            // Emitting `u` keeps the postorder discipline: every child of `u`
            // is marked, and a marked child that is not already emitted would
            // be an ancestor, which would close a cycle.
            if self.acyclic_from(root) {
                assert forall|i: int, v: NodeHandle|
                    0 <= i < ordered@.len() && #[trigger] self.spec_edge(ordered@[i], v) implies
                    exists|k: int| 0 <= k < i && ordered@[k] == v by {
                    if i < ob.len() {
                        assert(self.spec_edge(ob[i], v));
                        assert(self.children_before(ob));
                        let k = choose|k: int| 0 <= k < i && ob[k] == v;
                        assert(ordered@[k] == v);
                    } else {
                        assert(ordered@[i] == u);
                        assert(self.vset(marked@).contains(v)) by {
                            assert(self.scanned(marked@, u));
                        }
                        assert(ob.contains(v) || anc2.contains(v)) by {
                            assert(self.vset(marked@) == ob.to_set().union(anc2.to_set()));
                            assert((ob.to_set().union(anc2.to_set())).contains(v) == (
                            ob.contains(v) || anc2.contains(v)));
                        }
                        if ob.contains(v) {
                            let k = choose|k: int| 0 <= k < ob.len() && ob[k] == v;
                            assert(ordered@[k] == v);
                        } else {
                            // A marked but unemitted child is an in-progress
                            // ancestor; the edge back to it closes a cycle
                            // inside the region reachable from the root.
                            let k = choose|k: int| 0 <= k < anc2.len() && anc2[k] == v;
                            assert(self.rel()(u, v));
                            reach::lemma_path_suffix(self.rel(), anc2, k);
                            assert(anc2.last() == u);
                            reach::lemma_close_cycle(self.rel(), v, u);
                            let pw = choose|pw: Seq<NodeHandle>|
                                reach::is_cycle(self.rel(), pw) && pw.first() == v;
                            reach::lemma_path_prefix(self.rel(), anc2, k);
                            assert(anc2.first() == root);
                            assert(self.spec_reaches(root, v));
                            assert(false);
                        }
                    }
                }
            }
            assert(self.sort_inv(marked@, ordered@, anc, root)) by {
                assert forall|h: NodeHandle| anc.contains(h) implies self.has_node(h) by {
                    assert(anc2.contains(h));
                }
                assert(self.acyclic_from(root) ==> self.children_before(ordered@));
                assert(self.vset(marked@) == ob.to_set().union(anc2.to_set()));
                assert(self.vset(marked@) =~= ordered@.to_set().union(anc.to_set())) by {
                    assert forall|h: NodeHandle|
                        self.vset(marked@).contains(h) == (ordered@.to_set().union(
                        anc.to_set(),
                    )).contains(h) by {
                        assert((ob.to_set().union(anc2.to_set())).contains(h) == (ob.contains(h)
                            || anc2.contains(h)));
                        assert((ordered@.to_set().union(anc.to_set())).contains(h) == (
                        ordered@.contains(h) || anc.contains(h)));
                        assert(anc2.contains(h) <==> (anc.contains(h) || h == u));
                        assert(ordered@.contains(h) <==> (ob.contains(h) || h == u));
                    }
                }
                assert forall|h: NodeHandle|
                    self.vset(marked@).contains(h) && !anc.contains(h) implies
                    #[trigger] self.scanned(marked@, h) by {
                    if h == u {
                        assert(self.scanned(marked@, u));
                    } else {
                        assert(!anc2.contains(h));
                        assert(self.vset(marked@).contains(h) && !anc2.contains(h));
                        assert(self.scanned(marked@, h));
                    }
                }
                assert forall|h: NodeHandle|
                    ordered@.contains(h) implies self.has_node(h) by {
                    if h == u {
                    } else {
                        assert(ob.contains(h));
                    }
                }
            }
            assert(self.vset(marked@) == ordered@.to_set().union(anc.to_set()));
            // Two-state clauses, now against the entry state.
            assert forall|h: NodeHandle|
                ordered@.contains(h) implies o0.contains(h) || !self.vset(m0).contains(h) by {
                if h == u {
                    assert(!self.vset(m0).contains(u)) by {
                        assert(!m0[u.id()]);
                    }
                } else {
                    assert(ob.contains(h));
                }
            }
            // The whole call equals one step of the walk specification.
            assert(self.po_kids(u, len as int, ob, mb, util::count_false(mb)) == (ob, mb));
            assert(self.po_kids(u, 0, o0, m1g, util::count_false(m1g)) == (ob, mb));
            util::lemma_count_false_update(m0, ui as int);
            self.lemma_po_kids_fuel(
                u,
                0,
                o0,
                m1g,
                util::count_false(m1g),
                util::count_false(m0),
            );
            assert(self.po_node(u, o0, m0, util::count_false(m0)) == (ob.push(u), mb));
        }
    }

    /// The topological ordering of everything reachable from `from`, with
    /// every node listed before the nodes it has edges to ("forward":
    /// sources before the nodes that depend on them).
    pub fn iter_topo(&self, from: &NodeHandle) -> (out: Vec<NodeHandle>)
        requires
            self.wf(),
            self.has_node(*from),
        ensures
            out@.no_duplicates(),
            out@ == self.spec_topo_rev(*from).reverse(),
            out@.len() > 0 && out@[0] == *from,
            forall|h: NodeHandle| out@.contains(h) <==> self.spec_reaches(*from, h),
            self.acyclic_from(*from) ==> forall|i: int, k: int|
                0 <= i < out@.len() && 0 <= k < out@.len() && self.spec_edge(out@[i], out@[k])
                    ==> i < k,
    {
        let rev = self.iter_topo_rev(from);
        let mut out: Vec<NodeHandle> = Vec::new();
        let mut i: usize = rev.len();
        while i > 0
            invariant
                i <= rev.len(),
                out@.len() == rev@.len() - i,
                forall|k: int| 0 <= k < out@.len() ==> out@[k] == rev@[rev@.len() - 1 - k],
            decreases i,
        {
            i -= 1;
            out.push(rev[i]);
        }
        proof {
            let n = rev@.len() as int;
            assert(out@.len() == n);
            assert(out@ =~= rev@.reverse());
            assert(out@[0] == rev@[n - 1]);
            assert(out@.no_duplicates()) by {
                assert forall|a: int, b: int|
                    0 <= a < n && 0 <= b < n && a != b implies out@[a] != out@[b] by {
                    assert(out@[a] == rev@[n - 1 - a] && out@[b] == rev@[n - 1 - b]);
                    assert(rev@[n - 1 - a] != rev@[n - 1 - b]);
                }
            }
            assert forall|h: NodeHandle|
                out@.contains(h) <==> self.spec_reaches(*from, h) by {
                if out@.contains(h) {
                    let k = choose|k: int| 0 <= k < n && out@[k] == h;
                    assert(rev@[n - 1 - k] == h);
                    assert(rev@.contains(h));
                }
                if self.spec_reaches(*from, h) {
                    assert(rev@.contains(h));
                    let k = choose|k: int| 0 <= k < n && rev@[k] == h;
                    assert(out@[n - 1 - k] == h);
                    assert(out@.contains(h));
                }
            }
            if self.acyclic_from(*from) {
                assert forall|i2: int, k2: int|
                    0 <= i2 < n && 0 <= k2 < n && self.spec_edge(out@[i2], out@[k2]) implies i2
                    < k2 by {
                    assert(out@[i2] == rev@[n - 1 - i2] && out@[k2] == rev@[n - 1 - k2]);
                    assert(self.spec_edge(rev@[n - 1 - i2], rev@[n - 1 - k2]));
                }
            }
        }
        out
    }

    /// The reverse topological ordering of everything reachable from `from`:
    /// pure depth-first postorder, children before the nodes that point at
    /// them.  A node reachable along several paths appears exactly once.
    pub fn iter_topo_rev(&self, from: &NodeHandle) -> (out: Vec<NodeHandle>)
        requires
            self.wf(),
            self.has_node(*from),
        ensures
            out@.no_duplicates(),
            out@ == self.spec_topo_rev(*from),
            out@.len() > 0 && out@.last() == *from,
            forall|h: NodeHandle| out@.contains(h) <==> self.spec_reaches(*from, h),
            self.acyclic_from(*from) ==> self.children_before(out@),
            self.acyclic_from(*from) ==> forall|i: int, k: int|
                0 <= i < out@.len() && 0 <= k < out@.len() && self.spec_edge(out@[i], out@[k])
                    ==> k < i,
    {
        let n = self.nodes.len();
        let mut marked: Vec<bool> = Vec::new();
        let mut i: usize = 0;
        while i < n
            invariant
                i <= n,
                marked@.len() == i,
                forall|k: int| 0 <= k < i ==> !marked@[k],
            decreases n - i,
        {
            marked.push(false);
            i += 1;
        }
        let mut ordered: Vec<NodeHandle> = Vec::new();
        let ghost anc0 = Seq::<NodeHandle>::empty();
        let ghost minit = marked@;
        proof {
            assert(self.sort_inv(marked@, ordered@, anc0, *from)) by {
                assert(self.vset(marked@) =~= ordered@.to_set().union(anc0.to_set())) by {
                    assert forall|h: NodeHandle|
                        self.vset(marked@).contains(h) == (ordered@.to_set().union(
                        anc0.to_set(),
                    )).contains(h) by {
                        if self.has_node(h) {
                            assert(!marked@[h.id()]);
                        }
                        assert((ordered@.to_set().union(anc0.to_set())).contains(h) == (
                        ordered@.contains(h) || anc0.contains(h)));
                    }
                }
                assert forall|h: NodeHandle|
                    self.vset(marked@).contains(h) && !anc0.contains(h) implies
                    #[trigger] self.scanned(marked@, h) by {
                    assert(!marked@[h.id()]);
                }
            }
            assert(reach::is_path(self.rel(), anc0.push(*from)));
            assert(anc0.push(*from).first() == *from);
        }
        self.dfs_post(*from, &mut ordered, &mut marked, Ghost(anc0), Ghost(*from));
        proof {
            // The walk is the specification-level postorder.
            assert(minit =~= Seq::new(self.node_count() as nat, |k: int| false));
            util::lemma_count_false_all(minit);
            assert(ordered@ == self.spec_topo_rev(*from)) by {
                assert(util::count_false(minit) == self.node_count() as nat);
            }
            assert(ordered@.len() > 0 && ordered@.last() == *from) by {
                assert(!minit[from.id()]);
                let r = self.po_kids(
                    *from,
                    0,
                    Seq::<NodeHandle>::empty(),
                    minit.update(from.id(), true),
                    util::count_false(minit),
                );
                assert(self.po_node(*from, Seq::<NodeHandle>::empty(), minit, util::count_false(
                    minit,
                )) == (r.0.push(*from), r.1));
            }
            assert(self.sort_inv(marked@, ordered@, anc0, *from));
            assert(self.vset(marked@) == ordered@.to_set().union(anc0.to_set()));
            assert(reach::closed_under(self.rel(), self.vset(marked@))) by {
                assert forall|x: NodeHandle, y: NodeHandle|
                    self.vset(marked@).contains(x) && #[trigger] self.rel()(x, y) implies
                    self.vset(marked@).contains(y) by {
                    assert(!anc0.contains(x));
                    assert(self.scanned(marked@, x));
                    assert(self.spec_edge(x, y));
                }
            }
            assert forall|h: NodeHandle|
                ordered@.contains(h) <==> self.spec_reaches(*from, h) by {
                assert((ordered@.to_set().union(anc0.to_set())).contains(h) == (ordered@.contains(
                h,
                ) || anc0.contains(h)));
                assert(!anc0.contains(h));
                if ordered@.contains(h) {
                    assert(self.vset(marked@).contains(h));
                    assert(!self.vset(minit).contains(h)) by {
                        if self.has_node(h) {
                            assert(!minit[h.id()]);
                        }
                    }
                    assert(self.spec_reaches(*from, h));
                }
                if self.spec_reaches(*from, h) {
                    assert(self.vset(marked@).contains(*from));
                    reach::lemma_closed_reach(self.rel(), self.vset(marked@), *from, h);
                    assert(self.vset(marked@).contains(h));
                }
            }
            if self.acyclic_from(*from) {
                assert(self.children_before(ordered@));
                assert forall|i2: int, k2: int|
                    0 <= i2 < ordered@.len() && 0 <= k2 < ordered@.len() && self.spec_edge(
                        ordered@[i2],
                        ordered@[k2],
                    ) implies k2 < i2 by {
                    assert(self.spec_edge(ordered@[i2], ordered@[k2]));
                    let k3 = choose|k3: int| 0 <= k3 < i2 && ordered@[k3] == ordered@[k2];
                    if k3 != k2 {
                        assert(ordered@[k3] != ordered@[k2]);
                    }
                }
            }
        }
        ordered
    }

}

impl<N, E: EdgeWeight> RcDagBase<N, E> {
    /// Whether `u` already stores this exact half-edge.
    fn has_child(&self, u: &NodeHandle, d: &DagEdge<E>) -> (r: bool)
        requires
            self.has_node(*u),
        ensures
            r == self.spec_children(*u).contains(*d),
    {
        let len = self.children_len(u);
        let mut j: usize = 0;
        while j < len
            invariant
                j <= len,
                len == self.spec_children(*u).len(),
                self.has_node(*u),
                forall|k: int| 0 <= k < j ==> self.spec_children(*u)[k] != *d,
            decreases len - j,
        {
            let c = self.child_at(u, j);
            if c.to == d.to && c.weight.weight_eq(&d.weight) {
                proof {
                    assert(self.spec_children(*u)[j as int] == *d);
                }
                return true;
            }
            j += 1;
        }
        proof {
            if self.spec_children(*u).contains(*d) {
                let k = choose|k: int|
                    0 <= k < self.spec_children(*u).len() && self.spec_children(*u)[k] == *d;
                assert(self.spec_children(*u)[k] != *d);
            }
        }
        false
    }

    /// Commits the edge `from -> to` with weight `data`, with no cycle check:
    /// the caller is responsible for the resulting graph satisfying its own
    /// cycle policy.  Inserting an edge that is already present is a no-op,
    /// so the edge set gains exactly this edge.
    pub fn add_edge_unchecked(&mut self, from: &NodeHandle, to: &NodeHandle, data: E)
        requires
            old(self).wf(),
            old(self).has_node(*from),
            old(self).has_node(*to),
        ensures
            final(self).wf(),
            Self::same_but_children_of(*old(self), *final(self), *from),
            final(self).spec_children(*from) == (if old(self).spec_children(*from).contains(
                (DagEdge { to: *to, weight: data }),
            ) {
                old(self).spec_children(*from)
            } else {
                old(self).spec_children(*from).push((DagEdge { to: *to, weight: data }))
            }),
            final(self).edge_set() == old(self).edge_set().insert(
                (*from, (DagEdge { to: *to, weight: data })),
            ),
            old(self).spec_children(*from).contains((DagEdge { to: *to, weight: data }))
                ==> *final(self) == *old(self),
            forall|u: NodeHandle, v: NodeHandle|
                final(self).spec_edge(u, v) <==> (old(self).spec_edge(u, v) || (u == *from && v
                    == *to)),
    {
        let e = DagEdge { to: *to, weight: data };
        let present = self.has_child(from, &e);
        if !present {
            let i = self.slot(from);
            self.nodes[i].children.push(e);
        }
        proof {
            self.lemma_after_insert(*old(self), *from, e, present);
        }
    }

    /// Removes the edge `from -> to` with weight `data` if it is present;
    /// removing an absent edge is a no-op.
    pub fn rm_edge(&mut self, from: &NodeHandle, to: &NodeHandle, data: E)
        requires
            old(self).wf(),
            old(self).has_node(*from),
            old(self).has_node(*to),
        ensures
            final(self).wf(),
            Self::same_but_children_of(*old(self), *final(self), *from),
            final(self).spec_children(*from) == util::remove_first(
                old(self).spec_children(*from),
                (DagEdge { to: *to, weight: data }),
            ),
            final(self).edge_set() == old(self).edge_set().remove(
                (*from, (DagEdge { to: *to, weight: data })),
            ),
            forall|u: NodeHandle, v: NodeHandle|
                final(self).spec_edge(u, v) ==> old(self).spec_edge(u, v),
    {
        let e = DagEdge { to: *to, weight: data };
        let len = self.children_len(from);
        let mut j: usize = 0;
        let mut found: bool = false;
        let mut at: usize = 0;
        while j < len
            invariant
                j <= len,
                len == self.spec_children(*from).len(),
                self.has_node(*from),
                !found ==> forall|k: int| 0 <= k < j ==> self.spec_children(*from)[k] != e,
                found ==> at < j && self.spec_children(*from)[at as int] == e && forall|k: int|
                    0 <= k < at ==> self.spec_children(*from)[k] != e,
            decreases len - j,
        {
            if !found {
                let c = self.child_at(from, j);
                if c.to == e.to && c.weight.weight_eq(&e.weight) {
                    proof {
                        assert(self.spec_children(*from)[j as int] == e);
                    }
                    found = true;
                    at = j;
                }
            }
            j += 1;
        }
        if found {
            let i = self.slot(from);
            let _removed = self.nodes[i].children.remove(at);
            proof {
                util::lemma_remove_first_at(old(self).spec_children(*from), e, at as int);
                self.lemma_after_remove(*old(self), *from, e, at as int);
            }
        } else {
            proof {
                util::lemma_remove_first_len(old(self).spec_children(*from), e);
                if old(self).spec_children(*from).contains(e) {
                    let k = choose|k: int|
                        0 <= k < old(self).spec_children(*from).len() && old(self).spec_children(
                            *from,
                        )[k] == e;
                    assert(old(self).spec_children(*from)[k] != e);
                }
                assert(final(self).spec_children(*from) == util::remove_first(
                    old(self).spec_children(*from),
                    e,
                ));
                assert(final(self).edge_set() =~= old(self).edge_set().remove((*from, e)));
            }
        }
    }

    /// What one push into the edge list of `u` does to the graph-level views.
    proof fn lemma_after_insert(self, prev: Self, u: NodeHandle, e: DagEdge<E>, present: bool)
        requires
            prev.wf(),
            prev.has_node(u),
            prev.has_node(e.to),
            present == prev.spec_children(u).contains(e),
            self.node_count() == prev.node_count(),
            forall|h: NodeHandle| self.has_node(h) ==> self.spec_data(h) == prev.spec_data(h),
            forall|h: NodeHandle|
                self.has_node(h) && h != u ==> self.spec_children(h) == prev.spec_children(h),
            self.spec_children(u) == (if present {
                prev.spec_children(u)
            } else {
                prev.spec_children(u).push(e)
            }),
        ensures
            self.wf(),
            Self::same_but_children_of(prev, self, u),
            self.edge_set() == prev.edge_set().insert((u, e)),
            forall|x: NodeHandle, y: NodeHandle|
                self.spec_edge(x, y) <==> (prev.spec_edge(x, y) || (x == u && y == e.to)),
    {
        let old_kids = prev.spec_children(u);
        let new_kids = self.spec_children(u);
        assert forall|h: NodeHandle| self.has_node(h) implies #[trigger] self.kids_ok(h) by {
            assert(prev.kids_ok(h));
            if h == u && !present {
                assert(new_kids == old_kids.push(e));
                assert(new_kids.no_duplicates()) by {
                    assert forall|a: int, b: int|
                        0 <= a < new_kids.len() && 0 <= b < new_kids.len() && a != b implies
                        new_kids[a] != new_kids[b] by {
                        if a < old_kids.len() && b < old_kids.len() {
                            assert(old_kids[a] != old_kids[b]);
                        } else if a < old_kids.len() {
                            assert(new_kids[b] == e);
                            if old_kids[a] == e {
                                assert(old_kids.contains(e));
                            }
                        } else {
                            assert(new_kids[a] == e);
                            if old_kids[b] == e {
                                assert(old_kids.contains(e));
                            }
                        }
                    }
                }
                assert forall|j: int| 0 <= j < new_kids.len() implies self.has_node(
                    (#[trigger] new_kids[j]).to,
                ) by {
                    if j < old_kids.len() {
                        assert(prev.has_node(old_kids[j].to));
                    }
                }
            }
        }
        assert(self.edge_set() =~= prev.edge_set().insert((u, e))) by {
            assert forall|p: (NodeHandle, DagEdge<E>)|
                self.edge_set().contains(p) <==> prev.edge_set().insert((u, e)).contains(p) by {
                if p.0 == u {
                    if present {
                        assert(old_kids.contains(e));
                    } else {
                        assert forall|d: DagEdge<E>|
                            new_kids.contains(d) <==> (old_kids.contains(d) || d == e) by {
                            if new_kids.contains(d) {
                                let k = choose|k: int|
                                    0 <= k < new_kids.len() && new_kids[k] == d;
                                if k < old_kids.len() {
                                    assert(old_kids[k] == d);
                                }
                            }
                            if old_kids.contains(d) {
                                let k = choose|k: int|
                                    0 <= k < old_kids.len() && old_kids[k] == d;
                                assert(new_kids[k] == d);
                            }
                            if d == e {
                                assert(new_kids[new_kids.len() - 1] == e);
                            }
                        }
                    }
                }
            }
        }
        assert forall|x: NodeHandle, y: NodeHandle|
            self.spec_edge(x, y) <==> (prev.spec_edge(x, y) || (x == u && y == e.to)) by {
            if x == u {
                if !present {
                    assert(new_kids == old_kids.push(e));
                    if prev.spec_edge(x, y) {
                        let j = choose|j: int|
                            0 <= j < old_kids.len() && (#[trigger] old_kids[j]).to == y;
                        assert(new_kids[j].to == y);
                        assert(self.spec_edge(x, y));
                    }
                    if y == e.to {
                        assert(new_kids[new_kids.len() - 1].to == y);
                        assert(self.spec_edge(x, y));
                    }
                    if self.spec_edge(x, y) {
                        let j = choose|j: int|
                            0 <= j < new_kids.len() && (#[trigger] new_kids[j]).to == y;
                        if j < old_kids.len() {
                            assert(old_kids[j].to == y);
                            assert(prev.spec_edge(x, y));
                        } else {
                            assert(y == e.to);
                        }
                    }
                } else {
                    assert(new_kids == old_kids);
                    if y == e.to {
                        let k = choose|k: int| 0 <= k < old_kids.len() && old_kids[k] == e;
                        assert((#[trigger] old_kids[k]).to == y);
                        assert(prev.spec_edge(x, y));
                    }
                }
            }
        }
    }

    /// What removing index `at` from the edge list of `u` does to the views.
    proof fn lemma_after_remove(self, prev: Self, u: NodeHandle, e: DagEdge<E>, at: int)
        requires
            prev.wf(),
            prev.has_node(u),
            0 <= at < prev.spec_children(u).len(),
            prev.spec_children(u)[at] == e,
            self.node_count() == prev.node_count(),
            forall|h: NodeHandle| self.has_node(h) ==> self.spec_data(h) == prev.spec_data(h),
            forall|h: NodeHandle|
                self.has_node(h) && h != u ==> self.spec_children(h) == prev.spec_children(h),
            self.spec_children(u) == prev.spec_children(u).remove(at),
        ensures
            self.wf(),
            Self::same_but_children_of(prev, self, u),
            self.edge_set() == prev.edge_set().remove((u, e)),
            forall|x: NodeHandle, y: NodeHandle| self.spec_edge(x, y) ==> prev.spec_edge(x, y),
    {
        let old_kids = prev.spec_children(u);
        let new_kids = self.spec_children(u);
        assert(new_kids.len() == old_kids.len() - 1);
        assert forall|k: int| 0 <= k < new_kids.len() implies new_kids[k] == (if k < at {
            old_kids[k]
        } else {
            old_kids[k + 1]
        }) by {}
        assert forall|h: NodeHandle| self.has_node(h) implies #[trigger] self.kids_ok(h) by {
            assert(prev.kids_ok(h));
            if h == u {
                assert(new_kids.no_duplicates()) by {
                    assert forall|a: int, b: int|
                        0 <= a < new_kids.len() && 0 <= b < new_kids.len() && a != b implies
                        new_kids[a] != new_kids[b] by {
                        let a2 = if a < at { a } else { a + 1 };
                        let b2 = if b < at { b } else { b + 1 };
                        assert(old_kids[a2] != old_kids[b2]);
                    }
                }
                assert forall|j: int| 0 <= j < new_kids.len() implies self.has_node(
                    (#[trigger] new_kids[j]).to,
                ) by {
                    let j2 = if j < at { j } else { j + 1 };
                    assert(prev.has_node((#[trigger] old_kids[j2]).to));
                }
            }
        }
        assert(self.edge_set() =~= prev.edge_set().remove((u, e))) by {
            assert forall|p: (NodeHandle, DagEdge<E>)|
                self.edge_set().contains(p) <==> prev.edge_set().remove((u, e)).contains(p) by {
                if p.0 == u {
                    if new_kids.contains(p.1) {
                        let k = choose|k: int| 0 <= k < new_kids.len() && new_kids[k] == p.1;
                        let k2 = if k < at { k } else { k + 1 };
                        assert(old_kids[k2] == p.1);
                        if p.1 == e {
                            assert(prev.kids_ok(u));
                            assert(old_kids.no_duplicates());
                            assert(old_kids[at] == e);
                            assert(k2 != at ==> old_kids[k2] != old_kids[at]);
                        }
                    }
                    if old_kids.contains(p.1) && p.1 != e {
                        let k = choose|k: int| 0 <= k < old_kids.len() && old_kids[k] == p.1;
                        assert(k != at);
                        if k < at {
                            assert(new_kids[k] == p.1);
                        } else {
                            assert(new_kids[k - 1] == p.1);
                        }
                    }
                }
            }
        }
        assert forall|x: NodeHandle, y: NodeHandle|
            self.spec_edge(x, y) implies prev.spec_edge(x, y) by {
            if self.spec_edge(x, y) && x == u {
                let j = choose|j: int|
                    0 <= j < new_kids.len() && (#[trigger] new_kids[j]).to == y;
                let j2 = if j < at { j } else { j + 1 };
                assert((#[trigger] old_kids[j2]).to == y);
            }
        }
    }

    /// One step of the reachability walk: pops nothing itself, but visits all
    /// children of `u`, marking and stacking the unvisited ones, and reports
    /// whether `search` was found among them.
    fn scan_node(
        &self,
        u: NodeHandle,
        search: NodeHandle,
        visited: &mut Vec<bool>,
        stack: &mut Vec<NodeHandle>,
        Ghost(base): Ghost<NodeHandle>,
    ) -> (found: bool)
        requires
            self.wf(),
            self.has_node(u),
            self.has_node(search),
            self.has_node(base),
            old(visited)@.len() == self.node_count(),
            self.vset(old(visited)@).contains(u),
            forall|h: NodeHandle|
                self.vset(old(visited)@).contains(h) ==> self.spec_reaches(base, h),
            forall|h: NodeHandle| self.vset(old(visited)@).contains(h) ==> h != search,
            forall|k: int|
                0 <= k < old(stack)@.len() ==> self.vset(old(visited)@).contains(old(stack)@[k]),
        ensures
            final(visited)@.len() == self.node_count(),
            forall|h: NodeHandle|
                self.vset(old(visited)@).contains(h) ==> self.vset(final(visited)@).contains(h),
            found ==> self.spec_reaches(base, search),
            !found ==> forall|h: NodeHandle|
                self.vset(final(visited)@).contains(h) ==> self.spec_reaches(base, h),
            !found ==> forall|h: NodeHandle| self.vset(final(visited)@).contains(h) ==> h != search,
            !found ==> forall|k: int|
                0 <= k < final(stack)@.len() ==> self.vset(final(visited)@).contains(
                    final(stack)@[k],
                ),
            !found ==> old(stack)@.is_prefix_of(final(stack)@),
            !found ==> forall|h: NodeHandle|
                self.vset(final(visited)@).contains(h) ==> self.vset(old(visited)@).contains(h)
                    || final(stack)@.contains(h),
            !found ==> self.scanned(final(visited)@, u),
            util::count_false(final(visited)@) <= util::count_false(old(visited)@),
            final(stack)@.len() > old(stack)@.len() ==> util::count_false(final(visited)@)
                < util::count_false(old(visited)@),
    {
        let len = self.children_len(&u);
        let mut j: usize = 0;
        while j < len
            invariant
                self.wf(),
                self.has_node(u),
                self.has_node(search),
                self.has_node(base),
                j <= len,
                len == self.spec_children(u).len(),
                visited@.len() == self.node_count(),
                self.vset(visited@).contains(u),
                forall|h: NodeHandle|
                    self.vset(old(visited)@).contains(h) ==> self.vset(visited@).contains(h),
                forall|h: NodeHandle|
                    self.vset(visited@).contains(h) ==> self.spec_reaches(base, h),
                forall|h: NodeHandle| self.vset(visited@).contains(h) ==> h != search,
                forall|k: int|
                    0 <= k < stack@.len() ==> self.vset(visited@).contains(stack@[k]),
                old(stack)@.is_prefix_of(stack@),
                forall|h: NodeHandle|
                    self.vset(visited@).contains(h) ==> self.vset(old(visited)@).contains(h)
                        || stack@.contains(h),
                forall|jj: int|
                    0 <= jj < j ==> self.vset(visited@).contains(
                        (#[trigger] self.spec_children(u)[jj]).to,
                    ),
                util::count_false(visited@) <= util::count_false(old(visited)@),
                stack@.len() > old(stack)@.len() ==> util::count_false(visited@)
                    < util::count_false(old(visited)@),
            decreases len - j,
        {
            proof {
                assert(self.kids_ok(u));
            }
            let d = self.child_at(&u, j);
            let c = d.to;
            proof {
                assert(self.spec_edge(u, c)) by {
                    assert((#[trigger] self.spec_children(u)[j as int]).to == c);
                }
            }
            if c == search {
                proof {
                    assert(self.vset(visited@).contains(u));
                    assert(self.spec_reaches(base, u));
                    assert(self.rel()(u, c));
                    reach::lemma_reaches_extend(self.rel(), base, u, c);
                }
                return true;
            }
            let ci = self.slot(&c);
            if !visited[ci] {
                let ghost before = visited@;
                let ghost sbefore = stack@;
                visited[ci] = true;
                stack.push(c);
                proof {
                    assert(visited@ == before.update(ci as int, true));
                    util::lemma_count_false_update(before, ci as int);
                    assert forall|h: NodeHandle|
                        self.vset(before).contains(h) implies self.vset(visited@).contains(
                        h,
                    ) by {
                        assert(visited@[h.id()]);
                    }
                    assert(self.vset(visited@).contains(c));
                    assert(self.vset(visited@).contains(u));
                    assert(self.spec_reaches(base, u));
                    assert(self.rel()(u, c));
                    reach::lemma_reaches_extend(self.rel(), base, u, c);
                    assert forall|h: NodeHandle|
                        self.vset(visited@).contains(h) implies self.vset(before).contains(h) || h
                        == c by {
                        if h.id() != ci as int {
                            assert(before[h.id()] == visited@[h.id()]);
                        } else {
                            assert(h == c) by {
                                assert(h.id() == c.id());
                            }
                        }
                    }
                    assert(stack@ == sbefore.push(c));
                    assert(stack@[stack@.len() - 1] == c);
                    assert(stack@.contains(c));
                    assert forall|h: NodeHandle|
                        sbefore.contains(h) implies stack@.contains(h) by {
                        let k = choose|k: int| 0 <= k < sbefore.len() && sbefore[k] == h;
                        assert(stack@[k] == h);
                    }
                    assert forall|h: NodeHandle|
                        self.vset(visited@).contains(h) implies h != search by {
                        if !self.vset(before).contains(h) {
                            assert(h == c);
                        }
                    }
                    assert forall|h: NodeHandle|
                        self.vset(visited@).contains(h) implies self.vset(old(visited)@).contains(
                        h,
                    ) || stack@.contains(h) by {
                        if self.vset(before).contains(h) {
                            if sbefore.contains(h) {
                                assert(stack@.contains(h));
                            }
                        } else {
                            assert(h == c);
                        }
                    }
                }
            } else {
                proof {
                    assert(self.vset(visited@).contains(c));
                }
            }
            j += 1;
        }
        proof {
            assert forall|v: NodeHandle|
                self.spec_edge(u, v) implies self.vset(visited@).contains(v) by {
                let jj = choose|jj: int|
                    0 <= jj < self.spec_children(u).len() && (#[trigger] self.spec_children(
                        u,
                    )[jj]).to == v;
                assert(self.vset(visited@).contains(self.spec_children(u)[jj].to));
            }
        }
        false
    }

    /// True exactly when `search` is reachable from (or equal to) `base`,
    /// following outbound edges.  A pure query; the graph is unchanged.
    pub fn is_reachable(&self, search: &NodeHandle, base: &NodeHandle) -> (r: bool)
        requires
            self.wf(),
            self.has_node(*search),
            self.has_node(*base),
        ensures
            r == self.spec_reaches(*base, *search),
    {
        if *search == *base {
            proof {
                reach::lemma_reaches_refl(self.rel(), *base);
            }
            return true;
        }
        let n = self.nodes.len();
        let mut visited: Vec<bool> = Vec::new();
        let mut i: usize = 0;
        while i < n
            invariant
                i <= n,
                visited@.len() == i,
                forall|k: int| 0 <= k < i ==> !visited@[k],
            decreases n - i,
        {
            visited.push(false);
            i += 1;
        }
        let bi = self.slot(base);
        visited[bi] = true;
        let mut stack: Vec<NodeHandle> = Vec::new();
        stack.push(*base);
        proof {
            reach::lemma_reaches_refl(self.rel(), *base);
            assert forall|h: NodeHandle|
                self.vset(visited@).contains(h) implies h == *base by {
                if h.id() != bi as int {
                    assert(!visited@[h.id()]);
                }
            }
            assert(stack@[0] == *base);
            assert(stack@.contains(*base));
            assert(self.vset(visited@).contains(*base)) by {
                assert(visited@[bi as int]);
            }
        }
        while stack.len() > 0
            invariant
                self.wf(),
                self.has_node(*search),
                self.has_node(*base),
                *search != *base,
                visited@.len() == self.node_count(),
                self.vset(visited@).contains(*base),
                forall|h: NodeHandle|
                    self.vset(visited@).contains(h) ==> self.spec_reaches(*base, h),
                forall|h: NodeHandle| self.vset(visited@).contains(h) ==> h != *search,
                forall|k: int| 0 <= k < stack@.len() ==> self.vset(visited@).contains(stack@[k]),
                forall|h: NodeHandle|
                    self.vset(visited@).contains(h) && !stack@.contains(h)
                        ==> #[trigger] self.scanned(visited@, h),
            decreases util::count_false(visited@), stack@.len(),
        {
            let ghost stack0 = stack@;
            let ghost visited0 = visited@;
            let u = stack.pop().unwrap();
            proof {
                assert(stack0[stack0.len() - 1] == u);
                assert(self.vset(visited@).contains(u));
            }
            let ghost popped = stack@;
            let found = self.scan_node(u, *search, &mut visited, &mut stack, Ghost(*base));
            if found {
                return true;
            }
            proof {
                assert forall|h: NodeHandle|
                    self.vset(visited@).contains(h) && !stack@.contains(h)
                        implies #[trigger] self.scanned(visited@, h) by {
                    if h == u {
                        assert(self.scanned(visited@, u));
                    } else if self.vset(visited0).contains(h) {
                        if stack0.contains(h) {
                            let k = choose|k: int| 0 <= k < stack0.len() && stack0[k] == h;
                            assert(k < stack0.len() - 1);
                            assert(popped[k] == h);
                            assert(popped.is_prefix_of(stack@));
                            assert(stack@[k] == h);
                        } else {
                            assert(self.scanned(visited0, h));
                            assert forall|v: NodeHandle|
                                self.spec_edge(h, v) implies self.vset(visited@).contains(v) by {
                                assert(self.vset(visited0).contains(v));
                            }
                        }
                    } else {
                        assert(stack@.contains(h));
                    }
                }
            }
        }
        proof {
            let s = self.vset(visited@);
            assert(reach::closed_under(self.rel(), s)) by {
                assert forall|x: NodeHandle, y: NodeHandle|
                    s.contains(x) && #[trigger] self.rel()(x, y) implies s.contains(y) by {
                    assert(!stack@.contains(x));
                    assert(self.scanned(visited@, x));
                    assert(self.spec_edge(x, y));
                }
            }
            if self.spec_reaches(*base, *search) {
                reach::lemma_closed_reach(self.rel(), s, *base, *search);
            }
        }
        false
    }
}

} // verus!
