//! The strictly acyclic graph variant with a null boundary.
//!
//! `IODag` enforces cycle safety on every modification, like the strict
//! variant, but an edge may also begin or end at "null" — a sentinel location
//! standing for the world outside the graph, used to model external inputs
//! and outputs.  The null boundary is not a traversable node: edges touching
//! it can never take part in a cycle, so they are always safe to insert.
//! Each location keeps both its outbound and its inbound edges; the inbound
//! index is a derived view that every mutation keeps in agreement with the
//! outbound sets.

use vstd::prelude::*;

use crate::ondag::{AlreadyConnected, CycleError, EdgeWeight};
use crate::reach;
use crate::util;

verus! {

/// An opaque, copyable identity for a node of an `IODag`, issued by
/// `add_node`.  Two handles are equal exactly when they denote the same node.
#[derive(Clone, Copy, Debug, PartialEq, Eq, Hash, Structural)]
pub struct NodeHandle {
    index: u64,
}

/// An edge between two locations — each either a concrete node or the null
/// boundary — carrying a weight.  Identity is structural: the weight takes
/// part, so differently-weighted edges between the same endpoints coexist.
#[derive(Clone, Copy, Debug, PartialEq, Eq, Hash)]
pub struct Edge<W> {
    from: Option<NodeHandle>,
    to: Option<NodeHandle>,
    weight: W,
}

/// The outbound and inbound edges associated with one location.
struct EdgeSet<W> {
    outbound: Vec<Edge<W>>,
    inbound: Vec<Edge<W>>,
}

struct IoNode<N, W> {
    data: N,
    edges: EdgeSet<W>,
}

/// The graph: an arena of nodes (a slot goes empty when its node is deleted)
/// plus the null boundary's own edge sets.
pub struct IODag<N, W> {
    nodes: Vec<Option<IoNode<N, W>>>,
    null_edges: EdgeSet<W>,
}

impl NodeHandle {
    /// The arena slot this handle denotes.
    pub closed spec fn id(self) -> int {
        self.index as int
    }

    /// Handle identity is exactly slot identity.
    pub proof fn lemma_id_injective(a: NodeHandle, b: NodeHandle)
        requires
            a.id() == b.id(),
        ensures
            a == b,
    {
    }
}

impl<W> Edge<W> {
    /// The edge's source as a spec value.
    pub closed spec fn spec_from(self) -> Option<NodeHandle> {
        self.from
    }

    /// The edge's target as a spec value.
    pub closed spec fn spec_to(self) -> Option<NodeHandle> {
        self.to
    }

    /// The edge's weight as a spec value.
    pub closed spec fn spec_weight(self) -> W {
        self.weight
    }

    /// Builds the edge `from -> to` with the given weight.
    pub fn new(from: Option<NodeHandle>, to: Option<NodeHandle>, weight: W) -> (e: Edge<W>)
        ensures
            e.spec_from() == from,
            e.spec_to() == to,
            e.spec_weight() == weight,
    {
        Edge { from, to, weight }
    }

    /// The edge's source location.
    pub fn from(&self) -> (loc: &Option<NodeHandle>)
        ensures
            *loc == self.spec_from(),
    {
        &self.from
    }

    /// The edge's target location.
    pub fn to(&self) -> (loc: &Option<NodeHandle>)
        ensures
            *loc == self.spec_to(),
    {
        &self.to
    }

    /// The edge's weight.
    pub fn weight(&self) -> (w: &W)
        ensures
            *w == self.spec_weight(),
    {
        &self.weight
    }
}

impl<W> EdgeSet<W> {
    fn new() -> (s: EdgeSet<W>)
        ensures
            s.outbound@.len() == 0,
            s.inbound@.len() == 0,
    {
        EdgeSet { outbound: Vec::new(), inbound: Vec::new() }
    }

    fn is_empty(&self) -> (r: bool)
        ensures
            r == (self.outbound@.len() == 0),
    {
        self.outbound.len() == 0
    }
}

impl<N, W> IODag<N, W> {
    /// Number of node slots this graph has issued.
    pub closed spec fn node_count(self) -> int {
        self.nodes@.len() as int
    }

    /// Whether `h` denotes a live node of this graph.
    pub closed spec fn has_node(self, h: NodeHandle) -> bool {
        h.index < self.nodes@.len() && self.nodes@[h.index as int] is Some
    }

    /// A location is addressable: null always, a node while it is live.
    pub open spec fn loc_ok(self, loc: Option<NodeHandle>) -> bool {
        match loc {
            Option::None => true,
            Option::Some(h) => self.has_node(h),
        }
    }

    /// Both endpoints of the edge are addressable.
    pub open spec fn ok_edge(self, e: Edge<W>) -> bool {
        self.loc_ok(e.spec_from()) && self.loc_ok(e.spec_to())
    }

    /// The outbound edges of a location, in insertion order.
    pub closed spec fn out_of(self, loc: Option<NodeHandle>) -> Seq<Edge<W>> {
        match loc {
            Option::None => self.null_edges.outbound@,
            Option::Some(h) => if self.has_node(h) {
                match self.nodes@[h.index as int] {
                    Option::Some(n) => n.edges.outbound@,
                    Option::None => Seq::empty(),
                }
            } else {
                Seq::empty()
            },
        }
    }

    /// The inbound edges of a location, in insertion order.
    pub closed spec fn in_of(self, loc: Option<NodeHandle>) -> Seq<Edge<W>> {
        match loc {
            Option::None => self.null_edges.inbound@,
            Option::Some(h) => if self.has_node(h) {
                match self.nodes@[h.index as int] {
                    Option::Some(n) => n.edges.inbound@,
                    Option::None => Seq::empty(),
                }
            } else {
                Seq::empty()
            },
        }
    }

    /// The payload stored at `h`.
    pub closed spec fn spec_data(self, h: NodeHandle) -> N {
        match self.nodes@[h.index as int] {
            Option::Some(n) => n.data,
            Option::None => arbitrary(),
        }
    }

    /// The edge is committed: it sits in its source's outbound set.
    pub open spec fn edge_present(self, e: Edge<W>) -> bool {
        self.ok_edge(e) && self.out_of(e.spec_from()).contains(e)
    }

    /// All committed edges.
    pub open spec fn edge_set(self) -> Set<Edge<W>> {
        Set::new(|e: Edge<W>| self.edge_present(e))
    }

    /// There is at least one edge from node `u` to node `v`.
    pub open spec fn spec_edge(self, u: NodeHandle, v: NodeHandle) -> bool {
        self.has_node(u) && exists|j: int|
            0 <= j < self.out_of(Option::Some(u)).len() && (#[trigger] self.out_of(
                Option::Some(u),
            )[j]).spec_to() == Option::Some(v)
    }

    /// The step relation among concrete nodes; the null boundary is a dead
    /// end and takes part in no step.
    pub open spec fn rel(self) -> spec_fn(NodeHandle, NodeHandle) -> bool {
        |u: NodeHandle, v: NodeHandle| self.spec_edge(u, v)
    }

    /// `b` is reachable from `a` along zero or more edges between nodes.
    pub open spec fn spec_reaches(self, a: NodeHandle, b: NodeHandle) -> bool {
        reach::reaches(self.rel(), a, b)
    }

    /// The per-location shape of the edge lists: duplicate-free, stored under
    /// their own source (respectively target), with addressable endpoints.
    pub open spec fn lists_ok(self, loc: Option<NodeHandle>) -> bool {
        &&& self.out_of(loc).no_duplicates()
        &&& self.in_of(loc).no_duplicates()
        &&& (forall|j: int|
            0 <= j < self.out_of(loc).len() ==> (#[trigger] self.out_of(loc)[j]).spec_from()
                == loc && self.ok_edge(self.out_of(loc)[j]))
        &&& (forall|j: int|
            0 <= j < self.in_of(loc).len() ==> (#[trigger] self.in_of(loc)[j]).spec_to() == loc
                && self.ok_edge(self.in_of(loc)[j]))
    }

    /// Well-formedness: sound edge lists, outbound/inbound symmetry, and no
    /// cycle among the concrete nodes.  The conjuncts are public: callers may
    /// rely on the inbound index agreeing with the outbound sets.
    pub open spec fn wf(self) -> bool {
        &&& self.node_count() <= u64::MAX as int
        &&& (forall|loc: Option<NodeHandle>| self.loc_ok(loc) ==> #[trigger] self.lists_ok(loc))
        &&& (forall|e: Edge<W>|
            self.ok_edge(e) ==> ((#[trigger] self.out_of(e.spec_from()).contains(e))
                <==> self.in_of(e.spec_to()).contains(e)))
        &&& reach::acyclic(self.rel())
    }

    /// A graph recognizes handles only for its arena slots.
    pub broadcast proof fn lemma_has_node_id(g: IODag<N, W>, h: NodeHandle)
        ensures
            #[trigger] g.has_node(h) ==> 0 <= h.id() < g.node_count(),
    {
    }

    /// Acyclicity, stated for callers: two distinct nodes of a well-formed
    /// graph are never reachable from each other in both directions.
    pub proof fn lemma_no_mutual_reachability(self, a: NodeHandle, b: NodeHandle)
        requires
            self.wf(),
            a != b,
        ensures
            !(self.spec_reaches(a, b) && self.spec_reaches(b, a)),
    {
        reach::lemma_acyclic_no_mutual_reach(self.rel(), a, b);
    }

    /// Creates an empty graph: no nodes, and an empty null boundary.
    pub fn new() -> (dag: Self)
        ensures
            dag.wf(),
            dag.node_count() == 0,
            forall|h: NodeHandle| !dag.has_node(h),
            forall|loc: Option<NodeHandle>| (#[trigger] dag.out_of(loc)).len() == 0,
            forall|loc: Option<NodeHandle>| (#[trigger] dag.in_of(loc)).len() == 0,
    {
        let dag = IODag::<N, W> { nodes: Vec::new(), null_edges: EdgeSet::new() };
        proof {
            assert forall|loc: Option<NodeHandle>| (#[trigger] dag.out_of(loc)).len() == 0 by {
                if loc is Some {
                    assert(!dag.has_node(loc->Some_0));
                }
            }
            assert forall|loc: Option<NodeHandle>| (#[trigger] dag.in_of(loc)).len() == 0 by {
                if loc is Some {
                    assert(!dag.has_node(loc->Some_0));
                }
            }
            assert forall|u: NodeHandle, v: NodeHandle| !(#[trigger] dag.rel()(u, v)) by {
                assert(dag.out_of(Option::Some(u)).len() == 0);
            }
            reach::lemma_no_steps_acyclic(dag.rel());
        }
        dag
    }

    /// The exec index of a live node's handle.
    fn slot(&self, h: &NodeHandle) -> (i: usize)
        requires
            self.has_node(*h),
        ensures
            i as int == h.id(),
            i < self.node_count(),
    {
        let n = self.nodes.len();
        assert(h.index < n as u64);
        h.index as usize
    }

    /// Borrows the data of a node.
    pub fn node_data(&self, node: NodeHandle) -> (d: &N)
        requires
            self.has_node(node),
        ensures
            *d == self.spec_data(node),
    {
        let i = self.slot(&node);
        match &self.nodes[i] {
            Option::Some(n) => &n.data,
            Option::None => vstd::pervasive::unreached(),
        }
    }

    /// Allocates a node holding `node_data`, with empty edge sets.  The
    /// returned handle was never returned before by this graph: slots are
    /// never reused, so deletion cannot alias an old handle.
    pub fn add_node(&mut self, node_data: N) -> (h: NodeHandle)
        requires
            old(self).wf(),
            old(self).node_count() < u64::MAX as int,
        ensures
            final(self).wf(),
            h.id() == old(self).node_count(),
            !old(self).has_node(h),
            final(self).has_node(h),
            final(self).node_count() == old(self).node_count() + 1,
            forall|g: NodeHandle| old(self).has_node(g) ==> final(self).has_node(g),
            forall|g: NodeHandle| final(self).has_node(g) ==> old(self).has_node(g) || g == h,
            final(self).out_of(Option::Some(h)).len() == 0,
            final(self).in_of(Option::Some(h)).len() == 0,
            forall|loc: Option<NodeHandle>|
                old(self).loc_ok(loc) ==> final(self).out_of(loc) == old(self).out_of(loc)
                    && final(self).in_of(loc) == old(self).in_of(loc),
            forall|g: NodeHandle|
                old(self).has_node(g) ==> final(self).spec_data(g) == old(self).spec_data(g),
            final(self).spec_data(h) == node_data,
            final(self).edge_set() == old(self).edge_set(),
            forall|a: NodeHandle, b: NodeHandle|
                final(self).spec_reaches(a, b) == old(self).spec_reaches(a, b),
    {
        let ghost prev = *self;
        let idx = self.nodes.len();
        self.nodes.push(Option::Some(IoNode { data: node_data, edges: EdgeSet::new() }));
        let h = NodeHandle { index: idx as u64 };
        proof {
            assert(self.has_node(h));
            assert forall|loc: Option<NodeHandle>|
                prev.loc_ok(loc) implies self.out_of(loc) == prev.out_of(loc) && self.in_of(loc)
                == prev.in_of(loc) by {
                if loc is Some {
                    assert(self.nodes@[loc->Some_0.id()] == prev.nodes@[loc->Some_0.id()]);
                }
            }
            assert(self.out_of(Option::Some(h)).len() == 0);
            assert(self.in_of(Option::Some(h)).len() == 0);
            assert forall|u: NodeHandle, v: NodeHandle|
                #[trigger] self.spec_edge(u, v) <==> prev.spec_edge(u, v) by {
                if u.id() < idx {
                    assert(self.out_of(Option::Some(u)) == prev.out_of(Option::Some(u)));
                } else if self.has_node(u) {
                    assert(u == h) by {
                        NodeHandle::lemma_id_injective(u, h);
                    }
                    assert(self.out_of(Option::Some(u)).len() == 0);
                    assert(!prev.has_node(u));
                } else {
                    assert(!prev.has_node(u));
                }
            }
            assert forall|a: NodeHandle, b: NodeHandle|
                self.spec_reaches(a, b) == prev.spec_reaches(a, b) by {
                if self.spec_reaches(a, b) {
                    reach::lemma_reaches_mono(self.rel(), prev.rel(), a, b);
                }
                if prev.spec_reaches(a, b) {
                    reach::lemma_reaches_mono(prev.rel(), self.rel(), a, b);
                }
            }
            assert(reach::acyclic(self.rel())) by {
                reach::lemma_acyclic_mono(self.rel(), prev.rel());
            }
            assert(self.wf()) by {
                assert forall|loc: Option<NodeHandle>|
                    self.loc_ok(loc) implies #[trigger] self.lists_ok(loc) by {
                    if loc is Some && loc->Some_0 == h {
                        assert(self.out_of(loc).len() == 0 && self.in_of(loc).len() == 0);
                    } else {
                        assert(prev.loc_ok(loc));
                        assert(prev.lists_ok(loc));
                        assert(self.out_of(loc) == prev.out_of(loc));
                        assert(self.in_of(loc) == prev.in_of(loc));
                        assert forall|j: int|
                            0 <= j < self.out_of(loc).len() implies (#[trigger] self.out_of(
                            loc,
                        )[j]).spec_from() == loc && self.ok_edge(self.out_of(loc)[j]) by {
                            assert(prev.ok_edge(prev.out_of(loc)[j]));
                        }
                        assert forall|j: int|
                            0 <= j < self.in_of(loc).len() implies (#[trigger] self.in_of(
                            loc,
                        )[j]).spec_to() == loc && self.ok_edge(self.in_of(loc)[j]) by {
                            assert(prev.ok_edge(prev.in_of(loc)[j]));
                        }
                    }
                }
                assert forall|e: Edge<W>|
                    self.ok_edge(e) implies ((#[trigger] self.out_of(e.spec_from()).contains(e))
                    <==> self.in_of(e.spec_to()).contains(e)) by {
                    if self.ok_edge(e) {
                        if (e.spec_from() is Some && e.spec_from()->Some_0 == h) || (e.spec_to()
                            is Some && e.spec_to()->Some_0 == h) {
                            // A fresh node has empty edge sets, and the edge
                            // could not have existed before.
                            if e.spec_from() is Some && e.spec_from()->Some_0 == h {
                                assert(self.out_of(e.spec_from()).len() == 0);
                                if self.in_of(e.spec_to()).contains(e) {
                                    if e.spec_to() is Some && e.spec_to()->Some_0 == h {
                                        assert(false);
                                    } else {
                                        assert(prev.loc_ok(e.spec_to()));
                                        assert(prev.lists_ok(e.spec_to()));
                                        let j = choose|j: int|
                                            0 <= j < prev.in_of(e.spec_to()).len() && prev.in_of(
                                                e.spec_to(),
                                            )[j] == e;
                                        assert(prev.ok_edge(prev.in_of(e.spec_to())[j]));
                                        assert(prev.loc_ok(e.spec_from()));
                                        assert(!prev.has_node(h));
                                    }
                                }
                            } else {
                                assert(self.in_of(e.spec_to()).len() == 0);
                                if self.out_of(e.spec_from()).contains(e) {
                                    assert(prev.loc_ok(e.spec_from()));
                                    assert(prev.lists_ok(e.spec_from()));
                                    let j = choose|j: int|
                                        0 <= j < prev.out_of(e.spec_from()).len() && prev.out_of(
                                            e.spec_from(),
                                        )[j] == e;
                                    assert(prev.ok_edge(prev.out_of(e.spec_from())[j]));
                                    assert(prev.loc_ok(e.spec_to()));
                                    assert(!prev.has_node(h));
                                }
                            }
                        } else {
                            assert(prev.ok_edge(e));
                            assert(self.out_of(e.spec_from()) == prev.out_of(e.spec_from()));
                            assert(self.in_of(e.spec_to()) == prev.in_of(e.spec_to()));
                        }
                    }
                }
            }
            assert(self.edge_set() =~= prev.edge_set()) by {
                assert forall|e: Edge<W>|
                    self.edge_present(e) <==> prev.edge_present(e) by {
                    if self.edge_present(e) {
                        assert(self.lists_ok(e.spec_from()));
                        if e.spec_from() is Some && e.spec_from()->Some_0 == h {
                            assert(self.out_of(e.spec_from()).len() == 0);
                        } else {
                            if e.spec_to() is Some && e.spec_to()->Some_0 == h {
                                let j = choose|j: int|
                                    0 <= j < self.out_of(e.spec_from()).len() && self.out_of(
                                        e.spec_from(),
                                    )[j] == e;
                                assert(self.ok_edge(self.out_of(e.spec_from())[j]));
                                assert(self.in_of(e.spec_to()).contains(e));
                                assert(false);
                            }
                            assert(prev.loc_ok(e.spec_from()) && prev.loc_ok(e.spec_to()));
                            assert(prev.out_of(e.spec_from()) == self.out_of(e.spec_from()));
                        }
                    }
                    if prev.edge_present(e) {
                        assert(prev.loc_ok(e.spec_from()));
                        assert(self.out_of(e.spec_from()) == prev.out_of(e.spec_from()));
                        assert(self.loc_ok(e.spec_from()) && self.loc_ok(e.spec_to()));
                    }
                }
            }
        }
        h
    }
}

/// Location equality, decided structurally.
fn loc_eq(a: &Option<NodeHandle>, b: &Option<NodeHandle>) -> (r: bool)
    ensures
        r == (*a == *b),
{
    match (a, b) {
        (Option::None, Option::None) => true,
        (Option::Some(x), Option::Some(y)) => *x == *y,
        _ => false,
    }
}

/// Edge equality, decided structurally: endpoints and weight.
fn edge_eq<W: EdgeWeight>(a: &Edge<W>, b: &Edge<W>) -> (r: bool)
    ensures
        r == (*a == *b),
{
    loc_eq(a.from(), b.from()) && loc_eq(a.to(), b.to()) && a.weight().weight_eq(b.weight())
}

impl<N, W: EdgeWeight> IODag<N, W> {
    /// Whether `h` currently denotes a live node.
    pub fn contains_node(&self, h: &NodeHandle) -> (r: bool)
        ensures
            r == self.has_node(*h),
    {
        let n = self.nodes.len();
        if h.index >= n as u64 {
            return false;
        }
        let i = h.index as usize;
        match &self.nodes[i] {
            Option::Some(_) => true,
            Option::None => false,
        }
    }

    /// How many outbound edges a location has.
    fn out_len(&self, loc: &Option<NodeHandle>) -> (l: usize)
        requires
            self.loc_ok(*loc),
        ensures
            l == self.out_of(*loc).len(),
    {
        match loc {
            Option::None => self.null_edges.outbound.len(),
            Option::Some(h) => {
                let i = self.slot(h);
                match &self.nodes[i] {
                    Option::Some(n) => n.edges.outbound.len(),
                    Option::None => vstd::pervasive::unreached(),
                }
            },
        }
    }

    /// The `j`-th outbound edge of a location.
    fn out_at(&self, loc: &Option<NodeHandle>, j: usize) -> (e: Edge<W>)
        requires
            self.loc_ok(*loc),
            j < self.out_of(*loc).len(),
        ensures
            e == self.out_of(*loc)[j as int],
    {
        match loc {
            Option::None => self.null_edges.outbound[j],
            Option::Some(h) => {
                let i = self.slot(h);
                match &self.nodes[i] {
                    Option::Some(n) => n.edges.outbound[j],
                    Option::None => vstd::pervasive::unreached(),
                }
            },
        }
    }

    /// How many inbound edges a location has.
    fn in_len(&self, loc: &Option<NodeHandle>) -> (l: usize)
        requires
            self.loc_ok(*loc),
        ensures
            l == self.in_of(*loc).len(),
    {
        match loc {
            Option::None => self.null_edges.inbound.len(),
            Option::Some(h) => {
                let i = self.slot(h);
                match &self.nodes[i] {
                    Option::Some(n) => n.edges.inbound.len(),
                    Option::None => vstd::pervasive::unreached(),
                }
            },
        }
    }

    /// The `j`-th inbound edge of a location.
    fn in_at(&self, loc: &Option<NodeHandle>, j: usize) -> (e: Edge<W>)
        requires
            self.loc_ok(*loc),
            j < self.in_of(*loc).len(),
        ensures
            e == self.in_of(*loc)[j as int],
    {
        match loc {
            Option::None => self.null_edges.inbound[j],
            Option::Some(h) => {
                let i = self.slot(h);
                match &self.nodes[i] {
                    Option::Some(n) => n.edges.inbound[j],
                    Option::None => vstd::pervasive::unreached(),
                }
            },
        }
    }

    /// Whether the edge sits in its source's outbound set.
    fn has_out(&self, e: &Edge<W>) -> (r: bool)
        requires
            self.loc_ok(e.spec_from()),
        ensures
            r == self.out_of(e.spec_from()).contains(*e),
    {
        let loc = *e.from();
        let len = self.out_len(&loc);
        let mut j: usize = 0;
        while j < len
            invariant
                j <= len,
                loc == e.spec_from(),
                self.loc_ok(loc),
                len == self.out_of(loc).len(),
                forall|k: int| 0 <= k < j ==> self.out_of(loc)[k] != *e,
            decreases len - j,
        {
            let c = self.out_at(&loc, j);
            if edge_eq(&c, e) {
                proof {
                    assert(self.out_of(loc)[j as int] == *e);
                }
                return true;
            }
            j += 1;
        }
        proof {
            if self.out_of(loc).contains(*e) {
                let k = choose|k: int|
                    0 <= k < self.out_of(loc).len() && self.out_of(loc)[k] == *e;
                assert(self.out_of(loc)[k] != *e);
            }
        }
        false
    }

    /// Appends `e` to its source's outbound list; nothing else changes.
    fn push_out(&mut self, e: Edge<W>)
        requires
            old(self).loc_ok(e.spec_from()),
        ensures
            final(self).node_count() == old(self).node_count(),
            forall|h: NodeHandle| final(self).has_node(h) == old(self).has_node(h),
            forall|h: NodeHandle|
                final(self).has_node(h) ==> final(self).spec_data(h) == old(self).spec_data(h),
            forall|loc: Option<NodeHandle>|
                #[trigger] final(self).in_of(loc) == old(self).in_of(loc),
            forall|loc: Option<NodeHandle>|
                loc != e.spec_from() ==> #[trigger] final(self).out_of(loc) == old(self).out_of(
                    loc,
                ),
            final(self).out_of(e.spec_from()) == old(self).out_of(e.spec_from()).push(e),
    {
        let ghost prev = *self;
        match *e.from() {
            Option::None => {
                self.null_edges.outbound.push(e);
            },
            Option::Some(h) => {
                let i = self.slot(&h);
                match &mut self.nodes[i] {
                    Option::Some(n) => {
                        n.edges.outbound.push(e);
                    },
                    Option::None => {
                        proof {
                            assert(false);
                        }
                    },
                }
            },
        }
        proof {
            self.lemma_one_list_changed(prev, e.spec_from());
        }
    }

    /// Appends `e` to its target's inbound list; nothing else changes.
    fn push_in(&mut self, e: Edge<W>)
        requires
            old(self).loc_ok(e.spec_to()),
        ensures
            final(self).node_count() == old(self).node_count(),
            forall|h: NodeHandle| final(self).has_node(h) == old(self).has_node(h),
            forall|h: NodeHandle|
                final(self).has_node(h) ==> final(self).spec_data(h) == old(self).spec_data(h),
            forall|loc: Option<NodeHandle>|
                #[trigger] final(self).out_of(loc) == old(self).out_of(loc),
            forall|loc: Option<NodeHandle>|
                loc != e.spec_to() ==> #[trigger] final(self).in_of(loc) == old(self).in_of(loc),
            final(self).in_of(e.spec_to()) == old(self).in_of(e.spec_to()).push(e),
    {
        let ghost prev = *self;
        match *e.to() {
            Option::None => {
                self.null_edges.inbound.push(e);
            },
            Option::Some(h) => {
                let i = self.slot(&h);
                match &mut self.nodes[i] {
                    Option::Some(n) => {
                        n.edges.inbound.push(e);
                    },
                    Option::None => {
                        proof {
                            assert(false);
                        }
                    },
                }
            },
        }
        proof {
            self.lemma_one_list_changed(prev, e.spec_to());
        }
    }

    /// Removes the first occurrence of `e` from its source's outbound list.
    fn remove_out(&mut self, e: Edge<W>)
        requires
            old(self).loc_ok(e.spec_from()),
        ensures
            final(self).node_count() == old(self).node_count(),
            forall|h: NodeHandle| final(self).has_node(h) == old(self).has_node(h),
            forall|h: NodeHandle|
                final(self).has_node(h) ==> final(self).spec_data(h) == old(self).spec_data(h),
            forall|loc: Option<NodeHandle>|
                #[trigger] final(self).in_of(loc) == old(self).in_of(loc),
            forall|loc: Option<NodeHandle>|
                loc != e.spec_from() ==> #[trigger] final(self).out_of(loc) == old(self).out_of(
                    loc,
                ),
            final(self).out_of(e.spec_from()) == util::remove_first(
                old(self).out_of(e.spec_from()),
                e,
            ),
    {
        let ghost prev = *self;
        let loc = *e.from();
        let len = self.out_len(&loc);
        let mut j: usize = 0;
        let mut found: bool = false;
        let mut at: usize = 0;
        while !found && j < len
            invariant
                j <= len,
                loc == e.spec_from(),
                self.loc_ok(loc),
                len == self.out_of(loc).len(),
                !found ==> forall|k: int| 0 <= k < j ==> self.out_of(loc)[k] != e,
                found ==> at < len && self.out_of(loc)[at as int] == e && forall|k: int|
                    0 <= k < at ==> self.out_of(loc)[k] != e,
            decreases len - j, (if found { 0int } else { 1int }),
        {
            let c = self.out_at(&loc, j);
            if edge_eq(&c, &e) {
                proof {
                    assert(self.out_of(loc)[j as int] == e);
                }
                found = true;
                at = j;
            } else {
                j += 1;
            }
        }
        if found {
            match *e.from() {
                Option::None => {
                    let _removed = self.null_edges.outbound.remove(at);
                },
                Option::Some(h) => {
                    let i = self.slot(&h);
                    match &mut self.nodes[i] {
                        Option::Some(n) => {
                            let _removed = n.edges.outbound.remove(at);
                        },
                        Option::None => {
                            proof {
                                assert(false);
                            }
                        },
                    }
                },
            }
            proof {
                util::lemma_remove_first_at(prev.out_of(e.spec_from()), e, at as int);
                self.lemma_one_list_changed(prev, e.spec_from());
            }
        } else {
            proof {
                util::lemma_remove_first_len(prev.out_of(e.spec_from()), e);
                if prev.out_of(e.spec_from()).contains(e) {
                    let k = choose|k: int|
                        0 <= k < prev.out_of(e.spec_from()).len() && prev.out_of(
                            e.spec_from(),
                        )[k] == e;
                    assert(prev.out_of(e.spec_from())[k] != e);
                }
            }
        }
    }

    /// Removes the first occurrence of `e` from its target's inbound list.
    fn remove_in(&mut self, e: Edge<W>)
        requires
            old(self).loc_ok(e.spec_to()),
        ensures
            final(self).node_count() == old(self).node_count(),
            forall|h: NodeHandle| final(self).has_node(h) == old(self).has_node(h),
            forall|h: NodeHandle|
                final(self).has_node(h) ==> final(self).spec_data(h) == old(self).spec_data(h),
            forall|loc: Option<NodeHandle>|
                #[trigger] final(self).out_of(loc) == old(self).out_of(loc),
            forall|loc: Option<NodeHandle>|
                loc != e.spec_to() ==> #[trigger] final(self).in_of(loc) == old(self).in_of(loc),
            final(self).in_of(e.spec_to()) == util::remove_first(
                old(self).in_of(e.spec_to()),
                e,
            ),
    {
        let ghost prev = *self;
        let loc = *e.to();
        let len = self.in_len(&loc);
        let mut j: usize = 0;
        let mut found: bool = false;
        let mut at: usize = 0;
        while !found && j < len
            invariant
                j <= len,
                loc == e.spec_to(),
                self.loc_ok(loc),
                len == self.in_of(loc).len(),
                !found ==> forall|k: int| 0 <= k < j ==> self.in_of(loc)[k] != e,
                found ==> at < len && self.in_of(loc)[at as int] == e && forall|k: int|
                    0 <= k < at ==> self.in_of(loc)[k] != e,
            decreases len - j, (if found { 0int } else { 1int }),
        {
            let c = self.in_at(&loc, j);
            if edge_eq(&c, &e) {
                proof {
                    assert(self.in_of(loc)[j as int] == e);
                }
                found = true;
                at = j;
            } else {
                j += 1;
            }
        }
        if found {
            match *e.to() {
                Option::None => {
                    let _removed = self.null_edges.inbound.remove(at);
                },
                Option::Some(h) => {
                    let i = self.slot(&h);
                    match &mut self.nodes[i] {
                        Option::Some(n) => {
                            let _removed = n.edges.inbound.remove(at);
                        },
                        Option::None => {
                            proof {
                                assert(false);
                            }
                        },
                    }
                },
            }
            proof {
                util::lemma_remove_first_at(prev.in_of(e.spec_to()), e, at as int);
                self.lemma_one_list_changed(prev, e.spec_to());
            }
        } else {
            proof {
                util::lemma_remove_first_len(prev.in_of(e.spec_to()), e);
                if prev.in_of(e.spec_to()).contains(e) {
                    let k = choose|k: int|
                        0 <= k < prev.in_of(e.spec_to()).len() && prev.in_of(e.spec_to())[k] == e;
                    assert(prev.in_of(e.spec_to())[k] != e);
                }
            }
        }
    }

    /// After a mutation that touched the edge lists of one location only, the
    /// node set, the payloads, and every other location's lists agree.
    proof fn lemma_one_list_changed(self, prev: Self, at: Option<NodeHandle>)
        requires
            self.nodes@.len() == prev.nodes@.len(),
            at is Some ==> {
                let i = at->Some_0.id();
                &&& prev.has_node(at->Some_0)
                &&& (forall|k: int| 0 <= k < prev.nodes@.len() && k != i ==> self.nodes@[k] == prev.nodes@[k])
                &&& self.nodes@[i] is Some
                &&& prev.nodes@[i] is Some
                &&& self.nodes@[i]->Some_0.data == prev.nodes@[i]->Some_0.data
                &&& self.null_edges.outbound@ == prev.null_edges.outbound@
                &&& self.null_edges.inbound@ == prev.null_edges.inbound@
            },
            at is None ==> {
                &&& (forall|k: int| 0 <= k < prev.nodes@.len() ==> self.nodes@[k] == prev.nodes@[k])
            },
        ensures
            self.node_count() == prev.node_count(),
            forall|h: NodeHandle| self.has_node(h) == prev.has_node(h),
            forall|h: NodeHandle| self.has_node(h) ==> self.spec_data(h) == prev.spec_data(h),
            forall|loc: Option<NodeHandle>|
                loc != at ==> (#[trigger] self.out_of(loc) == prev.out_of(loc) && self.in_of(loc)
                    == prev.in_of(loc)),
    {
        assert forall|h: NodeHandle| self.has_node(h) == prev.has_node(h) by {
            if at is Some && h.id() == at->Some_0.id() {
                NodeHandle::lemma_id_injective(h, at->Some_0);
            } else {
                if 0 <= h.id() < prev.nodes@.len() {
                    assert(self.nodes@[h.id()] == prev.nodes@[h.id()]);
                }
            }
        }
        assert forall|h: NodeHandle|
            self.has_node(h) implies self.spec_data(h) == prev.spec_data(h) by {
            if at is Some && h.id() == at->Some_0.id() {
                NodeHandle::lemma_id_injective(h, at->Some_0);
            } else {
                assert(self.nodes@[h.id()] == prev.nodes@[h.id()]);
            }
        }
        assert forall|loc: Option<NodeHandle>|
            loc != at implies (#[trigger] self.out_of(loc) == prev.out_of(loc) && self.in_of(loc)
            == prev.in_of(loc)) by {
            match loc {
                Option::None => {
                    if at is Some {
                    }
                },
                Option::Some(g) => {
                    if at is Some && g.id() == at->Some_0.id() {
                        NodeHandle::lemma_id_injective(g, at->Some_0);
                    } else {
                        if 0 <= g.id() < prev.nodes@.len() {
                            assert(self.nodes@[g.id()] == prev.nodes@[g.id()]);
                        }
                    }
                },
            }
        }
    }
}

impl<N, W: EdgeWeight> IODag<N, W> {
    /// The nodes a mark array declares visited.
    spec fn vset(self, marked: Seq<bool>) -> Set<NodeHandle> {
        Set::new(
            |h: NodeHandle| self.has_node(h) && 0 <= h.id() < marked.len() && marked[h.id()],
        )
    }

    /// Every edge out of `h` lands on a visited node.
    spec fn scanned(self, marked: Seq<bool>, h: NodeHandle) -> bool {
        forall|v: NodeHandle| self.spec_edge(h, v) ==> self.vset(marked).contains(v)
    }

    /// One step of the reachability walk: visits all node successors of `u`,
    /// marking and stacking the unvisited ones; reports whether `search` was
    /// found among them.
    fn scan_node(
        &self,
        u: NodeHandle,
        search: NodeHandle,
        visited: &mut Vec<bool>,
        stack: &mut Vec<NodeHandle>,
        Ghost(base): Ghost<NodeHandle>,
    ) -> (found: bool)
        requires
            self.wf(),
            self.has_node(u),
            self.has_node(search),
            self.has_node(base),
            old(visited)@.len() == self.node_count(),
            self.vset(old(visited)@).contains(u),
            forall|h: NodeHandle|
                self.vset(old(visited)@).contains(h) ==> self.spec_reaches(base, h),
            forall|h: NodeHandle| self.vset(old(visited)@).contains(h) ==> h != search,
            forall|k: int|
                0 <= k < old(stack)@.len() ==> self.vset(old(visited)@).contains(old(stack)@[k]),
        ensures
            final(visited)@.len() == self.node_count(),
            forall|h: NodeHandle|
                self.vset(old(visited)@).contains(h) ==> self.vset(final(visited)@).contains(h),
            found ==> self.spec_reaches(base, search),
            !found ==> forall|h: NodeHandle|
                self.vset(final(visited)@).contains(h) ==> self.spec_reaches(base, h),
            !found ==> forall|h: NodeHandle| self.vset(final(visited)@).contains(h) ==> h != search,
            !found ==> forall|k: int|
                0 <= k < final(stack)@.len() ==> self.vset(final(visited)@).contains(
                    final(stack)@[k],
                ),
            !found ==> old(stack)@.is_prefix_of(final(stack)@),
            !found ==> forall|h: NodeHandle|
                self.vset(final(visited)@).contains(h) ==> self.vset(old(visited)@).contains(h)
                    || final(stack)@.contains(h),
            !found ==> self.scanned(final(visited)@, u),
            util::count_false(final(visited)@) <= util::count_false(old(visited)@),
            final(stack)@.len() > old(stack)@.len() ==> util::count_false(final(visited)@)
                < util::count_false(old(visited)@),
    {
        let loc = Option::Some(u);
        let len = self.out_len(&loc);
        let mut j: usize = 0;
        while j < len
            invariant
                self.wf(),
                self.has_node(u),
                self.has_node(search),
                self.has_node(base),
                loc == Option::<NodeHandle>::Some(u),
                j <= len,
                len == self.out_of(loc).len(),
                visited@.len() == self.node_count(),
                self.vset(visited@).contains(u),
                forall|h: NodeHandle|
                    self.vset(old(visited)@).contains(h) ==> self.vset(visited@).contains(h),
                forall|h: NodeHandle|
                    self.vset(visited@).contains(h) ==> self.spec_reaches(base, h),
                forall|h: NodeHandle| self.vset(visited@).contains(h) ==> h != search,
                forall|k: int| 0 <= k < stack@.len() ==> self.vset(visited@).contains(stack@[k]),
                old(stack)@.is_prefix_of(stack@),
                forall|h: NodeHandle|
                    self.vset(visited@).contains(h) ==> self.vset(old(visited)@).contains(h)
                        || stack@.contains(h),
                forall|jj: int|
                    0 <= jj < j ==> ((#[trigger] self.out_of(loc)[jj]).spec_to() is Some
                        ==> self.vset(visited@).contains(self.out_of(loc)[jj].spec_to()->Some_0)),
                util::count_false(visited@) <= util::count_false(old(visited)@),
                stack@.len() > old(stack)@.len() ==> util::count_false(visited@)
                    < util::count_false(old(visited)@),
            decreases len - j,
        {
            proof {
                assert(self.lists_ok(loc));
            }
            let d = self.out_at(&loc, j);
            match *d.to() {
                Option::None => {},
                Option::Some(c) => {
                    proof {
                        assert(self.ok_edge(self.out_of(loc)[j as int]));
                        assert(self.has_node(c));
                        assert(self.spec_edge(u, c)) by {
                            assert((#[trigger] self.out_of(loc)[j as int]).spec_to()
                                == Option::Some(c));
                        }
                    }
                    if c == search {
                        proof {
                            assert(self.spec_reaches(base, u));
                            assert(self.rel()(u, c));
                            reach::lemma_reaches_extend(self.rel(), base, u, c);
                        }
                        return true;
                    }
                    let ci = self.slot(&c);
                    if !visited[ci] {
                        let ghost before = visited@;
                        let ghost sbefore = stack@;
                        visited[ci] = true;
                        stack.push(c);
                        proof {
                            assert(visited@ == before.update(ci as int, true));
                            util::lemma_count_false_update(before, ci as int);
                            assert forall|h: NodeHandle|
                                self.vset(before).contains(h) implies self.vset(
                                visited@,
                            ).contains(h) by {
                                assert(visited@[h.id()]);
                            }
                            assert(self.vset(visited@).contains(c));
                            assert(self.vset(visited@).contains(u));
                            assert(self.spec_reaches(base, u));
                            assert(self.rel()(u, c));
                            reach::lemma_reaches_extend(self.rel(), base, u, c);
                            assert forall|h: NodeHandle|
                                self.vset(visited@).contains(h) implies self.vset(
                                before,
                            ).contains(h) || h == c by {
                                if h.id() != ci as int {
                                    assert(before[h.id()] == visited@[h.id()]);
                                } else {
                                    assert(h == c) by {
                                        NodeHandle::lemma_id_injective(h, c);
                                    }
                                }
                            }
                            assert(stack@ == sbefore.push(c));
                            assert(stack@[stack@.len() - 1] == c);
                            assert(stack@.contains(c));
                            assert forall|h: NodeHandle|
                                sbefore.contains(h) implies stack@.contains(h) by {
                                let k = choose|k: int| 0 <= k < sbefore.len() && sbefore[k] == h;
                                assert(stack@[k] == h);
                            }
                            assert forall|h: NodeHandle|
                                self.vset(visited@).contains(h) implies h != search by {
                                if !self.vset(before).contains(h) {
                                    assert(h == c);
                                }
                            }
                            assert forall|h: NodeHandle|
                                self.vset(visited@).contains(h) implies self.vset(
                                old(visited)@,
                            ).contains(h) || stack@.contains(h) by {
                                if self.vset(before).contains(h) {
                                    if sbefore.contains(h) {
                                        assert(stack@.contains(h));
                                    }
                                } else {
                                    assert(h == c);
                                }
                            }
                            assert(old(stack)@.is_prefix_of(stack@)) by {
                                assert forall|k: int|
                                    0 <= k < old(stack)@.len() implies old(stack)@[k]
                                    == stack@[k] by {
                                    assert(old(stack)@[k] == sbefore[k]);
                                }
                                assert(old(stack)@ =~= stack@.subrange(
                                    0,
                                    old(stack)@.len() as int,
                                ));
                            }
                        }
                    } else {
                        proof {
                            assert(self.vset(visited@).contains(c));
                        }
                    }
                },
            }
            j += 1;
        }
        proof {
            assert forall|v: NodeHandle|
                self.spec_edge(u, v) implies self.vset(visited@).contains(v) by {
                let jj = choose|jj: int|
                    0 <= jj < self.out_of(loc).len() && (#[trigger] self.out_of(loc)[jj]).spec_to()
                        == Option::Some(v);
                assert(self.out_of(loc)[jj].spec_to() is Some);
                assert(self.vset(visited@).contains(self.out_of(loc)[jj].spec_to()->Some_0));
            }
        }
        false
    }

    /// True exactly when `search` is reachable from (or equal to) `base`,
    /// following outbound edges between concrete nodes; the null boundary is
    /// a dead end.  A pure query.
    fn is_reachable(&self, search: &NodeHandle, base: &NodeHandle) -> (r: bool)
        requires
            self.wf(),
            self.has_node(*search),
            self.has_node(*base),
        ensures
            r == self.spec_reaches(*base, *search),
    {
        if *search == *base {
            proof {
                reach::lemma_reaches_refl(self.rel(), *base);
            }
            return true;
        }
        let n = self.nodes.len();
        let mut visited: Vec<bool> = Vec::new();
        let mut i: usize = 0;
        while i < n
            invariant
                i <= n,
                visited@.len() == i,
                forall|k: int| 0 <= k < i ==> !visited@[k],
            decreases n - i,
        {
            visited.push(false);
            i += 1;
        }
        let bi = self.slot(base);
        visited[bi] = true;
        let mut stack: Vec<NodeHandle> = Vec::new();
        stack.push(*base);
        proof {
            reach::lemma_reaches_refl(self.rel(), *base);
            assert forall|h: NodeHandle|
                self.vset(visited@).contains(h) implies h == *base by {
                if h.id() != bi as int {
                    assert(!visited@[h.id()]);
                } else {
                    NodeHandle::lemma_id_injective(h, *base);
                }
            }
            assert(stack@[0] == *base);
            assert(stack@.contains(*base));
            assert(self.vset(visited@).contains(*base)) by {
                assert(visited@[bi as int]);
            }
        }
        while stack.len() > 0
            invariant
                self.wf(),
                self.has_node(*search),
                self.has_node(*base),
                *search != *base,
                visited@.len() == self.node_count(),
                self.vset(visited@).contains(*base),
                forall|h: NodeHandle|
                    self.vset(visited@).contains(h) ==> self.spec_reaches(*base, h),
                forall|h: NodeHandle| self.vset(visited@).contains(h) ==> h != *search,
                forall|k: int| 0 <= k < stack@.len() ==> self.vset(visited@).contains(stack@[k]),
                forall|h: NodeHandle|
                    self.vset(visited@).contains(h) && !stack@.contains(h)
                        ==> #[trigger] self.scanned(visited@, h),
            decreases util::count_false(visited@), stack@.len(),
        {
            let ghost stack0 = stack@;
            let ghost visited0 = visited@;
            let u = stack.pop().unwrap();
            proof {
                assert(stack0[stack0.len() - 1] == u);
                assert(self.vset(visited@).contains(u));
            }
            let ghost popped = stack@;
            let found = self.scan_node(u, *search, &mut visited, &mut stack, Ghost(*base));
            if found {
                return true;
            }
            proof {
                assert forall|h: NodeHandle|
                    self.vset(visited@).contains(h) && !stack@.contains(h) implies
                    #[trigger] self.scanned(visited@, h) by {
                    if h == u {
                        assert(self.scanned(visited@, u));
                    } else if self.vset(visited0).contains(h) {
                        if stack0.contains(h) {
                            let k = choose|k: int| 0 <= k < stack0.len() && stack0[k] == h;
                            assert(k < stack0.len() - 1);
                            assert(popped[k] == h);
                            assert(popped.is_prefix_of(stack@));
                            assert(stack@[k] == h);
                        } else {
                            assert(self.scanned(visited0, h));
                            assert forall|v: NodeHandle|
                                self.spec_edge(h, v) implies self.vset(visited@).contains(v) by {
                                assert(self.vset(visited0).contains(v));
                            }
                        }
                    } else {
                        assert(stack@.contains(h));
                    }
                }
            }
        }
        proof {
            let s = self.vset(visited@);
            assert(reach::closed_under(self.rel(), s)) by {
                assert forall|x: NodeHandle, y: NodeHandle|
                    s.contains(x) && #[trigger] self.rel()(x, y) implies s.contains(y) by {
                    assert(!stack@.contains(x));
                    assert(self.scanned(visited@, x));
                    assert(self.spec_edge(x, y));
                }
            }
            if self.spec_reaches(*base, *search) {
                reach::lemma_closed_reach(self.rel(), s, *base, *search);
            }
        }
        false
    }

    /// Whether the candidate edge can be committed without closing a cycle:
    /// an edge touching the null boundary always can; an edge between
    /// concrete nodes `from -> to` can exactly when `from` is not already
    /// reachable from `to`.  A pure query; the graph is unchanged.
    pub fn can_add_edge(&self, edge: &Edge<W>) -> (r: Result<(), CycleError>)
        requires
            self.wf(),
            self.ok_edge(*edge),
        ensures
            r is Err <==> (edge.spec_from() is Some && edge.spec_to() is Some
                && self.spec_reaches(edge.spec_to()->Some_0, edge.spec_from()->Some_0)),
    {
        match (*edge.from(), *edge.to()) {
            (Option::Some(f), Option::Some(t)) => {
                if self.is_reachable(&f, &t) {
                    Err(CycleError)
                } else {
                    Ok(())
                }
            },
            _ => Ok(()),
        }
    }
}

impl<N, W: EdgeWeight> IODag<N, W> {
    /// The candidate edge cannot close a cycle: it touches the null boundary,
    /// or its source is not reachable from its target.
    pub open spec fn safe_edge(self, e: Edge<W>) -> bool {
        !(e.spec_from() is Some && e.spec_to() is Some && self.spec_reaches(
            e.spec_to()->Some_0,
            e.spec_from()->Some_0,
        ))
    }

    /// Commits the edge with no cycle check: the caller must know it is safe.
    /// Inserting an edge that is already present is a no-op, so the edge set
    /// gains exactly this edge; the inbound index is kept in agreement.
    pub fn add_edge_unchecked(&mut self, edge: Edge<W>)
        requires
            old(self).wf(),
            old(self).ok_edge(edge),
            old(self).safe_edge(edge),
        ensures
            final(self).wf(),
            final(self).node_count() == old(self).node_count(),
            forall|h: NodeHandle| final(self).has_node(h) == old(self).has_node(h),
            forall|h: NodeHandle|
                final(self).has_node(h) ==> final(self).spec_data(h) == old(self).spec_data(h),
            final(self).edge_set() == old(self).edge_set().insert(edge),
            final(self).out_of(edge.spec_from()) == (if old(self).out_of(
                edge.spec_from(),
            ).contains(edge) {
                old(self).out_of(edge.spec_from())
            } else {
                old(self).out_of(edge.spec_from()).push(edge)
            }),
            final(self).in_of(edge.spec_to()) == (if old(self).out_of(
                edge.spec_from(),
            ).contains(edge) {
                old(self).in_of(edge.spec_to())
            } else {
                old(self).in_of(edge.spec_to()).push(edge)
            }),
            forall|loc: Option<NodeHandle>|
                loc != edge.spec_from() ==> #[trigger] final(self).out_of(loc) == old(
                    self,
                ).out_of(loc),
            forall|loc: Option<NodeHandle>|
                loc != edge.spec_to() ==> #[trigger] final(self).in_of(loc) == old(self).in_of(
                    loc,
                ),
            old(self).edge_present(edge) ==> *final(self) == *old(self),
            forall|u: NodeHandle, v: NodeHandle|
                final(self).spec_edge(u, v) <==> (old(self).spec_edge(u, v) || (edge.spec_from()
                    == Option::Some(u) && edge.spec_to() == Option::Some(v))),
    {
        let ghost prev = *self;
        let present = self.has_out(&edge);
        if present {
            proof {
                // The committed edge already witnesses its own step, so the
                // step relation is unchanged.
                assert forall|u: NodeHandle, v: NodeHandle|
                    self.spec_edge(u, v) <==> (prev.spec_edge(u, v) || (edge.spec_from()
                        == Option::Some(u) && edge.spec_to() == Option::Some(v))) by {
                    if edge.spec_from() == Option::Some(u) && edge.spec_to() == Option::Some(v) {
                        let k = choose|k: int|
                            0 <= k < prev.out_of(edge.spec_from()).len() && prev.out_of(
                                edge.spec_from(),
                            )[k] == edge;
                        assert((#[trigger] prev.out_of(Option::Some(u))[k]).spec_to()
                            == Option::Some(v));
                    }
                }
                assert(self.edge_set() =~= prev.edge_set().insert(edge));
            }
            return ;
        }
        self.push_out(edge);
        let ghost mid = *self;
        self.push_in(edge);
        proof {
            let from = edge.spec_from();
            let to = edge.spec_to();
            let newout = prev.out_of(from).push(edge);
            let newin = prev.in_of(to).push(edge);
            assert(self.out_of(from) == newout);
            assert(self.in_of(to) == newin) by {
                assert(mid.in_of(to) == prev.in_of(to));
            }
            assert(forall|loc: Option<NodeHandle>|
                loc != from ==> #[trigger] self.out_of(loc) == prev.out_of(loc));
            assert(forall|loc: Option<NodeHandle>|
                loc != to ==> #[trigger] self.in_of(loc) == prev.in_of(loc));
            assert(forall|h: NodeHandle| self.has_node(h) == prev.has_node(h));
            // Membership in the two touched lists.
            assert(!prev.in_of(to).contains(edge)) by {
                assert(prev.ok_edge(edge));
            }
            assert forall|e2: Edge<W>|
                newout.contains(e2) <==> (prev.out_of(from).contains(e2) || e2 == edge) by {
                if newout.contains(e2) {
                    let k = choose|k: int| 0 <= k < newout.len() && newout[k] == e2;
                    if k < prev.out_of(from).len() {
                        assert(prev.out_of(from)[k] == e2);
                    }
                }
                if prev.out_of(from).contains(e2) {
                    let k = choose|k: int|
                        0 <= k < prev.out_of(from).len() && prev.out_of(from)[k] == e2;
                    assert(newout[k] == e2);
                }
                if e2 == edge {
                    assert(newout[newout.len() - 1] == edge);
                }
            }
            assert forall|e2: Edge<W>|
                newin.contains(e2) <==> (prev.in_of(to).contains(e2) || e2 == edge) by {
                if newin.contains(e2) {
                    let k = choose|k: int| 0 <= k < newin.len() && newin[k] == e2;
                    if k < prev.in_of(to).len() {
                        assert(prev.in_of(to)[k] == e2);
                    }
                }
                if prev.in_of(to).contains(e2) {
                    let k = choose|k: int|
                        0 <= k < prev.in_of(to).len() && prev.in_of(to)[k] == e2;
                    assert(newin[k] == e2);
                }
                if e2 == edge {
                    assert(newin[newin.len() - 1] == edge);
                }
            }
            // ok_edge is preserved pointwise, since liveness is.
            assert(forall|e2: Edge<W>| self.ok_edge(e2) == prev.ok_edge(e2));
            // The step relation gains exactly the new edge's step.
            assert forall|u: NodeHandle, v: NodeHandle|
                self.spec_edge(u, v) <==> (prev.spec_edge(u, v) || (from == Option::Some(u) && to
                    == Option::Some(v))) by {
                if from == Option::Some(u) {
                    if prev.spec_edge(u, v) {
                        let k = choose|k: int|
                            0 <= k < prev.out_of(Option::Some(u)).len() && (
                            #[trigger] prev.out_of(Option::Some(u))[k]).spec_to()
                                == Option::Some(v);
                        assert((#[trigger] self.out_of(Option::Some(u))[k]).spec_to()
                            == Option::Some(v));
                    }
                    if to == Option::Some(v) {
                        assert((#[trigger] self.out_of(Option::Some(u))[newout.len()
                            - 1]).spec_to() == Option::Some(v));
                    }
                    if self.spec_edge(u, v) {
                        let k = choose|k: int|
                            0 <= k < self.out_of(Option::Some(u)).len() && (
                            #[trigger] self.out_of(Option::Some(u))[k]).spec_to()
                                == Option::Some(v);
                        if k < prev.out_of(from).len() {
                            assert((#[trigger] prev.out_of(Option::Some(u))[k]).spec_to()
                                == Option::Some(v));
                        } else {
                            assert(newout[k] == edge);
                        }
                    }
                } else {
                    assert(self.out_of(Option::Some(u)) == prev.out_of(Option::Some(u)));
                    if prev.spec_edge(u, v) {
                        let k = choose|k: int|
                            0 <= k < prev.out_of(Option::Some(u)).len() && (
                            #[trigger] prev.out_of(Option::Some(u))[k]).spec_to()
                                == Option::Some(v);
                        assert((#[trigger] self.out_of(Option::Some(u))[k]).spec_to()
                            == Option::Some(v));
                    }
                    if self.spec_edge(u, v) {
                        let k = choose|k: int|
                            0 <= k < self.out_of(Option::Some(u)).len() && (
                            #[trigger] self.out_of(Option::Some(u))[k]).spec_to()
                                == Option::Some(v);
                        assert((#[trigger] prev.out_of(Option::Some(u))[k]).spec_to()
                            == Option::Some(v));
                    }
                }
            }
            // Acyclicity: an edge touching null adds no step; an edge between
            // nodes is gated by the reachability oracle.
            assert(reach::acyclic(self.rel())) by {
                if from is Some && to is Some {
                    reach::lemma_add_step_acyclic(
                        prev.rel(),
                        self.rel(),
                        from->Some_0,
                        to->Some_0,
                    );
                } else {
                    assert forall|u: NodeHandle, v: NodeHandle|
                        #[trigger] self.rel()(u, v) implies prev.rel()(u, v) by {
                        assert(self.spec_edge(u, v) ==> prev.spec_edge(u, v) || (from
                            == Option::Some(u) && to == Option::Some(v)));
                    }
                    reach::lemma_acyclic_mono(self.rel(), prev.rel());
                }
            }
            // Well-formed lists at every location.
            assert forall|loc: Option<NodeHandle>|
                self.loc_ok(loc) implies #[trigger] self.lists_ok(loc) by {
                assert(prev.loc_ok(loc));
                assert(prev.lists_ok(loc));
                assert(self.out_of(loc).no_duplicates() && self.in_of(loc).no_duplicates()) by {
                    if loc == from {
                        assert forall|a: int, b: int|
                            0 <= a < newout.len() && 0 <= b < newout.len() && a != b implies
                            newout[a] != newout[b] by {
                            let po = prev.out_of(from);
                            if a < po.len() && b < po.len() {
                                assert(po[a] != po[b]);
                            } else if a < po.len() {
                                if po[a] == edge {
                                    assert(po.contains(edge));
                                }
                            } else if b < po.len() {
                                if po[b] == edge {
                                    assert(po.contains(edge));
                                }
                            }
                        }
                    }
                    if loc == to {
                        assert forall|a: int, b: int|
                            0 <= a < newin.len() && 0 <= b < newin.len() && a != b implies
                            newin[a] != newin[b] by {
                            let pi = prev.in_of(to);
                            if a < pi.len() && b < pi.len() {
                                assert(pi[a] != pi[b]);
                            } else if a < pi.len() {
                                if pi[a] == edge {
                                    assert(pi.contains(edge));
                                }
                            } else if b < pi.len() {
                                if pi[b] == edge {
                                    assert(pi.contains(edge));
                                }
                            }
                        }
                    }
                }
                assert forall|j: int|
                    0 <= j < self.out_of(loc).len() implies (#[trigger] self.out_of(
                    loc,
                )[j]).spec_from() == loc && self.ok_edge(self.out_of(loc)[j]) by {
                    if loc == from && j == self.out_of(loc).len() - 1 && !(j < prev.out_of(
                        loc,
                    ).len()) {
                        assert(self.out_of(loc)[j] == edge);
                    } else {
                        assert(self.out_of(loc)[j] == prev.out_of(loc)[j]);
                        assert(prev.ok_edge(prev.out_of(loc)[j]));
                    }
                }
                assert forall|j: int|
                    0 <= j < self.in_of(loc).len() implies (#[trigger] self.in_of(
                    loc,
                )[j]).spec_to() == loc && self.ok_edge(self.in_of(loc)[j]) by {
                    if loc == to && j == self.in_of(loc).len() - 1 && !(j < prev.in_of(
                        loc,
                    ).len()) {
                        assert(self.in_of(loc)[j] == edge);
                    } else {
                        assert(self.in_of(loc)[j] == prev.in_of(loc)[j]);
                        assert(prev.ok_edge(prev.in_of(loc)[j]));
                    }
                }
            }
            // Outbound/inbound symmetry.
            assert forall|e2: Edge<W>|
                self.ok_edge(e2) implies ((#[trigger] self.out_of(e2.spec_from()).contains(e2))
                <==> self.in_of(e2.spec_to()).contains(e2)) by {
                assert(prev.ok_edge(e2));
                if e2 == edge {
                } else {
                    assert(self.out_of(e2.spec_from()).contains(e2) == prev.out_of(
                        e2.spec_from(),
                    ).contains(e2)) by {
                        if e2.spec_from() == from {
                            assert(newout.contains(e2) <==> (prev.out_of(from).contains(e2) || e2
                                == edge));
                        }
                    }
                    assert(self.in_of(e2.spec_to()).contains(e2) == prev.in_of(
                        e2.spec_to(),
                    ).contains(e2)) by {
                        if e2.spec_to() == to {
                            assert(newin.contains(e2) <==> (prev.in_of(to).contains(e2) || e2
                                == edge));
                        }
                    }
                }
            }
            // The edge set gains exactly the new edge.
            assert(self.edge_set() =~= prev.edge_set().insert(edge)) by {
                assert forall|e2: Edge<W>|
                    self.edge_present(e2) <==> (prev.edge_present(e2) || e2 == edge) by {
                    if e2 == edge {
                        assert(self.out_of(from).contains(edge));
                    } else {
                        if e2.spec_from() == from {
                            assert(newout.contains(e2) <==> (prev.out_of(from).contains(e2) || e2
                                == edge));
                        } else {
                            assert(self.out_of(e2.spec_from()) == prev.out_of(e2.spec_from()));
                        }
                    }
                }
            }
        }
    }

    /// Commits the edge unless doing so would close a cycle among concrete
    /// nodes: an edge touching the null boundary is always safe; an edge
    /// `from -> to` between nodes is rejected exactly when `from` is already
    /// reachable from `to`.  A rejected edge leaves the graph exactly as it
    /// was; inserting an edge that is already present succeeds and also
    /// changes nothing.
    pub fn add_edge(&mut self, edge: Edge<W>) -> (r: Result<(), CycleError>)
        requires
            old(self).wf(),
            old(self).ok_edge(edge),
        ensures
            final(self).wf(),
            r is Err <==> (edge.spec_from() is Some && edge.spec_to() is Some && old(
                self,
            ).spec_reaches(edge.spec_to()->Some_0, edge.spec_from()->Some_0)),
            r is Err ==> *final(self) == *old(self),
            r is Ok ==> final(self).edge_set() == old(self).edge_set().insert(edge),
            r is Ok ==> final(self).out_of(edge.spec_from()) == (if old(self).out_of(
                edge.spec_from(),
            ).contains(edge) {
                old(self).out_of(edge.spec_from())
            } else {
                old(self).out_of(edge.spec_from()).push(edge)
            }),
            r is Ok ==> final(self).in_of(edge.spec_to()) == (if old(self).out_of(
                edge.spec_from(),
            ).contains(edge) {
                old(self).in_of(edge.spec_to())
            } else {
                old(self).in_of(edge.spec_to()).push(edge)
            }),
            r is Ok ==> forall|loc: Option<NodeHandle>|
                loc != edge.spec_from() ==> #[trigger] final(self).out_of(loc) == old(
                    self,
                ).out_of(loc),
            r is Ok ==> forall|loc: Option<NodeHandle>|
                loc != edge.spec_to() ==> #[trigger] final(self).in_of(loc) == old(self).in_of(
                    loc,
                ),
            final(self).node_count() == old(self).node_count(),
            forall|h: NodeHandle| final(self).has_node(h) == old(self).has_node(h),
            forall|h: NodeHandle|
                final(self).has_node(h) ==> final(self).spec_data(h) == old(self).spec_data(h),
            old(self).edge_present(edge) ==> (r is Ok && *final(self) == *old(self)),
    {
        let verdict = self.can_add_edge(&edge);
        match verdict {
            Err(err) => {
                proof {
                    if old(self).edge_present(edge) {
                        // A committed edge between nodes witnesses a step, and
                        // an acyclic graph has no path running back along it.
                        let from = edge.spec_from();
                        let f = from->Some_0;
                        let t = edge.spec_to()->Some_0;
                        let k = choose|k: int|
                            0 <= k < self.out_of(from).len() && self.out_of(from)[k] == edge;
                        assert((#[trigger] self.out_of(Option::Some(f))[k]).spec_to()
                            == Option::Some(t));
                        assert(self.spec_edge(f, t));
                        assert(self.rel()(f, t));
                        reach::lemma_acyclic_no_back_path(self.rel(), f, t);
                    }
                }
                Err(err)
            },
            Ok(ok) => {
                self.add_edge_unchecked(edge);
                Ok(ok)
            },
        }
    }

    /// Removes the edge from its source's outbound set and its target's
    /// inbound set, if present; removing an absent edge — including one whose
    /// endpoints no longer exist — is a no-op.
    pub fn del_edge(&mut self, edge: Edge<W>)
        requires
            old(self).wf(),
        ensures
            final(self).wf(),
            final(self).node_count() == old(self).node_count(),
            forall|h: NodeHandle| final(self).has_node(h) == old(self).has_node(h),
            forall|h: NodeHandle|
                final(self).has_node(h) ==> final(self).spec_data(h) == old(self).spec_data(h),
            !final(self).edge_present(edge),
            !final(self).out_of(edge.spec_from()).contains(edge),
            !final(self).in_of(edge.spec_to()).contains(edge),
            final(self).edge_set() == old(self).edge_set().remove(edge),
            forall|loc: Option<NodeHandle>|
                loc != edge.spec_from() ==> #[trigger] final(self).out_of(loc) == old(
                    self,
                ).out_of(loc),
            old(self).loc_ok(edge.spec_from()) ==> final(self).out_of(edge.spec_from())
                == util::remove_first(old(self).out_of(edge.spec_from()), edge),
            !old(self).loc_ok(edge.spec_from()) ==> final(self).out_of(edge.spec_from()) == old(
                self,
            ).out_of(edge.spec_from()),
            forall|loc: Option<NodeHandle>|
                loc != edge.spec_to() ==> #[trigger] final(self).in_of(loc) == old(self).in_of(
                    loc,
                ),
            old(self).loc_ok(edge.spec_to()) ==> final(self).in_of(edge.spec_to())
                == util::remove_first(old(self).in_of(edge.spec_to()), edge),
            !old(self).loc_ok(edge.spec_to()) ==> final(self).in_of(edge.spec_to()) == old(
                self,
            ).in_of(edge.spec_to()),
    {
        let ghost prev = *self;
        let from_ok = match edge.from() {
            Option::None => true,
            Option::Some(h) => self.contains_node(h),
        };
        if from_ok {
            self.remove_out(edge);
        }
        let ghost mid = *self;
        let to_ok = match edge.to() {
            Option::None => true,
            Option::Some(h) => self.contains_node(h),
        };
        if to_ok {
            self.remove_in(edge);
        }
        proof {
            let from = edge.spec_from();
            let to = edge.spec_to();
            assert(forall|h: NodeHandle| self.has_node(h) == prev.has_node(h));
            assert(forall|e2: Edge<W>| self.ok_edge(e2) == prev.ok_edge(e2));
            assert(forall|loc: Option<NodeHandle>|
                loc != from ==> #[trigger] self.out_of(loc) == prev.out_of(loc));
            assert(forall|loc: Option<NodeHandle>|
                loc != to ==> #[trigger] self.in_of(loc) == prev.in_of(loc));
            if prev.loc_ok(from) {
                assert(self.out_of(from) == util::remove_first(prev.out_of(from), edge)) by {
                    assert(mid.out_of(from) == util::remove_first(prev.out_of(from), edge));
                }
                assert(prev.lists_ok(from));
                util::lemma_remove_first_props(prev.out_of(from), edge);
            } else {
                assert(self.out_of(from) == prev.out_of(from));
                assert(prev.out_of(from).len() == 0);
            }
            if prev.loc_ok(to) {
                assert(self.in_of(to) == util::remove_first(prev.in_of(to), edge));
                assert(prev.lists_ok(to));
                util::lemma_remove_first_props(prev.in_of(to), edge);
            } else {
                assert(self.in_of(to) == prev.in_of(to));
                assert(prev.in_of(to).len() == 0);
            }
            // Containment: `edge` is gone from both lists, everything else is
            // where it was.
            assert(!self.out_of(from).contains(edge));
            assert(!self.in_of(to).contains(edge));
            assert forall|e2: Edge<W>|
                e2 != edge implies (self.out_of(e2.spec_from()).contains(e2) == prev.out_of(
                e2.spec_from(),
            ).contains(e2) && self.in_of(e2.spec_to()).contains(e2) == prev.in_of(
                e2.spec_to(),
            ).contains(e2)) by {
                if e2.spec_from() == from && prev.loc_ok(from) {
                    assert(util::remove_first(prev.out_of(from), edge).contains(e2)
                        <==> prev.out_of(from).contains(e2));
                }
                if e2.spec_to() == to && prev.loc_ok(to) {
                    assert(util::remove_first(prev.in_of(to), edge).contains(e2) <==> prev.in_of(
                        to,
                    ).contains(e2));
                }
            }
            // Well-formed lists at every location.
            assert forall|loc: Option<NodeHandle>|
                self.loc_ok(loc) implies #[trigger] self.lists_ok(loc) by {
                assert(prev.loc_ok(loc));
                assert(prev.lists_ok(loc));
                if loc == from && prev.loc_ok(from) {
                    util::lemma_remove_first_props(prev.out_of(from), edge);
                }
                if loc == to && prev.loc_ok(to) {
                    util::lemma_remove_first_props(prev.in_of(to), edge);
                }
                assert forall|j: int|
                    0 <= j < self.out_of(loc).len() implies (#[trigger] self.out_of(
                    loc,
                )[j]).spec_from() == loc && self.ok_edge(self.out_of(loc)[j]) by {
                    assert(self.out_of(loc).contains(self.out_of(loc)[j]));
                    let y = self.out_of(loc)[j];
                    assert(prev.out_of(loc).contains(y)) by {
                        if loc == from && prev.loc_ok(from) {
                            assert(y != edge);
                        }
                    }
                    let k = choose|k: int|
                        0 <= k < prev.out_of(loc).len() && prev.out_of(loc)[k] == y;
                    assert((#[trigger] prev.out_of(loc)[k]).spec_from() == loc && prev.ok_edge(
                        prev.out_of(loc)[k],
                    ));
                }
                assert forall|j: int|
                    0 <= j < self.in_of(loc).len() implies (#[trigger] self.in_of(
                    loc,
                )[j]).spec_to() == loc && self.ok_edge(self.in_of(loc)[j]) by {
                    assert(self.in_of(loc).contains(self.in_of(loc)[j]));
                    let y = self.in_of(loc)[j];
                    assert(prev.in_of(loc).contains(y)) by {
                        if loc == to && prev.loc_ok(to) {
                            assert(y != edge);
                        }
                    }
                    let k = choose|k: int|
                        0 <= k < prev.in_of(loc).len() && prev.in_of(loc)[k] == y;
                    assert((#[trigger] prev.in_of(loc)[k]).spec_to() == loc && prev.ok_edge(
                        prev.in_of(loc)[k],
                    ));
                }
            }
            // Symmetry.
            assert forall|e2: Edge<W>|
                self.ok_edge(e2) implies ((#[trigger] self.out_of(e2.spec_from()).contains(e2))
                <==> self.in_of(e2.spec_to()).contains(e2)) by {
                assert(prev.ok_edge(e2));
                if e2 == edge {
                } else {
                    assert(prev.out_of(e2.spec_from()).contains(e2) <==> prev.in_of(
                        e2.spec_to(),
                    ).contains(e2));
                }
            }
            // Acyclicity: removal only loses steps.
            assert(reach::acyclic(self.rel())) by {
                assert forall|u: NodeHandle, v: NodeHandle|
                    #[trigger] self.rel()(u, v) implies prev.rel()(u, v) by {
                    if self.spec_edge(u, v) {
                        let k = choose|k: int|
                            0 <= k < self.out_of(Option::Some(u)).len() && (
                            #[trigger] self.out_of(Option::Some(u))[k]).spec_to()
                                == Option::Some(v);
                        let y = self.out_of(Option::Some(u))[k];
                        assert(self.out_of(Option::Some(u)).contains(y));
                        assert(prev.out_of(Option::Some(u)).contains(y)) by {
                            if Option::Some(u) == from && prev.loc_ok(from) {
                                assert(y != edge);
                            }
                        }
                        let k2 = choose|k2: int|
                            0 <= k2 < prev.out_of(Option::Some(u)).len() && prev.out_of(
                                Option::Some(u),
                            )[k2] == y;
                        assert((#[trigger] prev.out_of(Option::Some(u))[k2]).spec_to()
                            == Option::Some(v));
                    }
                }
                reach::lemma_acyclic_mono(self.rel(), prev.rel());
            }
            // The edge set loses exactly the edge.
            assert(self.edge_set() =~= prev.edge_set().remove(edge)) by {
                assert forall|e2: Edge<W>|
                    self.edge_present(e2) <==> (prev.edge_present(e2) && e2 != edge) by {
                    if e2 == edge {
                        assert(!self.out_of(from).contains(edge));
                    }
                }
            }
        }
    }

    /// Removes the node if it has no outbound and no inbound edges; a node
    /// that still has an edge is left in place and `AlreadyConnected` is
    /// returned.  Deleting an already-absent node is a no-op success.
    pub fn del_node(&mut self, node: NodeHandle) -> (r: Result<(), AlreadyConnected>)
        requires
            old(self).wf(),
        ensures
            final(self).wf(),
            r is Err <==> (old(self).has_node(node) && (old(self).out_of(
                Option::Some(node),
            ).len() > 0 || old(self).in_of(Option::Some(node)).len() > 0)),
            r is Err ==> *final(self) == *old(self),
            r is Ok ==> !final(self).has_node(node),
            final(self).node_count() == old(self).node_count(),
            forall|h: NodeHandle|
                h != node ==> final(self).has_node(h) == old(self).has_node(h),
            forall|h: NodeHandle|
                h != node && final(self).has_node(h) ==> final(self).spec_data(h) == old(
                    self,
                ).spec_data(h),
            forall|loc: Option<NodeHandle>|
                loc != Option::Some(node) ==> #[trigger] final(self).out_of(loc) == old(
                    self,
                ).out_of(loc) && final(self).in_of(loc) == old(self).in_of(loc),
            final(self).edge_set() == old(self).edge_set(),
    {
        let ghost prev = *self;
        let n = self.nodes.len();
        if node.index >= n as u64 {
            proof {
                assert(!prev.has_node(node));
                assert(self.edge_set() =~= prev.edge_set());
            }
            return Ok(());
        }
        let i = node.index as usize;
        let (live, no_edges) = match &self.nodes[i] {
            Option::Some(nd) => (true, nd.edges.outbound.len() == 0 && nd.edges.inbound.len()
                == 0),
            Option::None => (false, true),
        };
        if !live {
            proof {
                assert(!prev.has_node(node));
                assert(self.edge_set() =~= prev.edge_set());
            }
            return Ok(());
        }
        if !no_edges {
            proof {
                assert(prev.out_of(Option::Some(node)).len() > 0 || prev.in_of(
                    Option::Some(node),
                ).len() > 0);
                assert(self.edge_set() =~= prev.edge_set());
            }
            return Err(AlreadyConnected);
        }
        self.nodes[i] = Option::None;
        proof {
            assert(prev.out_of(Option::Some(node)).len() == 0);
            assert(prev.in_of(Option::Some(node)).len() == 0);
            assert(!self.has_node(node));
            assert forall|h: NodeHandle|
                h != node implies self.has_node(h) == prev.has_node(h) by {
                if h.id() == node.id() {
                    NodeHandle::lemma_id_injective(h, node);
                } else {
                    if 0 <= h.id() < prev.nodes@.len() {
                        assert(self.nodes@[h.id()] == prev.nodes@[h.id()]);
                    }
                }
            }
            assert forall|h: NodeHandle|
                h != node && self.has_node(h) implies self.spec_data(h) == prev.spec_data(h) by {
                assert(self.nodes@[h.id()] == prev.nodes@[h.id()]);
            }
            assert forall|loc: Option<NodeHandle>|
                loc != Option::Some(node) implies #[trigger] self.out_of(loc) == prev.out_of(loc)
                && self.in_of(loc) == prev.in_of(loc) by {
                match loc {
                    Option::None => {},
                    Option::Some(g) => {
                        if g.id() == node.id() {
                            NodeHandle::lemma_id_injective(g, node);
                        } else {
                            if 0 <= g.id() < prev.nodes@.len() {
                                assert(self.nodes@[g.id()] == prev.nodes@[g.id()]);
                            }
                            assert(self.has_node(g) == prev.has_node(g));
                        }
                    },
                }
            }
            // No committed edge touches the deleted node: an outbound edge
            // would sit in its (empty) outbound list, an inbound edge in its
            // (empty) inbound index, by symmetry.
            assert forall|e2: Edge<W>|
                prev.edge_present(e2) implies e2.spec_from() != Option::Some(node) && e2.spec_to()
                != Option::Some(node) && self.edge_present(e2) by {
                if e2.spec_from() == Option::Some(node) {
                    assert(prev.out_of(Option::Some(node)).contains(e2));
                }
                if e2.spec_to() == Option::Some(node) {
                    assert(prev.in_of(e2.spec_to()).contains(e2));
                }
                assert(self.out_of(e2.spec_from()) == prev.out_of(e2.spec_from()));
                assert(self.loc_ok(e2.spec_from()) && self.loc_ok(e2.spec_to())) by {
                    match e2.spec_from() {
                        Option::None => {},
                        Option::Some(g) => {
                            assert(g != node);
                        },
                    }
                    match e2.spec_to() {
                        Option::None => {},
                        Option::Some(g) => {
                            assert(g != node);
                        },
                    }
                }
            }
            assert forall|e2: Edge<W>|
                self.edge_present(e2) implies prev.edge_present(e2) by {
                match e2.spec_from() {
                    Option::None => {},
                    Option::Some(g) => {
                        if g == node {
                            assert(!self.has_node(node));
                        }
                    },
                }
                assert(self.out_of(e2.spec_from()) == prev.out_of(e2.spec_from()));
                assert(prev.loc_ok(e2.spec_from()) && prev.loc_ok(e2.spec_to()));
            }
            assert(self.edge_set() =~= prev.edge_set());
            // Well-formedness of the shrunken graph.
            assert forall|loc: Option<NodeHandle>|
                self.loc_ok(loc) implies #[trigger] self.lists_ok(loc) by {
                assert(prev.loc_ok(loc));
                assert(prev.lists_ok(loc));
                assert(loc != Option::Some(node));
                assert(self.out_of(loc) == prev.out_of(loc));
                assert(self.in_of(loc) == prev.in_of(loc));
                assert forall|j: int|
                    0 <= j < self.out_of(loc).len() implies (#[trigger] self.out_of(
                    loc,
                )[j]).spec_from() == loc && self.ok_edge(self.out_of(loc)[j]) by {
                    let y = prev.out_of(loc)[j];
                    assert((#[trigger] prev.out_of(loc)[j]).spec_from() == loc && prev.ok_edge(
                        y,
                    ));
                    assert(prev.out_of(loc).contains(y));
                    assert(prev.edge_present(y));
                }
                assert forall|j: int|
                    0 <= j < self.in_of(loc).len() implies (#[trigger] self.in_of(
                    loc,
                )[j]).spec_to() == loc && self.ok_edge(self.in_of(loc)[j]) by {
                    let y = prev.in_of(loc)[j];
                    assert((#[trigger] prev.in_of(loc)[j]).spec_to() == loc && prev.ok_edge(y));
                    assert(prev.in_of(loc).contains(y));
                    assert(prev.out_of(y.spec_from()).contains(y));
                    assert(prev.edge_present(y));
                }
            }
            assert forall|e2: Edge<W>|
                self.ok_edge(e2) implies ((#[trigger] self.out_of(e2.spec_from()).contains(e2))
                <==> self.in_of(e2.spec_to()).contains(e2)) by {
                assert(prev.ok_edge(e2));
                assert(self.out_of(e2.spec_from()) == prev.out_of(e2.spec_from()));
                assert(self.in_of(e2.spec_to()) == prev.in_of(e2.spec_to()));
            }
            assert(reach::acyclic(self.rel())) by {
                assert forall|u: NodeHandle, v: NodeHandle|
                    #[trigger] self.rel()(u, v) implies prev.rel()(u, v) by {
                    if self.spec_edge(u, v) {
                        assert(u != node);
                        assert(self.out_of(Option::Some(u)) == prev.out_of(Option::Some(u)));
                        let k = choose|k: int|
                            0 <= k < self.out_of(Option::Some(u)).len() && (
                            #[trigger] self.out_of(Option::Some(u))[k]).spec_to()
                                == Option::Some(v);
                        assert((#[trigger] prev.out_of(Option::Some(u))[k]).spec_to()
                            == Option::Some(v));
                    }
                }
                reach::lemma_acyclic_mono(self.rel(), prev.rel());
            }
        }
        Ok(())
    }
}

impl<N, W: EdgeWeight> IODag<N, W> {
    /// The outbound edges of a location, as a fresh vector.
    pub fn iter_outbound_edges(&self, node: Option<NodeHandle>) -> (out: Vec<Edge<W>>)
        requires
            self.loc_ok(node),
        ensures
            out@ == self.out_of(node),
    {
        let len = self.out_len(&node);
        let mut out: Vec<Edge<W>> = Vec::new();
        let mut j: usize = 0;
        while j < len
            invariant
                j <= len,
                self.loc_ok(node),
                len == self.out_of(node).len(),
                out@ =~= self.out_of(node).subrange(0, j as int),
            decreases len - j,
        {
            out.push(self.out_at(&node, j));
            j += 1;
            proof {
                assert(out@ =~= self.out_of(node).subrange(0, j as int));
            }
        }
        proof {
            assert(out@ =~= self.out_of(node));
        }
        out
    }

    /// The inbound edges of a location, as a fresh vector.
    pub fn iter_inbound_edges(&self, node: Option<NodeHandle>) -> (out: Vec<Edge<W>>)
        requires
            self.loc_ok(node),
        ensures
            out@ == self.in_of(node),
    {
        let len = self.in_len(&node);
        let mut out: Vec<Edge<W>> = Vec::new();
        let mut j: usize = 0;
        while j < len
            invariant
                j <= len,
                self.loc_ok(node),
                len == self.in_of(node).len(),
                out@ =~= self.in_of(node).subrange(0, j as int),
            decreases len - j,
        {
            out.push(self.in_at(&node, j));
            j += 1;
            proof {
                assert(out@ =~= self.in_of(node).subrange(0, j as int));
            }
        }
        proof {
            assert(out@ =~= self.in_of(node));
        }
        out
    }

    /// The handles of all live nodes, in ascending order of allocation.
    pub fn iter_nodes(&self) -> (out: Vec<NodeHandle>)
        ensures
            out@.no_duplicates(),
            forall|h: NodeHandle| out@.contains(h) <==> self.has_node(h),
            forall|a: int, b: int|
                0 <= a < b < out@.len() ==> out@[a].id() < out@[b].id(),
    {
        let n = self.nodes.len();
        let mut out: Vec<NodeHandle> = Vec::new();
        let mut i: usize = 0;
        while i < n
            invariant
                i <= n,
                n == self.node_count(),
                forall|k: int| 0 <= k < out@.len() ==> 0 <= (#[trigger] out@[k]).id() < i,
                forall|a: int, b: int| 0 <= a < b < out@.len() ==> out@[a].id() < out@[b].id(),
                forall|h: NodeHandle| out@.contains(h) <==> (self.has_node(h) && h.id() < i),
            decreases n - i,
        {
            let live = match &self.nodes[i] {
                Option::Some(_) => true,
                Option::None => false,
            };
            let ghost before = out@;
            if live {
                out.push(NodeHandle { index: i as u64 });
            }
            i += 1;
            proof {
                let h0 = (NodeHandle { index: (i - 1) as u64 });
                assert forall|h: NodeHandle|
                    out@.contains(h) <==> (self.has_node(h) && h.id() < i) by {
                    if out@.contains(h) {
                        let k = choose|k: int| 0 <= k < out@.len() && out@[k] == h;
                        if k < before.len() {
                            assert(before[k] == h);
                            assert(before.contains(h));
                        } else {
                            assert(h == h0);
                            assert(self.has_node(h));
                        }
                    }
                    if self.has_node(h) && h.id() < i {
                        if h.id() < i - 1 {
                            assert(before.contains(h));
                            let k = choose|k: int| 0 <= k < before.len() && before[k] == h;
                            assert(out@[k] == h);
                        } else {
                            assert(h == h0) by {
                                NodeHandle::lemma_id_injective(h, h0);
                            }
                            if live {
                                assert(out@[out@.len() - 1] == h0);
                            } else {
                                assert(!self.has_node(h0));
                            }
                        }
                    }
                }
            }
        }
        proof {
            assert(out@.no_duplicates()) by {
                assert forall|a: int, b: int|
                    0 <= a < out@.len() && 0 <= b < out@.len() && a != b implies out@[a]
                    != out@[b] by {
                    if a < b {
                        assert(out@[a].id() < out@[b].id());
                    } else {
                        assert(out@[b].id() < out@[a].id());
                    }
                }
            }
        }
        out
    }

    /// The accumulator of the edge enumeration holds exactly the committed
    /// edges whose source is null or a node slot below `bound`.
    spec fn edges_upto(self, acc: Seq<Edge<W>>, bound: int) -> bool {
        forall|e: Edge<W>|
            acc.contains(e) <==> (self.edge_present(e) && (e.spec_from() is None || (
            e.spec_from() is Some && e.spec_from()->Some_0.id() < bound)))
    }

    /// Every committed edge, each exactly once: all outbound sets in one
    /// vector, which covers the edges leaving null and the edges entering it.
    pub fn iter_edges(&self) -> (out: Vec<Edge<W>>)
        requires
            self.wf(),
        ensures
            out@.no_duplicates(),
            forall|e: Edge<W>| out@.contains(e) <==> self.edge_present(e),
    {
        let mut out: Vec<Edge<W>> = self.iter_outbound_edges(Option::None);
        proof {
            assert(self.lists_ok(Option::<NodeHandle>::None));
            assert forall|e: Edge<W>|
                out@.contains(e) <==> (self.edge_present(e) && e.spec_from() is None) by {
                if out@.contains(e) {
                    let k = choose|k: int| 0 <= k < out@.len() && out@[k] == e;
                    assert((#[trigger] self.out_of(Option::None)[k]).spec_from() == Option::<
                        NodeHandle,
                    >::None && self.ok_edge(self.out_of(Option::None)[k]));
                }
            }
        }
        proof {
            assert(self.edges_upto(out@, 0)) by {
                assert forall|e: Edge<W>|
                    out@.contains(e) <==> (self.edge_present(e) && (e.spec_from() is None || (
                    e.spec_from() is Some && e.spec_from()->Some_0.id() < 0))) by {
                    assert(out@.contains(e) <==> (self.edge_present(e) && e.spec_from() is None));
                }
            }
        }
        let n = self.nodes.len();
        let mut i: usize = 0;
        while i < n
            invariant
                i <= n,
                n == self.node_count(),
                self.wf(),
                out@.no_duplicates(),
                self.edges_upto(out@, i as int),
            decreases n - i,
        {
            let h = NodeHandle { index: i as u64 };
            let live = match &self.nodes[i] {
                Option::Some(_) => true,
                Option::None => false,
            };
            let ghost before = out@;
            proof {
                assert(self.edges_upto(before, i as int));
            }
            if live {
                let loc = Option::Some(h);
                let len = self.out_len(&loc);
                let mut j: usize = 0;
                while j < len
                    invariant
                        j <= len,
                        self.wf(),
                        self.loc_ok(loc),
                        loc == Option::Some(h),
                        len == self.out_of(loc).len(),
                        out@ =~= before + self.out_of(loc).subrange(0, j as int),
                    decreases len - j,
                {
                    out.push(self.out_at(&loc, j));
                    j += 1;
                    proof {
                        assert(out@ =~= before + self.out_of(loc).subrange(0, j as int));
                    }
                }
                proof {
                    let lst = self.out_of(loc);
                    assert(out@ =~= before + lst);
                    assert(self.lists_ok(loc));
                    assert forall|e: Edge<W>|
                        lst.contains(e) <==> (self.edge_present(e) && e.spec_from() == loc) by {
                        if lst.contains(e) {
                            let k = choose|k: int| 0 <= k < lst.len() && lst[k] == e;
                            assert((#[trigger] lst[k]).spec_from() == loc && self.ok_edge(
                                lst[k],
                            ));
                        }
                    }
                    assert(self.edges_upto(out@, i + 1)) by {
                    assert forall|e: Edge<W>|
                        out@.contains(e) <==> (self.edge_present(e) && (e.spec_from() is None || (
                        e.spec_from() is Some && e.spec_from()->Some_0.id() < i + 1))) by {
                        if out@.contains(e) {
                            let k = choose|k: int| 0 <= k < out@.len() && out@[k] == e;
                            if k < before.len() {
                                assert(before[k] == e);
                                assert(before.contains(e));
                            } else {
                                assert(lst[k - before.len()] == e);
                                assert(lst.contains(e));
                            }
                        }
                        if self.edge_present(e) {
                            if e.spec_from() is Some && e.spec_from()->Some_0.id() == i {
                                assert(e.spec_from() == loc) by {
                                    NodeHandle::lemma_id_injective(e.spec_from()->Some_0, h);
                                }
                                assert(lst.contains(e));
                                let k = choose|k: int| 0 <= k < lst.len() && lst[k] == e;
                                assert(out@[before.len() + k] == e);
                            } else if e.spec_from() is None || e.spec_from()->Some_0.id() < i {
                                assert(before.contains(e));
                                let k = choose|k: int| 0 <= k < before.len() && before[k] == e;
                                assert(out@[k] == e);
                            }
                        }
                    }
                    }
                    assert(out@.no_duplicates()) by {
                        assert forall|a: int, b: int|
                            0 <= a < out@.len() && 0 <= b < out@.len() && a != b implies out@[a]
                            != out@[b] by {
                            if a < before.len() && b < before.len() {
                                assert(before[a] != before[b]);
                            } else if a >= before.len() && b >= before.len() {
                                assert(lst.no_duplicates());
                                assert(lst[a - before.len()] != lst[b - before.len()]);
                            } else {
                                let (x, y) = if a < before.len() {
                                    (a, b)
                                } else {
                                    (b, a)
                                };
                                assert(before.contains(before[x]));
                                assert(lst.contains(lst[y - before.len()]));
                                assert((#[trigger] lst[y - before.len()]).spec_from() == loc);
                                if before[x] == lst[y - before.len()] {
                                    assert(before[x].spec_from() == loc);
                                }
                            }
                        }
                    }
                }
            } else {
                proof {
                    assert(self.edges_upto(out@, i + 1)) by {
                        assert forall|e: Edge<W>|
                            out@.contains(e) <==> (self.edge_present(e) && (e.spec_from() is None
                                || (e.spec_from() is Some && e.spec_from()->Some_0.id() < i
                                + 1))) by {
                            assert(before.contains(e) <==> (self.edge_present(e) && (e.spec_from()
                                is None || (e.spec_from() is Some && e.spec_from()->Some_0.id()
                                < i))));
                            if self.edge_present(e) && e.spec_from() is Some
                                && e.spec_from()->Some_0.id() == i {
                                assert(e.spec_from()->Some_0 == h) by {
                                    NodeHandle::lemma_id_injective(e.spec_from()->Some_0, h);
                                }
                                assert(!self.has_node(h));
                            }
                        }
                    }
                }
            }
            i += 1;
        }
        proof {
            assert(self.edges_upto(out@, n as int));
            assert forall|e: Edge<W>|
                out@.contains(e) <==> self.edge_present(e) by {
                assert(out@.contains(e) <==> (self.edge_present(e) && (e.spec_from() is None || (
                e.spec_from() is Some && e.spec_from()->Some_0.id() < n))));
                if self.edge_present(e) {
                    match e.spec_from() {
                        Option::None => {},
                        Option::Some(g) => {
                            assert(self.has_node(g));
                        },
                    }
                }
            }
        }
        out
    }

    /// Walks edges outward from the null boundary.  Each edge the walk meets
    /// is handed to `pred`; when `pred` answers true and the edge ends at a
    /// node, the walk goes on through that node's outbound edges.  The order
    /// is not defined, and each node is expanded at most once per call.
    pub fn traverse<F: Fn(Edge<W>) -> bool>(&self, pred: &F)
        requires
            self.wf(),
            forall|e: Edge<W>| #[trigger] pred.requires((e,)),
    {
        let n = self.nodes.len();
        let mut visited: Vec<bool> = Vec::new();
        let mut i: usize = 0;
        while i < n
            invariant
                i <= n,
                visited@.len() == i,
            decreases n - i,
        {
            visited.push(false);
            i += 1;
        }
        let mut stack: Vec<NodeHandle> = Vec::new();
        let null_loc = Option::None;
        let len0 = self.out_len(&null_loc);
        let mut j: usize = 0;
        while j < len0
            invariant
                j <= len0,
                self.wf(),
                forall|e: Edge<W>| #[trigger] pred.requires((e,)),
                null_loc == Option::<NodeHandle>::None,
                len0 == self.out_of(null_loc).len(),
                visited@.len() == self.node_count(),
                forall|k: int| 0 <= k < stack@.len() ==> self.has_node(#[trigger] stack@[k]),
            decreases len0 - j,
        {
            proof {
                assert(self.lists_ok(null_loc));
            }
            let e = self.out_at(&null_loc, j);
            if pred(e) {
                match *e.to() {
                    Option::None => {},
                    Option::Some(v) => {
                        proof {
                            assert(self.ok_edge(self.out_of(null_loc)[j as int]));
                        }
                        let vi = self.slot(&v);
                        if !visited[vi] {
                            visited[vi] = true;
                            stack.push(v);
                        }
                    },
                }
            }
            j += 1;
        }
        while stack.len() > 0
            invariant
                self.wf(),
                forall|e: Edge<W>| #[trigger] pred.requires((e,)),
                visited@.len() == self.node_count(),
                forall|k: int| 0 <= k < stack@.len() ==> self.has_node(#[trigger] stack@[k]),
            decreases util::count_false(visited@), stack@.len(),
        {
            let u = stack.pop().unwrap();
            let loc = Option::Some(u);
            let len = self.out_len(&loc);
            let ghost vis0 = visited@;
            let ghost st0 = stack@;
            let mut j2: usize = 0;
            while j2 < len
                invariant
                    j2 <= len,
                    self.wf(),
                    forall|e: Edge<W>| #[trigger] pred.requires((e,)),
                    self.has_node(u),
                    loc == Option::Some(u),
                    len == self.out_of(loc).len(),
                    visited@.len() == self.node_count(),
                    vis0.len() == visited@.len(),
                    forall|k: int| 0 <= k < stack@.len() ==> self.has_node(#[trigger] stack@[k]),
                    forall|k: int| 0 <= k < vis0.len() && vis0[k] ==> visited@[k],
                    util::count_false(visited@) <= util::count_false(vis0),
                    stack@.len() > st0.len() ==> util::count_false(visited@) < util::count_false(
                        vis0,
                    ),
                    stack@.len() >= st0.len(),
                decreases len - j2,
            {
                proof {
                    assert(self.lists_ok(loc));
                }
                let e = self.out_at(&loc, j2);
                if pred(e) {
                    match *e.to() {
                        Option::None => {},
                        Option::Some(v) => {
                            proof {
                                assert(self.ok_edge(self.out_of(loc)[j2 as int]));
                            }
                            let vi = self.slot(&v);
                            if !visited[vi] {
                                let ghost before = visited@;
                                visited[vi] = true;
                                stack.push(v);
                                proof {
                                    util::lemma_count_false_update(before, vi as int);
                                    util::lemma_count_false_mono(vis0, before);
                                }
                            }
                        },
                    }
                }
                j2 += 1;
            }
        }
    }
}

} // verus!
