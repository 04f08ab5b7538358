//! The positive-cost graph variant.
//!
//! `PosCostDag` relaxes strict acyclicity: cycles among nodes are allowed,
//! provided no cycle consists entirely of zero-cost edges.  What counts as
//! zero cost is decided by the weight type through [`CostQueriable`]; the
//! predicate sees the edge being traversed and the edge about to be traversed
//! next, so costs may be context-sensitive.  Insertion works optimistically:
//! the edge is committed, the graph is searched for an all-zero-cost cycle
//! through the new edge, and on a hit the insertion is rolled back.

use vstd::prelude::*;

use crate::ondag::{CycleError, EdgeWeight, OnDag};
use crate::rcdagbase::{DagEdge, NodeHandle, RcDagBase};
use crate::reach;
use crate::util;

verus! {

broadcast use RcDagBase::lemma_has_node_id;

/// A full edge of the graph: the source node together with its outbound
/// half-edge.  The zero-cost-cycle conditions are stated over these pairs.
pub type FullEdge<E> = (NodeHandle, DagEdge<E>);

/// The cost oracle a weight type supplies for the positive-cost variant:
/// whether traversing `edge`, in the context of moving on to `next`, has
/// zero cost.  The verified answer must depend on the two edges alone.
pub trait CostQueriable<N, E>: Sized {
    /// The mathematical cost predicate.
    spec fn spec_is_zero_cost(edge: DagEdge<E>, next: DagEdge<E>) -> bool;

    /// Decides the cost predicate.
    fn is_zero_cost(edge: &DagEdge<E>, next: &DagEdge<E>, dag: &PosCostDag<N, E>) -> (r: bool)
        ensures
            r == Self::spec_is_zero_cost(*edge, *next),
    ;
}

/// One zero-cost step between committed edges: `x` ends where `y` begins,
/// and traversing `x` on the way to `y` has zero cost.
pub open spec fn zc_step<N, E: CostQueriable<N, E>>(
    s: Set<FullEdge<E>>,
    x: FullEdge<E>,
    y: FullEdge<E>,
) -> bool {
    s.contains(x) && s.contains(y) && x.1.to == y.0 && E::spec_is_zero_cost(x.1, y.1)
}

/// The zero-cost step relation over an edge set.
pub open spec fn zc_rel<N, E: CostQueriable<N, E>>(s: Set<FullEdge<E>>) -> spec_fn(
    FullEdge<E>,
    FullEdge<E>,
) -> bool {
    |x: FullEdge<E>, y: FullEdge<E>| zc_step::<N, E>(s, x, y)
}

/// Whether the edge set holds a cycle of edges in which every edge is
/// zero-cost in the context of its successor on the cycle.
pub open spec fn has_zero_cost_cycle<N, E: CostQueriable<N, E>>(s: Set<FullEdge<E>>) -> bool {
    !reach::acyclic(zc_rel::<N, E>(s))
}

/// A graph that admits cycles, provided the cumulative cost around any cycle
/// is positive — equivalently, provided no cycle is entirely zero-cost.
pub struct PosCostDag<N, E> {
    dag: RcDagBase<N, E>,
}

impl<N, E: CostQueriable<N, E>> PosCostDag<N, E> {
    /// The underlying arena, for stating contracts; the arena itself stays
    /// abstract to callers.
    pub closed spec fn base(self) -> RcDagBase<N, E> {
        self.dag
    }

    /// Well-formedness: a structurally sound arena with no zero-cost cycle.
    pub open spec fn wf(self) -> bool {
        &&& self.base().wf()
        &&& !has_zero_cost_cycle::<N, E>(self.base().edge_set())
    }

    /// Number of nodes this graph has issued.
    pub open spec fn node_count(self) -> int {
        self.base().node_count()
    }

    /// Whether `h` denotes a node of this graph.
    pub open spec fn has_node(self, h: NodeHandle) -> bool {
        self.base().has_node(h)
    }

    /// The payload stored at `h`.
    pub open spec fn spec_data(self, h: NodeHandle) -> N {
        self.base().spec_data(h)
    }

    /// The outbound half-edges of `h`, in insertion order.
    pub open spec fn spec_children(self, h: NodeHandle) -> Seq<DagEdge<E>> {
        self.base().spec_children(h)
    }

    /// There is at least one edge from `u` to `v`.
    pub open spec fn spec_edge(self, u: NodeHandle, v: NodeHandle) -> bool {
        self.base().spec_edge(u, v)
    }

    /// `b` is reachable from `a` along zero or more edges, of whatever cost.
    pub open spec fn spec_reaches(self, a: NodeHandle, b: NodeHandle) -> bool {
        self.base().spec_reaches(a, b)
    }

    /// No directed cycle at all among the nodes (stronger than this
    /// variant's invariant; holds only until a positive-cost cycle is added).
    pub open spec fn spec_acyclic(self) -> bool {
        self.base().spec_acyclic()
    }

    /// No directed cycle among the nodes reachable from `root`; all that a
    /// topological order of that region needs.
    pub open spec fn acyclic_from(self, root: NodeHandle) -> bool {
        self.base().acyclic_from(root)
    }

    /// All committed edges, as (source, half-edge) pairs.
    pub open spec fn edge_set(self) -> Set<FullEdge<E>> {
        self.base().edge_set()
    }

    /// The depth-first postorder from `from`, as a function of the state;
    /// both traversal directions are specified against it.
    pub open spec fn spec_topo_rev(self, from: NodeHandle) -> Seq<NodeHandle> {
        self.base().spec_topo_rev(from)
    }

    /// Everything except the edge list of `u` agrees between `a` and `b`.
    pub open spec fn same_but_children_of(a: Self, b: Self, u: NodeHandle) -> bool {
        RcDagBase::same_but_children_of(a.base(), b.base(), u)
    }

    /// Creates an empty graph.
    pub fn new() -> (dag: Self)
        ensures
            dag.wf(),
            dag.node_count() == 0,
            forall|h: NodeHandle| !dag.has_node(h),
    {
        let dag = PosCostDag { dag: RcDagBase::new() };
        proof {
            assert forall|x: FullEdge<E>, y: FullEdge<E>|
                !(#[trigger] zc_rel::<N, E>(dag.dag.edge_set())(x, y)) by {
                assert(!dag.dag.edge_set().contains(x));
            }
            reach::lemma_no_steps_acyclic(zc_rel::<N, E>(dag.dag.edge_set()));
        }
        dag
    }

    /// Allocates a node holding `node_data`, with no edges; the new handle
    /// was never returned before by this graph.
    pub fn add_node(&mut self, node_data: N) -> (h: NodeHandle)
        requires
            old(self).wf(),
            old(self).node_count() < u64::MAX as int,
        ensures
            final(self).wf(),
            h.id() == old(self).node_count(),
            !old(self).has_node(h),
            final(self).has_node(h),
            final(self).node_count() == old(self).node_count() + 1,
            forall|g: NodeHandle| old(self).has_node(g) ==> final(self).has_node(g),
            final(self).spec_children(h).len() == 0,
            forall|g: NodeHandle|
                old(self).has_node(g) ==> final(self).spec_children(g) == old(self).spec_children(
                    g,
                ),
            forall|g: NodeHandle|
                old(self).has_node(g) ==> final(self).spec_data(g) == old(self).spec_data(g),
            final(self).spec_data(h) == node_data,
            final(self).edge_set() == old(self).edge_set(),
    {
        self.dag.add_node(node_data)
    }

    /// Borrows the data of a node.
    pub fn node_data(&self, h: &NodeHandle) -> (d: &N)
        requires
            self.has_node(*h),
        ensures
            *d == self.spec_data(*h),
    {
        self.dag.node_data(h)
    }
}

impl<N, E: EdgeWeight + CostQueriable<N, E>> PosCostDag<N, E> {
    /// Removes the edge `from -> to` with weight `data` if present; removing
    /// an absent edge is a no-op.  Removal can never create a zero-cost
    /// cycle, so the graph stays well formed.
    pub fn rm_edge(&mut self, from: &NodeHandle, to: &NodeHandle, data: E) -> (r: Result<
        (),
        CycleError,
    >)
        requires
            old(self).wf(),
            old(self).has_node(*from),
            old(self).has_node(*to),
        ensures
            final(self).wf(),
            r is Ok,
            final(self).edge_set() == old(self).edge_set().remove(
                (*from, (DagEdge { to: *to, weight: data })),
            ),
            final(self).spec_children(*from) == util::remove_first(
                old(self).spec_children(*from),
                (DagEdge { to: *to, weight: data }),
            ),
            Self::same_but_children_of(*old(self), *final(self), *from),
            forall|g: NodeHandle| final(self).has_node(g) == old(self).has_node(g),
    {
        let ghost s0 = self.dag.edge_set();
        self.dag.rm_edge(from, to, data);
        proof {
            let s2 = self.dag.edge_set();
            assert forall|x: FullEdge<E>, y: FullEdge<E>|
                #[trigger] zc_rel::<N, E>(s2)(x, y) implies zc_rel::<N, E>(s0)(x, y) by {
                assert(s0.contains(x) && s0.contains(y));
            }
            reach::lemma_acyclic_mono(zc_rel::<N, E>(s2), zc_rel::<N, E>(s0));
        }
        Ok(())
    }
}

impl<N, E: Copy + CostQueriable<N, E>> PosCostDag<N, E> {
    /// The topological ordering of everything reachable from `from`.  When
    /// the region reachable from `from` happens to be free of cycles, every
    /// node appears before the nodes its edges point at; with
    /// (positive-cost) cycles reachable, no such order exists, and only
    /// membership and uniqueness are promised.
    pub fn iter_topo(&self, from: &NodeHandle) -> (out: Vec<NodeHandle>)
        requires
            self.wf(),
            self.has_node(*from),
        ensures
            out@.no_duplicates(),
            out@ == self.spec_topo_rev(*from).reverse(),
            out@.len() > 0 && out@[0] == *from,
            forall|h: NodeHandle| out@.contains(h) <==> self.spec_reaches(*from, h),
            self.acyclic_from(*from) ==> forall|i: int, k: int|
                0 <= i < out@.len() && 0 <= k < out@.len() && self.spec_edge(out@[i], out@[k])
                    ==> i < k,
    {
        self.dag.iter_topo(from)
    }

    /// The reverse topological ordering of everything reachable from `from`:
    /// depth-first postorder, children before the nodes that point at them.
    pub fn iter_topo_rev(&self, from: &NodeHandle) -> (out: Vec<NodeHandle>)
        requires
            self.wf(),
            self.has_node(*from),
        ensures
            out@.no_duplicates(),
            out@ == self.spec_topo_rev(*from),
            out@.len() > 0 && out@.last() == *from,
            forall|h: NodeHandle| out@.contains(h) <==> self.spec_reaches(*from, h),
            self.acyclic_from(*from) ==> forall|i: int, k: int|
                0 <= i < out@.len() && 0 <= k < out@.len() && self.spec_edge(out@[i], out@[k])
                    ==> k < i,
    {
        self.dag.iter_topo_rev(from)
    }

    /// All outbound half-edges of `node`, as a fresh vector.
    pub fn children(&self, node: &NodeHandle) -> (out: Vec<DagEdge<E>>)
        requires
            self.has_node(*node),
        ensures
            out@ == self.spec_children(*node),
    {
        self.dag.children(node)
    }
}

impl<N, E: EdgeWeight + CostQueriable<N, E>> PosCostDag<N, E> {
    /// Commits the edge `from -> to` with weight `data` unless the graph
    /// would then hold an all-zero-cost cycle.  The edge is inserted
    /// optimistically, the graph is searched for a zero-cost cycle through
    /// the new edge, and on a hit the insertion is rolled back, leaving every
    /// edge list exactly as it was.  Inserting an edge that is already
    /// present succeeds and changes nothing.
    pub fn add_edge(&mut self, from: &NodeHandle, to: &NodeHandle, data: E) -> (r: Result<
        (),
        CycleError,
    >)
        requires
            old(self).wf(),
            old(self).has_node(*from),
            old(self).has_node(*to),
        ensures
            final(self).wf(),
            r is Ok <==> !has_zero_cost_cycle::<N, E>(
                old(self).edge_set().insert((*from, (DagEdge { to: *to, weight: data }))),
            ),
            r is Ok ==> final(self).edge_set() == old(self).edge_set().insert(
                (*from, (DagEdge { to: *to, weight: data })),
            ),
            r is Ok ==> final(self).spec_children(*from) == (if old(self).spec_children(
                *from,
            ).contains((DagEdge { to: *to, weight: data })) {
                old(self).spec_children(*from)
            } else {
                old(self).spec_children(*from).push((DagEdge { to: *to, weight: data }))
            }),
            r is Err ==> final(self).edge_set() == old(self).edge_set(),
            r is Err ==> final(self).spec_children(*from) == old(self).spec_children(*from),
            Self::same_but_children_of(*old(self), *final(self), *from),
            forall|g: NodeHandle| final(self).has_node(g) == old(self).has_node(g),
            old(self).spec_children(*from).contains((DagEdge { to: *to, weight: data })) ==> (
            r is Ok && *final(self) == *old(self)),
    {
        let edge_obj = DagEdge { to: *to, weight: data };
        let ghost e = DagEdge { to: *to, weight: data };
        let ghost pair = (*from, e);
        let ghost prev = self.dag;
        let ghost s0 = prev.edge_set();
        let ghost s1 = s0.insert(pair);
        let ghost r0 = zc_rel::<N, E>(s0);
        let ghost r1 = zc_rel::<N, E>(s1);
        proof {
            assert(s0.contains(pair) <==> prev.spec_children(*from).contains(e));
        }
        self.dag.add_edge_unchecked(from, to, data);
        proof {
            assert(self.dag.edge_set() == s1);
            assert(self.dag.spec_children(*from).contains(e)) by {
                if prev.spec_children(*from).contains(e) {
                    assert(self.dag.spec_children(*from) == prev.spec_children(*from));
                } else {
                    let kids = self.dag.spec_children(*from);
                    assert(kids[kids.len() - 1] == e);
                }
            }
        }
        let found = self.find_zc_cycle(from, &edge_obj);
        if found {
            proof {
                // An anchored cycle is in particular a cycle: the insertion
                // must be rejected, and since the old graph had no zero-cost
                // cycle, the new edge cannot have been present before.
                let p = choose|p: Seq<FullEdge<E>>|
                    reach::is_cycle(r1, p) && p.first() == pair;
                assert(!reach::acyclic(r1));
                assert(!s0.contains(pair)) by {
                    if s0.contains(pair) {
                        assert(s1 =~= s0);
                        assert(reach::acyclic(r1));
                    }
                }
                assert(!prev.spec_children(*from).contains(e));
            }
            let ghost mid = self.dag;
            self.dag.rm_edge(from, to, data);
            proof {
                assert(mid.spec_children(*from) == prev.spec_children(*from).push(e));
                util::lemma_remove_first_of_pushed(prev.spec_children(*from), e);
                assert(self.dag.spec_children(*from) == prev.spec_children(*from));
                assert(self.dag.edge_set() == s1.remove(pair));
                assert(s1.remove(pair) =~= s0);
                assert(!has_zero_cost_cycle::<N, E>(self.dag.edge_set()));
                assert(RcDagBase::same_but_children_of(prev, self.dag, *from)) by {
                    assert forall|h: NodeHandle|
                        self.dag.has_node(h) && h != *from implies self.dag.spec_children(h)
                        == prev.spec_children(h) by {
                        assert(self.dag.spec_children(h) == mid.spec_children(h));
                        assert(mid.spec_children(h) == prev.spec_children(h));
                    }
                    assert forall|h: NodeHandle|
                        self.dag.has_node(h) implies self.dag.spec_data(h) == prev.spec_data(
                        h,
                    ) by {
                        assert(self.dag.spec_data(h) == mid.spec_data(h));
                        assert(mid.has_node(h));
                    }
                }
            }
            Err(CycleError)
        } else {
            proof {
                // No cycle is anchored at the new edge, so there is no cycle
                // at all: any cycle of the extended relation would have to
                // pass through the new edge, and could be rotated to start
                // there.
                assert forall|x: FullEdge<E>, y: FullEdge<E>|
                    #[trigger] r1(x, y) implies (r0(x, y) || x == pair || y == pair) by {
                    if x != pair && y != pair {
                        assert(zc_step::<N, E>(s1, x, y));
                        assert(s0.contains(x) && s0.contains(y));
                    }
                }
                assert(reach::acyclic(r1)) by {
                    assert forall|p: Seq<FullEdge<E>>| !reach::is_cycle(r1, p) by {
                        if reach::is_cycle(r1, p) {
                            reach::lemma_new_vertex_on_cycle(r0, r1, pair, p);
                            let i = choose|i: int| 0 <= i < p.len() && p[i] == pair;
                            reach::lemma_cycle_rotate(r1, p, i);
                            let q = choose|q: Seq<FullEdge<E>>|
                                reach::is_cycle(r1, q) && q.first() == pair;
                            assert(false);
                        }
                    }
                }
                if prev.spec_children(*from).contains(e) {
                    assert(s1 =~= s0);
                }
            }
            Ok(())
        }
    }

    /// `i` indexes an outbound edge of `h`.
    spec fn occ_ok(self, h: NodeHandle, i: int) -> bool {
        self.dag.has_node(h) && 0 <= i < self.dag.spec_children(h).len()
    }

    /// The full edge an occurrence denotes.
    spec fn occ_edge(self, h: NodeHandle, i: int) -> FullEdge<E> {
        (h, self.dag.spec_children(h)[i])
    }

    /// The mark rows have one entry per outbound edge of each node.
    spec fn vis_dims(self, vis: Seq<Seq<bool>>) -> bool {
        &&& vis.len() == self.node_count()
        &&& forall|h: NodeHandle|
            self.dag.has_node(h) ==> (#[trigger] vis[h.id()]).len() == self.dag.spec_children(
                h,
            ).len()
    }

    /// The full edges the mark rows declare visited.
    spec fn eset(self, vis: Seq<Seq<bool>>) -> Set<FullEdge<E>> {
        Set::new(
            |x: FullEdge<E>|
                self.dag.has_node(x.0) && 0 <= x.0.id() < vis.len() && exists|i: int|
                    0 <= i < self.dag.spec_children(x.0).len() && i < vis[x.0.id()].len()
                        && vis[x.0.id()][i] && self.dag.spec_children(x.0)[i] == x.1,
        )
    }

    /// Some stack entry denotes the full edge `x`.
    spec fn st_covers(self, st: Seq<(NodeHandle, usize)>, x: FullEdge<E>) -> bool {
        exists|k: int| 0 <= k < st.len() && self.occ_edge(st[k].0, st[k].1 as int) == x
    }

    /// Every zero-cost step out of `x` lands on a visited edge other than the
    /// search anchor.
    spec fn zc_scanned(self, vis: Seq<Seq<bool>>, x: FullEdge<E>, estar: FullEdge<E>) -> bool {
        forall|y: FullEdge<E>|
            zc_step::<N, E>(self.dag.edge_set(), x, y) ==> (self.eset(vis).contains(y) && y
                != estar)
    }

    /// The core state of the zero-cost-cycle walk: sound marks (everything
    /// visited is reachable from the anchor by zero-cost steps) and a stack
    /// of valid, visited occurrences.
    spec fn zc_core(
        self,
        vis: Seq<Seq<bool>>,
        st: Seq<(NodeHandle, usize)>,
        estar: FullEdge<E>,
    ) -> bool {
        &&& self.vis_dims(vis)
        &&& self.eset(vis).contains(estar)
        &&& (forall|x: FullEdge<E>|
            self.eset(vis).contains(x) ==> reach::reaches(
                zc_rel::<N, E>(self.dag.edge_set()),
                estar,
                x,
            ))
        &&& (forall|k: int| 0 <= k < st.len() ==> self.occ_ok(st[k].0, st[k].1 as int))
        &&& (forall|k: int|
            0 <= k < st.len() ==> self.eset(vis).contains(
                self.occ_edge(st[k].0, st[k].1 as int),
            ))
    }

    /// A visited full edge is a committed edge.
    proof fn lemma_eset_sub(self, vis: Seq<Seq<bool>>, x: FullEdge<E>)
        requires
            self.eset(vis).contains(x),
        ensures
            self.dag.edge_set().contains(x),
    {
        let i = choose|i: int|
            0 <= i < self.dag.spec_children(x.0).len() && i < vis[x.0.id()].len() && vis[x.0.id()][i]
                && self.dag.spec_children(x.0)[i] == x.1;
        assert(self.dag.spec_children(x.0).contains(x.1)) by {
            assert(self.dag.spec_children(x.0)[i] == x.1);
        }
    }

    /// Visits all zero-cost successors of the occurrence `(u, i)`, marking
    /// and stacking the unvisited ones, and reports whether the anchor edge
    /// was found among them (which closes a zero-cost cycle).
    fn zc_scan(
        &self,
        u: NodeHandle,
        i: usize,
        star_from: &NodeHandle,
        star_half: &DagEdge<E>,
        visited: &mut Vec<Vec<bool>>,
        stack: &mut Vec<(NodeHandle, usize)>,
    ) -> (found: bool)
        requires
            self.dag.wf(),
            self.occ_ok(u, i as int),
            self.dag.edge_set().contains((*star_from, *star_half)),
            self.zc_core(util::rows_view(old(visited)@), old(stack)@, (*star_from, *star_half)),
            self.eset(util::rows_view(old(visited)@)).contains(self.occ_edge(u, i as int)),
        ensures
            found ==> exists|p: Seq<FullEdge<E>>|
                reach::is_cycle(zc_rel::<N, E>(self.dag.edge_set()), p) && p.first() == (
                *star_from,
                *star_half,
            ),
            !found ==> self.zc_core(
                util::rows_view(final(visited)@),
                final(stack)@,
                (*star_from, *star_half),
            ),
            !found ==> self.zc_scanned(
                util::rows_view(final(visited)@),
                self.occ_edge(u, i as int),
                (*star_from, *star_half),
            ),
            !found ==> old(stack)@.is_prefix_of(final(stack)@),
            forall|x: FullEdge<E>|
                self.eset(util::rows_view(old(visited)@)).contains(x) ==> self.eset(
                    util::rows_view(final(visited)@),
                ).contains(x),
            !found ==> forall|x: FullEdge<E>|
                self.eset(util::rows_view(final(visited)@)).contains(x) ==> self.eset(
                    util::rows_view(old(visited)@),
                ).contains(x) || self.st_covers(final(stack)@, x),
            util::count_false2(util::rows_view(final(visited)@)) <= util::count_false2(
                util::rows_view(old(visited)@),
            ),
            final(stack)@.len() > old(stack)@.len() ==> util::count_false2(
                util::rows_view(final(visited)@),
            ) < util::count_false2(util::rows_view(old(visited)@)),
    {
        let ghost estar = (*star_from, *star_half);
        let ghost s = self.dag.edge_set();
        let ghost r = zc_rel::<N, E>(s);
        let d = self.dag.child_at(&u, i);
        let ghost x = (u, d);
        proof {
            assert(x == self.occ_edge(u, i as int));
            assert(self.dag.kids_ok(u));
        }
        let v = d.to;
        let vlen = self.dag.children_len(&v);
        let mut j: usize = 0;
        while j < vlen
            invariant
                self.dag.wf(),
                self.occ_ok(u, i as int),
                d == self.dag.spec_children(u)[i as int],
                x == (u, d),
                v == d.to,
                self.dag.has_node(v),
                estar == (*star_from, *star_half),
                s == self.dag.edge_set(),
                r == zc_rel::<N, E>(s),
                s.contains(estar),
                j <= vlen,
                vlen == self.dag.spec_children(v).len(),
                self.zc_core(util::rows_view(visited@), stack@, estar),
                self.eset(util::rows_view(visited@)).contains(x),
                old(stack)@.is_prefix_of(stack@),
                forall|x2: FullEdge<E>|
                    self.eset(util::rows_view(old(visited)@)).contains(x2) ==> self.eset(
                        util::rows_view(visited@),
                    ).contains(x2),
                forall|x2: FullEdge<E>|
                    self.eset(util::rows_view(visited@)).contains(x2) ==> self.eset(
                        util::rows_view(old(visited)@),
                    ).contains(x2) || self.st_covers(stack@, x2),
                util::count_false2(util::rows_view(visited@)) <= util::count_false2(
                    util::rows_view(old(visited)@),
                ),
                stack@.len() > old(stack)@.len() ==> util::count_false2(
                    util::rows_view(visited@),
                ) < util::count_false2(util::rows_view(old(visited)@)),
                forall|jj: int|
                    0 <= jj < j ==> (E::spec_is_zero_cost(d, #[trigger] self.dag.spec_children(
                        v,
                    )[jj]) ==> (self.eset(util::rows_view(visited@)).contains(
                        (v, self.dag.spec_children(v)[jj]),
                    ) && (v, self.dag.spec_children(v)[jj]) != estar)),
            decreases vlen - j,
        {
            let ghost st_it = stack@;
            let ghost w_it = util::rows_view(visited@);
            let cand = self.dag.child_at(&v, j);
            let ghost y = (v, cand);
            let zero = E::is_zero_cost(&d, &cand, self);
            if zero {
                proof {
                    assert(s.contains(y)) by {
                        assert(self.dag.spec_children(v)[j as int] == cand);
                        assert(self.dag.spec_children(v).contains(cand));
                    }
                    assert(zc_step::<N, E>(s, x, y)) by {
                        self.lemma_eset_sub(w_it, x);
                    }
                }
                if v == *star_from && cand.to == star_half.to && cand.weight.weight_eq(
                    &star_half.weight,
                ) {
                    proof {
                        assert(cand == *star_half);
                        assert(y == estar);
                        assert(reach::reaches(r, estar, x));
                        assert(r(x, estar));
                        reach::lemma_close_cycle(r, estar, x);
                    }
                    return true;
                }
                proof {
                    assert(y != estar);
                }
                let vi = self.dag.slot(&v);
                proof {
                    assert(w_it[v.id()].len() == self.dag.spec_children(v).len());
                    assert(w_it[v.id()] == visited@[vi as int]@);
                    assert(visited@.len() == w_it.len());
                }
                let marked_already = visited[vi][j];
                if !marked_already {
                    let ghost v0 = visited@;
                    let row = &mut visited[vi];
                    row[j] = true;
                    stack.push((v, j));
                    proof {
                        let row0 = v0[vi as int]@;
                        assert(visited@[vi as int]@ == row0.update(j as int, true));
                        assert(forall|k: int|
                            0 <= k < v0.len() && k != vi as int ==> visited@[k] == v0[k]);
                        let w1 = util::rows_view(visited@);
                        assert(w1 =~= w_it.update(vi as int, row0.update(j as int, true))) by {
                            assert forall|k: int| 0 <= k < w1.len() implies w1[k] == w_it.update(
                                vi as int,
                                row0.update(j as int, true),
                            )[k] by {
                                if k != vi as int {
                                    assert(visited@[k] == v0[k]);
                                }
                            }
                        }
                        assert(!w_it[vi as int][j as int]) by {
                            assert(w_it[vi as int] == row0);
                        }
                        util::lemma_count_false2_update(w_it, vi as int, j as int);
                        // The fresh mark adds exactly the full edge `y`.
                        assert forall|x2: FullEdge<E>|
                            self.eset(w_it).contains(x2) implies self.eset(w1).contains(x2) by {
                            let i2 = choose|i2: int|
                                0 <= i2 < self.dag.spec_children(x2.0).len() && i2 < w_it[x2.0.id()].len()
                                    && w_it[x2.0.id()][i2] && self.dag.spec_children(x2.0)[i2]
                                    == x2.1;
                            assert(w1[x2.0.id()][i2]);
                        }
                        assert(self.eset(w1).contains(y)) by {
                            assert(w1[v.id()][j as int]);
                            assert(self.dag.spec_children(v)[j as int] == cand);
                        }
                        assert forall|x2: FullEdge<E>|
                            self.eset(w1).contains(x2) implies self.eset(w_it).contains(x2) || x2
                            == y by {
                            let i2 = choose|i2: int|
                                0 <= i2 < self.dag.spec_children(x2.0).len() && i2 < w1[x2.0.id()].len()
                                    && w1[x2.0.id()][i2] && self.dag.spec_children(x2.0)[i2]
                                    == x2.1;
                            if x2.0.id() == vi as int {
                                NodeHandle::lemma_id_injective(x2.0, v);
                                if i2 == j as int {
                                    assert(x2.1 == cand);
                                } else {
                                    assert(w_it[x2.0.id()][i2]);
                                }
                            } else {
                                assert(w_it[x2.0.id()] == w1[x2.0.id()]);
                            }
                        }
                        // Reachability of the new edge from the anchor.
                        assert(reach::reaches(r, estar, x));
                        reach::lemma_reaches_extend(r, estar, x, y);
                        // Stack facts after the push.
                        assert(stack@ == st_it.push((v, j)));
                        assert(stack@[stack@.len() - 1] == (v, j));
                        assert(self.occ_edge(v, j as int) == y);
                        assert(self.st_covers(stack@, y));
                        assert(old(stack)@.is_prefix_of(stack@)) by {
                            assert forall|k: int|
                                0 <= k < old(stack)@.len() implies old(stack)@[k] == stack@[k] by {
                                assert(old(stack)@[k] == st_it[k]);
                            }
                            assert(old(stack)@ =~= stack@.subrange(0, old(stack)@.len() as int));
                        }
                        // The core invariant after marking and pushing.
                        assert(self.zc_core(w1, stack@, estar)) by {
                            assert(self.vis_dims(w1)) by {
                                assert forall|h: NodeHandle|
                                    self.dag.has_node(h) implies (#[trigger] w1[h.id()]).len()
                                    == self.dag.spec_children(h).len() by {
                                    assert(0 <= h.id() < w1.len());
                                    if h.id() == vi as int {
                                        NodeHandle::lemma_id_injective(h, v);
                                    } else {
                                        assert(w1[h.id()] == w_it[h.id()]);
                                        assert(w_it[h.id()].len() == self.dag.spec_children(
                                            h,
                                        ).len());
                                    }
                                }
                            }
                            assert forall|x2: FullEdge<E>|
                                self.eset(w1).contains(x2) implies reach::reaches(
                                r,
                                estar,
                                x2,
                            ) by {
                                if self.eset(w_it).contains(x2) {
                                } else {
                                    assert(x2 == y);
                                }
                            }
                            assert forall|k: int|
                                0 <= k < stack@.len() implies self.occ_ok(
                                stack@[k].0,
                                stack@[k].1 as int,
                            ) && self.eset(w1).contains(
                                self.occ_edge(stack@[k].0, stack@[k].1 as int),
                            ) by {
                                if k < stack@.len() - 1 {
                                    assert(stack@[k] == st_it[k]);
                                    assert(self.eset(w_it).contains(
                                        self.occ_edge(st_it[k].0, st_it[k].1 as int),
                                    ));
                                } else {
                                    assert(stack@[k] == (v, j));
                                }
                            }
                        }
                        // New marks are covered by the stack.
                        assert forall|x2: FullEdge<E>|
                            self.eset(w1).contains(x2) implies self.eset(
                            util::rows_view(old(visited)@),
                        ).contains(x2) || self.st_covers(stack@, x2) by {
                            if x2 == y {
                                assert(self.st_covers(stack@, x2));
                            } else {
                                assert(self.eset(w_it).contains(x2));
                                if !self.eset(util::rows_view(old(visited)@)).contains(x2) {
                                    assert(self.st_covers(st_it, x2));
                                    let k = choose|k: int|
                                        0 <= k < st_it.len() && self.occ_edge(
                                            st_it[k].0,
                                            st_it[k].1 as int,
                                        ) == x2;
                                    assert(stack@[k] == st_it[k]);
                                    assert(self.st_covers(stack@, x2));
                                }
                            }
                        }
                    }
                } else {
                    proof {
                        let w = util::rows_view(visited@);
                        assert(self.eset(w).contains(y)) by {
                            assert(w[v.id()][j as int]) by {
                                assert(w[v.id()] == visited@[vi as int]@);
                            }
                            assert(self.dag.spec_children(v)[j as int] == cand);
                        }
                    }
                }
            }
            j += 1;
            proof {
                assert forall|jj: int|
                    0 <= jj < j implies (E::spec_is_zero_cost(d, #[trigger] self.dag.spec_children(
                        v,
                    )[jj]) ==> (self.eset(util::rows_view(visited@)).contains(
                        (v, self.dag.spec_children(v)[jj]),
                    ) && (v, self.dag.spec_children(v)[jj]) != estar)) by {
                    if jj < j - 1 {
                        if E::spec_is_zero_cost(d, self.dag.spec_children(v)[jj]) {
                            assert(self.eset(w_it).contains((v, self.dag.spec_children(v)[jj])));
                        }
                    } else {
                        if E::spec_is_zero_cost(d, self.dag.spec_children(v)[jj]) {
                            assert(self.dag.spec_children(v)[jj] == cand);
                            assert(E::spec_is_zero_cost(d, cand));
                        }
                    }
                }
            }
        }
        proof {
            let w = util::rows_view(visited@);
            assert forall|y2: FullEdge<E>|
                zc_step::<N, E>(s, x, y2) implies (self.eset(w).contains(y2) && y2 != estar) by {
                assert(s.contains(y2));
                assert(y2.0 == v);
                let jj = choose|jj: int|
                    0 <= jj < self.dag.spec_children(v).len() && self.dag.spec_children(v)[jj]
                        == y2.1;
                assert(E::spec_is_zero_cost(d, self.dag.spec_children(v)[jj]));
                assert(self.eset(w).contains((v, self.dag.spec_children(v)[jj])));
            }
        }
        false
    }

    /// Whether the committed edges hold an all-zero-cost cycle anchored at
    /// the given edge, found by a depth-first walk over zero-cost steps.
    fn find_zc_cycle(&self, star_from: &NodeHandle, star_half: &DagEdge<E>) -> (found: bool)
        requires
            self.dag.wf(),
            self.dag.has_node(*star_from),
            self.dag.spec_children(*star_from).contains(*star_half),
        ensures
            found == exists|p: Seq<FullEdge<E>>|
                reach::is_cycle(zc_rel::<N, E>(self.dag.edge_set()), p) && p.first() == (
                *star_from,
                *star_half,
            ),
    {
        let ghost estar = (*star_from, *star_half);
        let ghost s = self.dag.edge_set();
        let ghost r = zc_rel::<N, E>(s);
        proof {
            assert(s.contains(estar));
        }
        // One mark row per node, one entry per outbound edge.
        let n = self.dag.num_nodes();
        let mut visited: Vec<Vec<bool>> = Vec::new();
        let mut i: usize = 0;
        while i < n
            invariant
                i <= n,
                n == self.node_count(),
                self.dag.wf(),
                visited@.len() == i,
                forall|h: NodeHandle|
                    self.dag.has_node(h) && h.id() < i ==> (#[trigger] visited@[h.id()])@.len()
                        == self.dag.spec_children(h).len(),
                forall|k: int, m: int|
                    0 <= k < i && 0 <= m < visited@[k]@.len() ==> !(#[trigger] visited@[k]@[m]),
            decreases n - i,
        {
            let h = self.dag.handle_of(i);
            let clen = self.dag.children_len(&h);
            let mut row: Vec<bool> = Vec::new();
            let mut m: usize = 0;
            while m < clen
                invariant
                    m <= clen,
                    row@.len() == m,
                    forall|k: int| 0 <= k < m ==> !row@[k],
                decreases clen - m,
            {
                row.push(false);
                m += 1;
            }
            visited.push(row);
            i += 1;
            proof {
                assert forall|h2: NodeHandle|
                    self.dag.has_node(h2) && h2.id() < i implies (
                #[trigger] visited@[h2.id()])@.len() == self.dag.spec_children(h2).len() by {
                    if h2.id() == i - 1 {
                        NodeHandle::lemma_id_injective(h2, h);
                    }
                }
            }
        }
        // Find the anchor's slot in its source's edge list and mark it.
        let star_slot = self.dag.slot(star_from);
        let star_len = self.dag.children_len(star_from);
        let mut jstar: usize = 0;
        let mut found_star: bool = false;
        while !found_star && jstar < star_len
            invariant
                jstar <= star_len,
                star_len == self.dag.spec_children(*star_from).len(),
                self.dag.has_node(*star_from),
                self.dag.wf(),
                !found_star ==> forall|k: int|
                    0 <= k < jstar ==> self.dag.spec_children(*star_from)[k] != *star_half,
                found_star ==> jstar < star_len && self.dag.spec_children(*star_from)[jstar as int]
                    == *star_half,
            decreases star_len - jstar, (if found_star { 0int } else { 1int }),
        {
            let c = self.dag.child_at(star_from, jstar);
            if c.to == star_half.to && c.weight.weight_eq(&star_half.weight) {
                proof {
                    assert(self.dag.spec_children(*star_from)[jstar as int] == *star_half);
                }
                found_star = true;
            } else {
                jstar += 1;
            }
        }
        proof {
            if !found_star {
                let k = choose|k: int|
                    0 <= k < self.dag.spec_children(*star_from).len() && self.dag.spec_children(
                        *star_from,
                    )[k] == *star_half;
                assert(self.dag.spec_children(*star_from)[k] != *star_half);
            }
        }
        let ghost v0 = visited@;
        let ghost w0 = util::rows_view(visited@);
        proof {
            assert(w0[star_from.id()].len() == self.dag.spec_children(*star_from).len()) by {
                assert(w0[star_from.id()] == v0[star_from.id()]@);
            }
        }
        let row = &mut visited[star_slot];
        row[jstar] = true;
        let mut stack: Vec<(NodeHandle, usize)> = Vec::new();
        stack.push((*star_from, jstar));
        proof {
            assert(visited@[star_slot as int]@ == v0[star_slot as int]@.update(
                jstar as int,
                true,
            ));
            assert(forall|k: int|
                0 <= k < v0.len() && k != star_slot as int ==> visited@[k] == v0[k]);
            let w1 = util::rows_view(visited@);
            assert(w1.len() == w0.len());
            assert(self.eset(w1).contains(estar)) by {
                assert(w1[star_from.id()] == visited@[star_slot as int]@);
                assert(w1[star_from.id()][jstar as int]);
            }
            assert forall|x2: FullEdge<E>| self.eset(w1).contains(x2) implies x2 == estar by {
                let i2 = choose|i2: int|
                    0 <= i2 < self.dag.spec_children(x2.0).len() && i2 < w1[x2.0.id()].len()
                        && w1[x2.0.id()][i2] && self.dag.spec_children(x2.0)[i2] == x2.1;
                if x2.0.id() == star_slot as int {
                    NodeHandle::lemma_id_injective(x2.0, *star_from);
                    if i2 != jstar as int {
                        assert(!v0[star_slot as int]@.update(jstar as int, true)[i2]);
                    }
                } else {
                    assert(w1[x2.0.id()] == v0[x2.0.id()]@);
                    assert(!v0[x2.0.id()]@[i2]);
                }
            }
            assert(self.zc_core(w1, stack@, estar)) by {
                assert(self.vis_dims(w1)) by {
                    assert forall|h: NodeHandle|
                        self.dag.has_node(h) implies (#[trigger] w1[h.id()]).len()
                        == self.dag.spec_children(h).len() by {
                        if h.id() == star_slot as int {
                            NodeHandle::lemma_id_injective(h, *star_from);
                            assert(w1[h.id()] == v0[star_slot as int]@.update(jstar as int, true));
                            assert(v0[star_slot as int]@.len() == self.dag.spec_children(
                                *star_from,
                            ).len());
                        } else {
                            assert(w1[h.id()] == v0[h.id()]@);
                            assert(v0[h.id()]@.len() == self.dag.spec_children(h).len());
                        }
                    }
                }
                reach::lemma_reaches_refl(r, estar);
                assert(stack@[0] == (*star_from, jstar));
                assert(self.occ_edge(stack@[0].0, stack@[0].1 as int) == estar);
            }
            assert(self.st_covers(stack@, estar)) by {
                assert(self.occ_edge(stack@[0].0, stack@[0].1 as int) == estar);
            }
            assert forall|x2: FullEdge<E>|
                self.eset(util::rows_view(visited@)).contains(x2) && !self.st_covers(
                    stack@,
                    x2,
                ) implies #[trigger] self.zc_scanned(util::rows_view(visited@), x2, estar) by {
                assert(x2 == estar);
            }
        }
        while stack.len() > 0
            invariant
                self.dag.wf(),
                estar == (*star_from, *star_half),
                s == self.dag.edge_set(),
                r == zc_rel::<N, E>(s),
                s.contains(estar),
                self.zc_core(util::rows_view(visited@), stack@, estar),
                forall|x2: FullEdge<E>|
                    self.eset(util::rows_view(visited@)).contains(x2) && !self.st_covers(
                        stack@,
                        x2,
                    ) ==> #[trigger] self.zc_scanned(util::rows_view(visited@), x2, estar),
            decreases util::count_false2(util::rows_view(visited@)), stack@.len(),
        {
            let ghost st0 = stack@;
            let ghost wpre = util::rows_view(visited@);
            let top = stack.pop().unwrap();
            let (u, i) = top;
            let ghost popped = stack@;
            proof {
                assert(st0[st0.len() - 1] == top);
                assert(self.occ_ok(u, i as int));
                assert(self.eset(wpre).contains(self.occ_edge(u, i as int)));
                assert(self.zc_core(wpre, popped, estar)) by {
                    assert forall|k: int|
                        0 <= k < popped.len() implies self.occ_ok(popped[k].0, popped[k].1 as int)
                        && self.eset(wpre).contains(
                        self.occ_edge(popped[k].0, popped[k].1 as int),
                    ) by {
                        assert(popped[k] == st0[k]);
                    }
                }
            }
            let found = self.zc_scan(u, i, star_from, star_half, &mut visited, &mut stack);
            if found {
                return true;
            }
            proof {
                let w2 = util::rows_view(visited@);
                assert forall|x2: FullEdge<E>|
                    self.eset(w2).contains(x2) && !self.st_covers(stack@, x2) implies
                    #[trigger] self.zc_scanned(w2, x2, estar) by {
                    if x2 == self.occ_edge(u, i as int) {
                        assert(self.zc_scanned(w2, x2, estar));
                    } else if self.eset(wpre).contains(x2) {
                        if self.st_covers(st0, x2) {
                            let k = choose|k: int|
                                0 <= k < st0.len() && self.occ_edge(st0[k].0, st0[k].1 as int)
                                    == x2;
                            assert(k < st0.len() - 1);
                            assert(popped[k] == st0[k]);
                            assert(popped.is_prefix_of(stack@));
                            assert(stack@[k] == popped[k]);
                            assert(self.st_covers(stack@, x2));
                        } else {
                            assert(self.zc_scanned(wpre, x2, estar));
                            assert forall|y2: FullEdge<E>|
                                zc_step::<N, E>(s, x2, y2) implies (self.eset(w2).contains(y2)
                                && y2 != estar) by {
                                assert(self.eset(wpre).contains(y2));
                            }
                        }
                    } else {
                        assert(self.st_covers(stack@, x2));
                    }
                }
            }
        }
        proof {
            let w = util::rows_view(visited@);
            let es = self.eset(w);
            assert(reach::closed_under(r, es)) by {
                assert forall|x2: FullEdge<E>, y2: FullEdge<E>|
                    es.contains(x2) && #[trigger] r(x2, y2) implies es.contains(y2) by {
                    assert(!self.st_covers(stack@, x2)) by {
                        if self.st_covers(stack@, x2) {
                            let k = choose|k: int|
                                0 <= k < stack@.len() && self.occ_edge(
                                    stack@[k].0,
                                    stack@[k].1 as int,
                                ) == x2;
                        }
                    }
                    assert(self.zc_scanned(w, x2, estar));
                    assert(zc_step::<N, E>(s, x2, y2));
                }
            }
            assert forall|x2: FullEdge<E>| es.contains(x2) implies !(#[trigger] r(x2, estar)) by {
                assert(!self.st_covers(stack@, x2)) by {
                    if self.st_covers(stack@, x2) {
                        let k = choose|k: int|
                            0 <= k < stack@.len() && self.occ_edge(stack@[k].0, stack@[k].1 as int)
                                == x2;
                    }
                }
                assert(self.zc_scanned(w, x2, estar));
                if r(x2, estar) {
                    assert(zc_step::<N, E>(s, x2, estar));
                    assert(estar != estar);
                }
            }
            reach::lemma_no_cycle_at_blocked(r, es, estar);
        }
        false
    }
}

impl<N> CostQueriable<N, u32> for u32 {
    /// A plain additive cost model: an edge is zero-cost exactly when its
    /// own weight is zero, whatever comes next.
    open spec fn spec_is_zero_cost(edge: DagEdge<u32>, next: DagEdge<u32>) -> bool {
        edge.weight == 0
    }

    fn is_zero_cost(edge: &DagEdge<u32>, next: &DagEdge<u32>, dag: &PosCostDag<N, u32>) -> bool {
        edge.weight == 0
    }
}

impl<N> CostQueriable<N, u64> for u64 {
    /// A plain additive cost model: an edge is zero-cost exactly when its
    /// own weight is zero, whatever comes next.
    open spec fn spec_is_zero_cost(edge: DagEdge<u64>, next: DagEdge<u64>) -> bool {
        edge.weight == 0
    }

    fn is_zero_cost(edge: &DagEdge<u64>, next: &DagEdge<u64>, dag: &PosCostDag<N, u64>) -> bool {
        edge.weight == 0
    }
}

impl<N, E: EdgeWeight + CostQueriable<N, E>> OnDag<N, E> for PosCostDag<N, E> {
    type NodeHandle = NodeHandle;

    open spec fn dag_inv(&self) -> bool {
        self.wf()
    }

    open spec fn ok_handle(&self, h: NodeHandle) -> bool {
        self.has_node(h)
    }

    open spec fn can_grow(&self) -> bool {
        self.node_count() < u64::MAX as int
    }

    fn add_node(&mut self, node: N) -> NodeHandle {
        PosCostDag::add_node(self, node)
    }

    fn add_edge(&mut self, from: &NodeHandle, to: &NodeHandle, data: E) -> Result<
        (),
        CycleError,
    > {
        PosCostDag::add_edge(self, from, to, data)
    }

    fn rm_edge(&mut self, from: &NodeHandle, to: &NodeHandle, data: E) -> Result<
        (),
        CycleError,
    > {
        PosCostDag::rm_edge(self, from, to, data)
    }
}

} // verus!
