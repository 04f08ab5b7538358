//! Path theory over an abstract step relation.
//!
//! A graph variant instantiates the vertex type `A` and the step relation `r`
//! with its own notion of "there is an edge from `x` to `y`".  Everything the
//! engine promises about reachability, acyclicity and topological order is
//! stated with the definitions below and proved from the lemmas below.

use vstd::prelude::*;

verus! {

/// A nonempty vertex sequence whose consecutive elements are related by `r`.
pub open spec fn is_path<A>(r: spec_fn(A, A) -> bool, p: Seq<A>) -> bool {
    &&& p.len() >= 1
    &&& forall|i: int| 0 <= i < p.len() - 1 ==> #[trigger] r(p[i], p[i + 1])
}

/// `p` is a path under `r` leading from `a` to `b`.
pub open spec fn connects<A>(r: spec_fn(A, A) -> bool, p: Seq<A>, a: A, b: A) -> bool {
    is_path(r, p) && p.first() == a && p.last() == b
}

/// `b` can be reached from `a` by zero or more steps of `r`.
pub open spec fn reaches<A>(r: spec_fn(A, A) -> bool, a: A, b: A) -> bool {
    exists|p: Seq<A>| connects(r, p, a, b)
}

/// A path of at least one step that returns to its starting vertex.
pub open spec fn is_cycle<A>(r: spec_fn(A, A) -> bool, p: Seq<A>) -> bool {
    is_path(r, p) && p.len() >= 2 && p.first() == p.last()
}

/// No cycles at all under `r`.
pub open spec fn acyclic<A>(r: spec_fn(A, A) -> bool) -> bool {
    forall|p: Seq<A>| !is_cycle(r, p)
}

/// Every step of `r` out of `s` stays inside `s`.
pub open spec fn closed_under<A>(r: spec_fn(A, A) -> bool, s: Set<A>) -> bool {
    forall|x: A, y: A| s.contains(x) && #[trigger] r(x, y) ==> s.contains(y)
}

/// Extracts one step of a path in the exact shape later proofs need.
pub proof fn path_step<A>(r: spec_fn(A, A) -> bool, p: Seq<A>, i: int)
    requires
        is_path(r, p),
        0 <= i < p.len() - 1,
    ensures
        r(p[i], p[i + 1]),
{
    assert(r(p[i], p[i + 1]));
}

/// A relation with no steps at all has no cycles.
pub proof fn lemma_no_steps_acyclic<A>(r: spec_fn(A, A) -> bool)
    requires
        forall|x: A, y: A| !(#[trigger] r(x, y)),
    ensures
        acyclic(r),
{
    assert forall|p: Seq<A>| !is_cycle(r, p) by {
        if is_cycle(r, p) {
            path_step(r, p, 0);
        }
    }
}

/// A path extends by one step at its end.
pub proof fn lemma_path_push<A>(r: spec_fn(A, A) -> bool, p: Seq<A>, c: A)
    requires
        is_path(r, p),
        r(p.last(), c),
    ensures
        is_path(r, p.push(c)),
        p.push(c).last() == c,
        p.push(c).first() == p.first(),
{
    let q = p.push(c);
    assert forall|i: int| 0 <= i < q.len() - 1 implies #[trigger] r(q[i], q[i + 1]) by {
        if i < p.len() - 1 {
            assert(q[i] == p[i] && q[i + 1] == p[i + 1]);
            path_step(r, p, i);
        } else {
            assert(q[i] == p.last() && q[i + 1] == c);
        }
    }
}

/// Every prefix of a path connects the path's head to its own last vertex.
pub proof fn lemma_path_prefix<A>(r: spec_fn(A, A) -> bool, p: Seq<A>, i: int)
    requires
        is_path(r, p),
        0 <= i < p.len(),
    ensures
        reaches(r, p.first(), p[i]),
{
    let q = p.subrange(0, i + 1);
    assert forall|k: int| 0 <= k < q.len() - 1 implies #[trigger] r(q[k], q[k + 1]) by {
        assert(q[k] == p[k] && q[k + 1] == p[k + 1]);
        path_step(r, p, k);
    }
    assert(connects(r, q, p.first(), p[i]));
}

/// Every suffix of a path connects its head to the path's last vertex.
pub proof fn lemma_path_suffix<A>(r: spec_fn(A, A) -> bool, p: Seq<A>, i: int)
    requires
        is_path(r, p),
        0 <= i < p.len(),
    ensures
        reaches(r, p[i], p.last()),
{
    let q = p.subrange(i, p.len() as int);
    assert forall|k: int| 0 <= k < q.len() - 1 implies #[trigger] r(q[k], q[k + 1]) by {
        assert(q[k] == p[i + k] && q[k + 1] == p[i + k + 1]);
        path_step(r, p, i + k);
    }
    assert(q.first() == p[i] && q.last() == p.last());
    assert(connects(r, q, p[i], p.last()));
}

/// Reachability is reflexive: the one-vertex path.
pub proof fn lemma_reaches_refl<A>(r: spec_fn(A, A) -> bool, a: A)
    ensures
        reaches(r, a, a),
{
    let p = seq![a];
    assert(connects(r, p, a, a));
}

/// A single step is a path of length two.
pub proof fn lemma_reaches_step<A>(r: spec_fn(A, A) -> bool, a: A, b: A)
    requires
        r(a, b),
    ensures
        reaches(r, a, b),
{
    let p = seq![a, b];
    assert(p.len() == 2 && p[0] == a && p[1] == b);
    assert(connects(r, p, a, b));
}

/// Splicing a path from `a` to `b` with a path from `b` to `c` yields a path
/// from `a` to `c` whose length is the sum of both, minus the shared vertex.
pub proof fn lemma_connects_join<A>(
    r: spec_fn(A, A) -> bool,
    p: Seq<A>,
    q: Seq<A>,
    a: A,
    b: A,
    c: A,
)
    requires
        connects(r, p, a, b),
        connects(r, q, b, c),
    ensures
        connects(r, p + q.drop_first(), a, c),
        (p + q.drop_first()).len() == p.len() + q.len() - 1,
{
    let pq = p + q.drop_first();
    assert forall|i: int| 0 <= i < pq.len() - 1 implies #[trigger] r(pq[i], pq[i + 1]) by {
        if i < p.len() - 1 {
            assert(pq[i] == p[i] && pq[i + 1] == p[i + 1]);
        } else if i == p.len() - 1 {
            // `q` has at least two elements here, since `i + 1 < pq.len()`.
            assert(pq[i] == p.last());
            assert(pq[i + 1] == q[1]);
            path_step(r, q, 0);
        } else {
            let k = i - p.len();
            assert(pq[i] == q[k + 1] && pq[i + 1] == q[k + 2]);
            path_step(r, q, k + 1);
        }
    }
    if q.len() == 1 {
        assert(pq =~= p);
        assert(pq.last() == b && b == c);
    } else {
        assert(pq.last() == q.last());
    }
}

/// Reachability is transitive.
pub proof fn lemma_reaches_trans<A>(r: spec_fn(A, A) -> bool, a: A, b: A, c: A)
    requires
        reaches(r, a, b),
        reaches(r, b, c),
    ensures
        reaches(r, a, c),
{
    let p = choose|p: Seq<A>| connects(r, p, a, b);
    let q = choose|q: Seq<A>| connects(r, q, b, c);
    lemma_connects_join(r, p, q, a, b, c);
}

/// Reaching `b` and stepping to `c` reaches `c`.
pub proof fn lemma_reaches_extend<A>(r: spec_fn(A, A) -> bool, a: A, b: A, c: A)
    requires
        reaches(r, a, b),
        r(b, c),
    ensures
        reaches(r, a, c),
{
    lemma_reaches_step(r, b, c);
    lemma_reaches_trans(r, a, b, c);
}

/// Every vertex of a path that starts inside a closed set stays inside it.
pub proof fn lemma_closed_path<A>(r: spec_fn(A, A) -> bool, s: Set<A>, p: Seq<A>)
    requires
        closed_under(r, s),
        is_path(r, p),
        s.contains(p.first()),
    ensures
        forall|i: int| 0 <= i < p.len() ==> s.contains(#[trigger] p[i]),
    decreases p.len(),
{
    if p.len() > 1 {
        path_step(r, p, 0);
        let q = p.drop_first();
        assert(is_path(r, q)) by {
            assert forall|i: int| 0 <= i < q.len() - 1 implies #[trigger] r(q[i], q[i + 1]) by {
                assert(q[i] == p[i + 1] && q[i + 1] == p[i + 2]);
                path_step(r, p, i + 1);
            }
        }
        assert(s.contains(q.first()));
        lemma_closed_path(r, s, q);
        assert forall|i: int| 0 <= i < p.len() implies s.contains(#[trigger] p[i]) by {
            if i > 0 {
                assert(p[i] == q[i - 1]);
            }
        }
    }
}

/// A closed set that contains `a` contains everything `a` reaches.
pub proof fn lemma_closed_reach<A>(r: spec_fn(A, A) -> bool, s: Set<A>, a: A, b: A)
    requires
        closed_under(r, s),
        s.contains(a),
        reaches(r, a, b),
    ensures
        s.contains(b),
{
    let p = choose|p: Seq<A>| connects(r, p, a, b);
    lemma_closed_path(r, s, p);
    assert(s.contains(p[p.len() - 1]));
}

/// A path under a pointwise-smaller relation is a path under the larger one.
pub proof fn lemma_path_mono<A>(r1: spec_fn(A, A) -> bool, r2: spec_fn(A, A) -> bool, p: Seq<A>)
    requires
        is_path(r1, p),
        forall|x: A, y: A| #[trigger] r1(x, y) ==> r2(x, y),
    ensures
        is_path(r2, p),
{
    assert forall|i: int| 0 <= i < p.len() - 1 implies #[trigger] r2(p[i], p[i + 1]) by {
        path_step(r1, p, i);
    }
}

/// Reachability is monotone in the relation.
pub proof fn lemma_reaches_mono<A>(
    r1: spec_fn(A, A) -> bool,
    r2: spec_fn(A, A) -> bool,
    a: A,
    b: A,
)
    requires
        reaches(r1, a, b),
        forall|x: A, y: A| #[trigger] r1(x, y) ==> r2(x, y),
    ensures
        reaches(r2, a, b),
{
    let p = choose|p: Seq<A>| connects(r1, p, a, b);
    lemma_path_mono(r1, r2, p);
    assert(connects(r2, p, a, b));
}

/// A relation below an acyclic relation is acyclic.
pub proof fn lemma_acyclic_mono<A>(r1: spec_fn(A, A) -> bool, r2: spec_fn(A, A) -> bool)
    requires
        acyclic(r2),
        forall|x: A, y: A| #[trigger] r1(x, y) ==> r2(x, y),
    ensures
        acyclic(r1),
{
    assert forall|p: Seq<A>| !is_cycle(r1, p) by {
        if is_cycle(r1, p) {
            lemma_path_mono(r1, r2, p);
            assert(is_cycle(r2, p));
        }
    }
}

/// In an acyclic relation, two distinct vertices never reach each other.
pub proof fn lemma_acyclic_no_mutual_reach<A>(r: spec_fn(A, A) -> bool, a: A, b: A)
    requires
        acyclic(r),
        a != b,
    ensures
        !(reaches(r, a, b) && reaches(r, b, a)),
{
    if reaches(r, a, b) && reaches(r, b, a) {
        let p = choose|p: Seq<A>| connects(r, p, a, b);
        let q = choose|q: Seq<A>| connects(r, q, b, a);
        lemma_connects_join(r, p, q, a, b, a);
        let pq = p + q.drop_first();
        // `p` visits two distinct vertices, so the spliced path has length two
        // or more and is a cycle.
        assert(p.len() >= 2);
        assert(is_cycle(r, pq));
    }
}

/// An acyclic relation has no step running back along an existing route:
/// an edge `f -> t` forbids any path from `t` back to `f`.
pub proof fn lemma_acyclic_no_back_path<A>(r: spec_fn(A, A) -> bool, f: A, t: A)
    requires
        acyclic(r),
        r(f, t),
    ensures
        !reaches(r, t, f),
{
    if reaches(r, t, f) {
        let q = choose|q: Seq<A>| connects(r, q, t, f);
        let p = seq![f] + q;
        assert forall|i: int| 0 <= i < p.len() - 1 implies #[trigger] r(p[i], p[i + 1]) by {
            if i == 0 {
                assert(p[0] == f && p[1] == q[0] && q[0] == t);
            } else {
                assert(p[i] == q[i - 1] && p[i + 1] == q[i]);
                path_step(r, q, i - 1);
            }
        }
        assert(p.first() == f && p.last() == q.last());
        assert(is_cycle(r, p));
    }
}

/// Any path under "r1 plus the single new step `(a, b)`" decomposes: either it
/// already exists under `r1`, or it passes through the new step.
pub proof fn lemma_new_step_path<A>(
    r1: spec_fn(A, A) -> bool,
    r2: spec_fn(A, A) -> bool,
    a: A,
    b: A,
    p: Seq<A>,
)
    requires
        forall|x: A, y: A| #[trigger] r2(x, y) <==> (r1(x, y) || (x == a && y == b)),
        is_path(r2, p),
    ensures
        reaches(r1, p.first(), p.last()) || (reaches(r1, p.first(), a) && reaches(
            r1,
            b,
            p.last(),
        )),
    decreases p.len(),
{
    if p.len() == 1 {
        lemma_reaches_refl(r1, p.first());
    } else {
        let q = p.drop_first();
        assert(is_path(r2, q)) by {
            assert forall|i: int| 0 <= i < q.len() - 1 implies #[trigger] r2(q[i], q[i + 1]) by {
                assert(q[i] == p[i + 1] && q[i + 1] == p[i + 2]);
                path_step(r2, p, i + 1);
            }
        }
        lemma_new_step_path(r1, r2, a, b, q);
        path_step(r2, p, 0);
        assert(q.first() == p[1] && q.last() == p.last());
        if r1(p[0], p[1]) {
            lemma_reaches_step(r1, p[0], p[1]);
            if reaches(r1, q.first(), q.last()) {
                lemma_reaches_trans(r1, p[0], p[1], p.last());
            } else {
                lemma_reaches_trans(r1, p[0], p[1], a);
            }
        } else {
            // The first step is the new one: `p[0] == a`, `p[1] == b`.
            lemma_reaches_refl(r1, a);
            if reaches(r1, q.first(), q.last()) {
            } else {
                assert(reaches(r1, b, a) && reaches(r1, b, p.last()));
            }
        }
    }
}

/// Gating rule for strict insertion: if `r1` is acyclic and `a` is not
/// reachable from `b`, then adding the single step `(a, b)` keeps it acyclic.
pub proof fn lemma_add_step_acyclic<A>(
    r1: spec_fn(A, A) -> bool,
    r2: spec_fn(A, A) -> bool,
    a: A,
    b: A,
)
    requires
        forall|x: A, y: A| #[trigger] r2(x, y) <==> (r1(x, y) || (x == a && y == b)),
        acyclic(r1),
        !reaches(r1, b, a),
    ensures
        acyclic(r2),
{
    assert forall|p: Seq<A>| !is_cycle(r2, p) by {
        if is_cycle(r2, p) {
            let c = p.first();
            let q = p.drop_first();
            assert(is_path(r2, q)) by {
                assert forall|i: int| 0 <= i < q.len() - 1 implies #[trigger] r2(q[i], q[i + 1]) by {
                    assert(q[i] == p[i + 1] && q[i + 1] == p[i + 2]);
                    path_step(r2, p, i + 1);
                }
            }
            assert(q.first() == p[1] && q.last() == c);
            lemma_new_step_path(r1, r2, a, b, q);
            path_step(r2, p, 0);
            if r1(c, p[1]) {
                if reaches(r1, p[1], c) {
                    lemma_reaches_step(r1, c, p[1]);
                    lemma_reaches_trans(r1, c, p[1], c);
                    let w = choose|w: Seq<A>| connects(r1, w, p[1], c);
                    let cyc = seq![c] + w;
                    assert forall|i: int| 0 <= i < cyc.len() - 1 implies #[trigger] r1(
                        cyc[i],
                        cyc[i + 1],
                    ) by {
                        if i == 0 {
                            assert(cyc[0] == c && cyc[1] == w[0] && w[0] == p[1]);
                        } else {
                            assert(cyc[i] == w[i - 1] && cyc[i + 1] == w[i]);
                            path_step(r1, w, i - 1);
                        }
                    }
                    assert(cyc.last() == w.last());
                    assert(is_cycle(r1, cyc));
                } else {
                    // `p[1]` reaches `a`, and `b` reaches `c`; together with the
                    // step `c -> p[1]` this gives a path from `b` back to `a`.
                    lemma_reaches_step(r1, c, p[1]);
                    lemma_reaches_trans(r1, c, p[1], a);
                    lemma_reaches_trans(r1, b, c, a);
                }
            } else {
                // The first step of the cycle is the new step, so `c == a`,
                // `p[1] == b`, and the rest of the cycle runs from `b` to `a`.
                assert(c == a && p[1] == b);
                if reaches(r1, p[1], c) {
                    assert(reaches(r1, b, a));
                } else {
                    assert(reaches(r1, b, a));
                }
            }
        }
    }
}

/// If a relation that only adds steps touching vertex `v` acquires a cycle,
/// while the base relation had none, the cycle passes through `v`.
pub proof fn lemma_new_vertex_on_cycle<A>(
    r1: spec_fn(A, A) -> bool,
    r2: spec_fn(A, A) -> bool,
    v: A,
    p: Seq<A>,
)
    requires
        forall|x: A, y: A| #[trigger] r2(x, y) ==> (r1(x, y) || x == v || y == v),
        acyclic(r1),
        is_cycle(r2, p),
    ensures
        exists|i: int| 0 <= i < p.len() && p[i] == v,
{
    if forall|i: int| 0 <= i < p.len() ==> p[i] != v {
        assert forall|i: int| 0 <= i < p.len() - 1 implies #[trigger] r1(p[i], p[i + 1]) by {
            path_step(r2, p, i);
            assert(p[i] != v && p[i + 1] != v);
        }
        assert(is_cycle(r1, p));
    }
}

/// A cycle can be rotated to start (and end) at any vertex it visits.
pub proof fn lemma_cycle_rotate<A>(r: spec_fn(A, A) -> bool, p: Seq<A>, j: int)
    requires
        is_cycle(r, p),
        0 <= j < p.len(),
    ensures
        exists|q: Seq<A>| is_cycle(r, q) && q.first() == p[j],
{
    let n = p.len() as int;
    let q = p.subrange(j, n) + p.subrange(1, j + 1);
    assert forall|i: int| 0 <= i < q.len() - 1 implies #[trigger] r(q[i], q[i + 1]) by {
        if i < n - j - 1 {
            assert(q[i] == p[j + i] && q[i + 1] == p[j + i + 1]);
            path_step(r, p, j + i);
        } else if i == n - j - 1 {
            assert(q[i] == p[n - 1] && p[n - 1] == p[0]);
            assert(q[i + 1] == p[1]);
            path_step(r, p, 0);
        } else {
            let k = i - (n - j);
            assert(q[i] == p[k + 1] && q[i + 1] == p[k + 2]);
            path_step(r, p, k + 1);
        }
    }
    assert(q.len() == n);
    assert(q.first() == p[j]);
    if j == 0 {
        assert(q.last() == p[j]);
    } else {
        assert(q.last() == p[j]);
    }
    assert(is_cycle(r, q) && q.first() == p[j]);
}

/// Witness for a detected cycle: a route from `e` to `v` plus a step from `v`
/// back to `e` closes a cycle anchored at `e`.
pub proof fn lemma_close_cycle<A>(r: spec_fn(A, A) -> bool, e: A, v: A)
    requires
        reaches(r, e, v),
        r(v, e),
    ensures
        exists|p: Seq<A>| is_cycle(r, p) && p.first() == e,
{
    let q = choose|q: Seq<A>| connects(r, q, e, v);
    let p = q + seq![e];
    assert forall|i: int| 0 <= i < p.len() - 1 implies #[trigger] r(p[i], p[i + 1]) by {
        if i < q.len() - 1 {
            assert(p[i] == q[i] && p[i + 1] == q[i + 1]);
            path_step(r, q, i);
        } else {
            assert(p[i] == q.last() && p[i + 1] == e);
        }
    }
    assert(p.first() == e && p.last() == e && p.len() >= 2);
    assert(is_cycle(r, p) && p.first() == e);
}

/// If a set containing `e` is closed under `r` and no member of it steps back
/// into `e`, then no cycle under `r` is anchored at `e`.
pub proof fn lemma_no_cycle_at_blocked<A>(r: spec_fn(A, A) -> bool, s: Set<A>, e: A)
    requires
        closed_under(r, s),
        s.contains(e),
        forall|v: A| s.contains(v) ==> !(#[trigger] r(v, e)),
    ensures
        forall|p: Seq<A>| !(is_cycle(r, p) && p.first() == e),
{
    assert forall|p: Seq<A>| !(is_cycle(r, p) && p.first() == e) by {
        if is_cycle(r, p) && p.first() == e {
            let head = p.drop_last();
            assert(is_path(r, head)) by {
                assert forall|i: int| 0 <= i < head.len() - 1 implies #[trigger] r(
                    head[i],
                    head[i + 1],
                ) by {
                    assert(head[i] == p[i] && head[i + 1] == p[i + 1]);
                    path_step(r, p, i);
                }
            }
            assert(head.first() == e);
            lemma_closed_path(r, s, head);
            let m = p.len() - 2;
            assert(s.contains(head[m]));
            path_step(r, p, m);
            assert(p[m + 1] == p.last() && p.last() == e);
        }
    }
}

} // verus!
