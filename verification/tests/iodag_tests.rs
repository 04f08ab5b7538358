//! The null-boundary variant: input/output edges, enforced deletion order,
//! cycle gating, idempotent mutation, and traversal.

use std::cell::Cell;

use dagcore::iodag::{Edge, IODag};

type MyDag = IODag<u32, u32>;

#[test]
/// Edges may begin or end at the null boundary; such edges never close a
/// cycle and are always accepted.
fn null_boundary_edges() {
    let mut dag = MyDag::new();
    let a = dag.add_node(1);
    let b = dag.add_node(2);
    dag.add_edge(Edge::new(None, Some(a), 100)).expect("Failed to add edge");
    dag.add_edge(Edge::new(Some(a), Some(b), 101)).expect("Failed to add edge");
    dag.add_edge(Edge::new(Some(b), None, 102)).expect("Failed to add edge");
    // Differently-weighted output edges from the same node coexist.
    dag.add_edge(Edge::new(Some(b), None, 103)).expect("Failed to add edge");
    assert_eq!(dag.iter_outbound_edges(None).len(), 1);
    assert_eq!(dag.iter_inbound_edges(None).len(), 2);
    assert_eq!(dag.iter_outbound_edges(Some(a)).len(), 1);
    assert_eq!(dag.iter_inbound_edges(Some(a)).len(), 1);
    assert_eq!(dag.iter_edges().len(), 4);
}

#[test]
/// An edge between nodes is rejected exactly when it would close a cycle, and
/// the rejection changes nothing.
fn cycle_gating() {
    let mut dag = MyDag::new();
    let a = dag.add_node(1);
    let b = dag.add_node(2);
    let c = dag.add_node(3);
    dag.add_edge(Edge::new(Some(a), Some(b), 1)).expect("Failed to add edge");
    dag.add_edge(Edge::new(Some(b), Some(c), 2)).expect("Failed to add edge");
    assert!(dag.can_add_edge(&Edge::new(Some(c), Some(a), 3)).is_err());
    assert!(dag.add_edge(Edge::new(Some(c), Some(a), 3)).is_err());
    // Self-loops are cycles too.
    assert!(dag.add_edge(Edge::new(Some(a), Some(a), 4)).is_err());
    let edges = dag.iter_edges();
    assert_eq!(edges.len(), 2);
    // The other direction is fine.
    dag.add_edge(Edge::new(Some(a), Some(c), 5)).expect("Failed to add edge");
}

#[test]
/// Inserting a structurally identical edge twice reports success twice and
/// leaves the edge set unchanged after the second call.
fn idempotent_edge_insert() {
    let mut dag = MyDag::new();
    let a = dag.add_node(1);
    let b = dag.add_node(2);
    let e = Edge::new(Some(a), Some(b), 9);
    dag.add_edge(e).expect("Failed to add edge");
    dag.add_edge(e).expect("Failed to add edge");
    assert_eq!(dag.iter_outbound_edges(Some(a)).len(), 1);
    assert_eq!(dag.iter_inbound_edges(Some(b)).len(), 1);
}

#[test]
/// A node with any remaining outbound or inbound edge cannot be deleted;
/// deleting an absent node is a no-op success.
fn deletion_preconditions() {
    let mut dag = MyDag::new();
    let a = dag.add_node(1);
    let b = dag.add_node(2);
    let e = Edge::new(Some(a), Some(b), 1);
    dag.add_edge(e).expect("Failed to add edge");
    // Both endpoints still have an edge.
    assert!(dag.del_node(a).is_err());
    assert!(dag.del_node(b).is_err());
    assert_eq!(*dag.node_data(a), 1);
    dag.del_edge(e);
    dag.del_node(a).expect("Failed to del node");
    dag.del_node(b).expect("Failed to del node");
    // Idempotent: deleting again succeeds.
    dag.del_node(a).expect("Failed to del node");
    assert!(!dag.contains_node(&a));
    // A node with only an inbound edge is also protected.
    let c = dag.add_node(3);
    dag.add_edge(Edge::new(None, Some(c), 2)).expect("Failed to add edge");
    assert!(dag.del_node(c).is_err());
    dag.del_edge(Edge::new(None, Some(c), 2));
    dag.del_node(c).expect("Failed to del node");
}

#[test]
/// Removing an edge that is not there is a no-op; removing a committed edge
/// clears it from both indices.
fn del_edge_idempotent() {
    let mut dag = MyDag::new();
    let a = dag.add_node(1);
    let b = dag.add_node(2);
    let e = Edge::new(Some(a), Some(b), 5);
    dag.del_edge(e);
    dag.add_edge(e).expect("Failed to add edge");
    dag.del_edge(e);
    dag.del_edge(e);
    assert_eq!(dag.iter_outbound_edges(Some(a)).len(), 0);
    assert_eq!(dag.iter_inbound_edges(Some(b)).len(), 0);
}

#[test]
/// Edge accessors hand back what the edge was built from.
fn edge_accessors() {
    let mut dag = MyDag::new();
    let a = dag.add_node(7);
    let e: Edge<u32> = Edge::new(Some(a), None, 77);
    assert_eq!(*e.from(), Some(a));
    assert_eq!(*e.to(), None);
    assert_eq!(*e.weight(), 77);
}

#[test]
/// iter_nodes lists exactly the live nodes, in allocation order.
fn node_listing() {
    let mut dag = MyDag::new();
    let a = dag.add_node(1);
    let b = dag.add_node(2);
    let c = dag.add_node(3);
    assert_eq!(dag.iter_nodes(), vec![a, b, c]);
    dag.del_node(b).expect("Failed to del node");
    assert_eq!(dag.iter_nodes(), vec![a, c]);
    // Slots are not reused: a fresh node gets a fresh handle.
    let d = dag.add_node(4);
    assert_ne!(d, b);
    assert_eq!(dag.iter_nodes(), vec![a, c, d]);
}

#[test]
/// Traversal visits the edges reachable from the null boundary through
/// edges the predicate lets pass.
fn traverse_from_null() {
    let mut dag = MyDag::new();
    let a = dag.add_node(1);
    let b = dag.add_node(2);
    let blocked = dag.add_node(3);
    dag.add_edge(Edge::new(None, Some(a), 1)).expect("Failed to add edge");
    dag.add_edge(Edge::new(Some(a), Some(b), 2)).expect("Failed to add edge");
    dag.add_edge(Edge::new(None, Some(blocked), 99)).expect("Failed to add edge");
    dag.add_edge(Edge::new(Some(blocked), Some(b), 3)).expect("Failed to add edge");
    let seen: Cell<u32> = Cell::new(0);
    let total: Cell<u32> = Cell::new(0);
    dag.traverse(&|e: Edge<u32>| {
        total.set(total.get() + 1);
        if *e.weight() == 99 {
            // Do not walk past the blocked input edge.
            false
        } else {
            seen.set(seen.get() + *e.weight());
            true
        }
    });
    // Visited: the two null inputs, a->b; not blocked->b.
    assert_eq!(total.get(), 3);
    assert_eq!(seen.get(), 3);
}
