//! The strict variant: cycle rejection, reachability, idempotent insertion,
//! both topological orders, and handle utilities.

use dagcore::rcdag::RcDag;
use dagcore::rcdagbase::{NodeHandle, RcDagBase};

type MyDag = RcDag<u32, u32>;

#[test]
/// Graph should not allow cycles - should be an error when adding a cycle & structure should be
/// unmodified.
fn testrcdag_test_cycles() {
    //     12
    //     v
    //     1
    //     v
    //     2
    let mut dag = MyDag::new();
    let root = dag.add_node(12);
    let n2 = dag.add_node(2);
    let n1 = dag.add_node(1);
    dag.add_edge(&root, &n1, 1001).expect("Failed to add edge");
    dag.add_edge(&n1, &n2, 1002).expect("Failed to add edge");
    dag.add_edge(&n2, &root, 1003).err().expect("Failed to detect cycle");
}

#[test]
/// After successful insertions, no two distinct nodes reach each other both ways.
fn no_mutual_reachability() {
    let mut dag = MyDag::new();
    let a = dag.add_node(1);
    let b = dag.add_node(2);
    let c = dag.add_node(3);
    dag.add_edge(&a, &b, 10).expect("Failed to add edge");
    dag.add_edge(&b, &c, 11).expect("Failed to add edge");
    assert!(dag.is_reachable(&c, &a));
    assert!(!dag.is_reachable(&a, &c));
    assert!(!(dag.is_reachable(&b, &a) && dag.is_reachable(&a, &b)));
    assert!(dag.is_reachable(&a, &a));
}

#[test]
/// Inserting a structurally identical edge twice succeeds twice and leaves
/// the edge set unchanged after the second call.
fn idempotent_insertion() {
    let mut dag = MyDag::new();
    let a = dag.add_node(1);
    let b = dag.add_node(2);
    dag.add_edge(&a, &b, 7).expect("Failed to add edge");
    assert_eq!(dag.children(&a).len(), 1);
    dag.add_edge(&a, &b, 7).expect("Failed to add edge");
    assert_eq!(dag.children(&a).len(), 1);
    // A differently-weighted edge between the same endpoints is a new edge.
    dag.add_edge(&a, &b, 8).expect("Failed to add edge");
    assert_eq!(dag.children(&a).len(), 2);
}

#[test]
/// A rejected edge leaves every edge list exactly as it was.
fn rejected_edge_is_atomic() {
    let mut dag = MyDag::new();
    let a = dag.add_node(1);
    let b = dag.add_node(2);
    dag.add_edge(&a, &b, 5).expect("Failed to add edge");
    let before_a: Vec<u32> = dag.children(&a).iter().map(|d| *d.weight()).collect();
    let before_b: Vec<u32> = dag.children(&b).iter().map(|d| *d.weight()).collect();
    assert!(dag.add_edge(&b, &a, 6).is_err());
    let after_a: Vec<u32> = dag.children(&a).iter().map(|d| *d.weight()).collect();
    let after_b: Vec<u32> = dag.children(&b).iter().map(|d| *d.weight()).collect();
    assert_eq!(before_a, after_a);
    assert_eq!(before_b, after_b);
}

#[test]
/// For every edge u -> v reachable from the root, u precedes v in the forward
/// order and v precedes u in the reverse order; a node reachable along two
/// paths appears exactly once.
fn topo_orders_on_diamond() {
    // a -> b, a -> c, b -> d, c -> d
    let mut dag = MyDag::new();
    let a = dag.add_node(0);
    let b = dag.add_node(1);
    let c = dag.add_node(2);
    let d = dag.add_node(3);
    dag.add_edge(&a, &b, 1).expect("Failed to add edge");
    dag.add_edge(&a, &c, 2).expect("Failed to add edge");
    dag.add_edge(&b, &d, 3).expect("Failed to add edge");
    dag.add_edge(&c, &d, 4).expect("Failed to add edge");
    let fwd = dag.iter_topo(&a);
    let rev = dag.iter_topo_rev(&a);
    assert_eq!(fwd.len(), 4);
    assert_eq!(rev.len(), 4);
    let pos = |order: &Vec<NodeHandle>, h: &NodeHandle| -> usize {
        order.iter().position(|x| x == h).expect("node missing from order")
    };
    for (u, v) in [(&a, &b), (&a, &c), (&b, &d), (&c, &d)] {
        assert!(pos(&fwd, u) < pos(&fwd, v));
        assert!(pos(&rev, v) < pos(&rev, u));
    }
    // Dedup: `d` is reachable along two paths but listed once.
    assert_eq!(fwd.iter().filter(|h| **h == d).count(), 1);
    assert_eq!(rev.iter().filter(|h| **h == d).count(), 1);
    // The two orders are reverses of each other.
    let mut fwd_rev = fwd.clone();
    fwd_rev.reverse();
    assert_eq!(fwd_rev, rev);
}

#[test]
/// The base arena hands out fresh handles, stores data, and compares handles
/// by identity; weak and null handles behave as documented.
fn base_handles_and_data() {
    let mut base: RcDagBase<u32, u32> = RcDagBase::new();
    let a = base.add_node(41);
    let b = base.add_node(42);
    assert_ne!(a, b);
    assert_eq!(*base.node_data(&a), 41);
    assert_eq!(*a.node_data(&base), 41);
    assert_eq!(*b.node_data(&base), 42);
    assert_eq!(a.weak(), a.weak());
    assert_ne!(a.weak(), b.weak());
    let null = NodeHandle::null();
    assert_ne!(null, a);
    base.add_edge_unchecked(&a, &b, 9);
    let kids = base.children(&a);
    assert_eq!(kids.len(), 1);
    assert_eq!(*kids[0].to(), b);
    assert_eq!(*kids[0].weight(), 9);
    assert!(base.is_reachable(&b, &a));
    base.rm_edge(&a, &b, 9);
    assert!(!base.is_reachable(&b, &a));
}
