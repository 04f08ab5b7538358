//! The positive-cost variant: zero-cost cycles are rejected, cycles with a
//! positive-cost edge are admitted.

use dagcore::poscostdag::PosCostDag;

type MyDag = PosCostDag<u32, u32>;

#[test]
/// Graph should not allow ZERO-COST cycles - should be an error when adding a cycle & structure should be
/// unmodified.
fn testposcostdag_test_cycles() {
    // A --4--> B --0--> C
    // Adding a zero-path from C -> A should *not* introduce a 0-cycle
    // Adding above + a zero-path from A->B *should* introduce a 0-cycle
    // Here A, B, C become 11, 12, 13
    let mut dag = MyDag::new();
    let a = dag.add_node(11);
    let b = dag.add_node(12);
    let c = dag.add_node(13);
    dag.add_edge(&a, &b, 4).expect("Failed to add edge");
    dag.add_edge(&b, &c, 0).expect("Failed to add edge");
    dag.add_edge(&c, &a, 0).expect("Failed to add edge");
    dag.add_edge(&a, &b, 0).err().expect("Failed to detect cycle");
}

#[test]
/// A rejected zero-cost cycle leaves the graph exactly as it was, and the
/// admitted positive-cost cycle stays committed.
fn rollback_is_exact() {
    let mut dag = MyDag::new();
    let a = dag.add_node(1);
    let b = dag.add_node(2);
    dag.add_edge(&a, &b, 0).expect("Failed to add edge");
    let before: Vec<u32> = dag.children(&b).iter().map(|d| *d.weight()).collect();
    // b -> a with weight 0 would close an all-zero-cost two-cycle.
    assert!(dag.add_edge(&b, &a, 0).is_err());
    let after: Vec<u32> = dag.children(&b).iter().map(|d| *d.weight()).collect();
    assert_eq!(before, after);
    // The same edge with positive weight is admitted: the cycle has cost.
    dag.add_edge(&b, &a, 1).expect("Failed to add edge");
    assert_eq!(dag.children(&b).len(), 1);
}

#[test]
/// Inserting an already-present edge reports success and changes nothing,
/// even when the graph holds a positive-cost cycle.
fn idempotent_on_cyclic_graph() {
    let mut dag = MyDag::new();
    let a = dag.add_node(1);
    let b = dag.add_node(2);
    dag.add_edge(&a, &b, 3).expect("Failed to add edge");
    dag.add_edge(&b, &a, 5).expect("Failed to add edge");
    dag.add_edge(&a, &b, 3).expect("Failed to add edge");
    assert_eq!(dag.children(&a).len(), 1);
    assert_eq!(dag.children(&b).len(), 1);
}

#[test]
/// Removing the positive-cost edge of a cycle re-arms the zero-cost check.
fn rm_edge_then_zero_cycle_rejected() {
    let mut dag = MyDag::new();
    let a = dag.add_node(1);
    let b = dag.add_node(2);
    let c = dag.add_node(3);
    dag.add_edge(&a, &b, 4).expect("Failed to add edge");
    dag.add_edge(&b, &c, 0).expect("Failed to add edge");
    dag.add_edge(&c, &a, 0).expect("Failed to add edge");
    dag.rm_edge(&a, &b, 4).expect("Failed to rm edge");
    // With the positive-cost edge gone, a -> b at zero cost would make the
    // whole cycle zero-cost.
    assert!(dag.add_edge(&a, &b, 0).is_err());
    // At positive cost it is fine.
    dag.add_edge(&a, &b, 2).expect("Failed to add edge");
}

#[test]
/// Topological iteration over an acyclic positive-cost graph lists each
/// reachable node once, dependencies of the forward order respected.
fn topo_on_acyclic_poscost() {
    let mut dag = MyDag::new();
    let a = dag.add_node(10);
    let b = dag.add_node(20);
    let c = dag.add_node(30);
    dag.add_edge(&a, &b, 0).expect("Failed to add edge");
    dag.add_edge(&b, &c, 1).expect("Failed to add edge");
    let fwd = dag.iter_topo(&a);
    let datas: Vec<u32> = fwd.iter().map(|h| *dag.node_data(h)).collect();
    assert_eq!(datas, vec![10, 20, 30]);
    let rev = dag.iter_topo_rev(&a);
    let rdatas: Vec<u32> = rev.iter().map(|h| *dag.node_data(h)).collect();
    assert_eq!(rdatas, vec![30, 20, 10]);
}
