use relational::dataflow::{DataflowGraph, NodeId, NodeOp};

#[test]
fn topo_order_puts_inputs_first() {
    let mut g = DataflowGraph::new();
    let a = g.create_input("a");
    let b = g.create_persistent_input("b");
    let u = g.create_derived(Some("u"), vec![a, b], NodeOp::Union { left: a.0, right: b.0 });
    let d = g.create_derived(None, vec![u], NodeOp::Distinct { input: u.0 });
    let order = g.topo_order();
    assert_eq!(order, vec![a, b, u, d]);
    assert_eq!(g.get_id("u"), Some(u));
    assert_eq!(g.node_ids(), vec![NodeId(0), NodeId(1), NodeId(2), NodeId(3)]);
}

#[test]
fn topo_order_ignores_feedback_inputs() {
    let mut g = DataflowGraph::new();
    let base = g.create_input("base");
    let var = g.create_feedback("var");
    let rec = g.create_derived(None, vec![var, base], NodeOp::Union { left: var.0, right: base.0 });
    g.set_inputs(var, vec![base, rec]);
    let order = g.topo_order();
    // The variable waits for nothing, so the cycle through it is broken.
    assert_eq!(order, vec![base, var, rec]);
}
