use simple_electronics::graph::ConnectionTy;
use simple_electronics::graph::EntityId;
use simple_electronics::graph::Graph;
use simple_electronics::nodes::NodeTy;
use simple_electronics::resources::CurrentModeText;
use simple_electronics::resources::GridMode;
use simple_electronics::resources::Tick;
use simple_electronics::resources::TickFrames;

#[test]
fn new_graph_is_empty() {
    let g = Graph::new();
    assert_eq!(g.nodes.len(), 0);
    assert_eq!(g.connections.len(), 0);
    assert_eq!(g.wires.len(), 0);
    assert_eq!(g.tick.0, 0);
}

#[test]
fn create_node_allocates_ports() {
    let mut g = Graph::new();
    let id = g.create_node(NodeTy::AndNode);
    assert_eq!(id, 0);
    let node = g.node(id).unwrap();
    assert!(matches!(node.kind, NodeTy::AndNode));
    assert_eq!(node.state, false);
    assert_eq!(node.inputs.len(), 2);
    assert_eq!(node.outputs.len(), 1);
    let in0 = g.connection(node.inputs[0]).unwrap();
    assert_eq!(in0.ty, ConnectionTy::Input);
    assert_eq!(in0.index, 0);
    assert_eq!(in0.owner, id);
    assert!(in0.wires.is_empty());
    let in1 = g.connection(node.inputs[1]).unwrap();
    assert_eq!(in1.ty, ConnectionTy::Input);
    assert_eq!(in1.index, 1);
    let out = g.connection(node.outputs[0]).unwrap();
    assert_eq!(out.ty, ConnectionTy::Output);
    assert_eq!(out.index, 0);
    assert_eq!(out.owner, id);
}

#[test]
fn create_wire_attaches_and_starts_low() {
    let mut g = Graph::new();
    let n = g.create_node(NodeTy::OnNode);
    let out = g.node(n).unwrap().outputs[0];
    let w = g.create_wire(out);
    let wire = g.wire(w).unwrap();
    assert_eq!(wire.input_state, false);
    assert_eq!(wire.output_state, false);
    assert_eq!(wire.changed_input, false);
    assert_eq!(g.connection(out).unwrap().wires, vec![w]);
}

#[test]
fn attach_and_detach_edit_the_list() {
    let mut g = Graph::new();
    let a = g.create_node(NodeTy::OnNode);
    let b = g.create_node(NodeTy::NotNode);
    let a_out = g.node(a).unwrap().outputs[0];
    let b_in = g.node(b).unwrap().inputs[0];
    let w = g.create_wire(a_out);
    g.attach(b_in, w);
    assert_eq!(g.connection(b_in).unwrap().wires, vec![w]);
    g.attach(b_in, w);
    assert_eq!(g.connection(b_in).unwrap().wires, vec![w, w]);
    g.detach(b_in, w);
    assert!(g.connection(b_in).unwrap().wires.is_empty());
    assert_eq!(g.connection(a_out).unwrap().wires, vec![w]);
}

#[test]
fn delete_wire_detaches_everywhere() {
    let mut g = Graph::new();
    let a = g.create_node(NodeTy::OnNode);
    let b = g.create_node(NodeTy::NotNode);
    let a_out = g.node(a).unwrap().outputs[0];
    let b_in = g.node(b).unwrap().inputs[0];
    let w = g.create_wire(a_out);
    g.attach(b_in, w);
    g.delete_entity(EntityId::Wire(w));
    assert!(g.wire(w).is_none());
    assert!(g.connection(a_out).unwrap().wires.is_empty());
    assert!(g.connection(b_in).unwrap().wires.is_empty());
}

#[test]
fn delete_node_cascades_to_ports_and_lone_wires() {
    let mut g = Graph::new();
    let a = g.create_node(NodeTy::OnNode);
    let a_out = g.node(a).unwrap().outputs[0];
    // a wire attached only to the node being deleted dies with it
    let lone = g.create_wire(a_out);
    g.delete_entity(EntityId::Node(a));
    assert!(g.node(a).is_none());
    assert!(g.connection(a_out).is_none());
    assert!(g.wire(lone).is_none());
}

#[test]
fn delete_node_spares_wires_attached_elsewhere() {
    let mut g = Graph::new();
    let a = g.create_node(NodeTy::OnNode);
    let b = g.create_node(NodeTy::NotNode);
    let a_out = g.node(a).unwrap().outputs[0];
    let b_in = g.node(b).unwrap().inputs[0];
    let shared = g.create_wire(a_out);
    g.attach(b_in, shared);
    g.delete_node(a);
    // the wire still has a live attachment on the consumer's side
    assert!(g.wire(shared).is_some());
    assert_eq!(g.connection(b_in).unwrap().wires, vec![shared]);
}

#[test]
fn sweep_prunes_dangling_references() {
    let mut g = Graph::new();
    let a = g.create_node(NodeTy::OnNode);
    let b = g.create_node(NodeTy::NotNode);
    let a_out = g.node(a).unwrap().outputs[0];
    let b_in = g.node(b).unwrap().inputs[0];
    let w = g.create_wire(a_out);
    g.attach(b_in, w);
    // delete the wire arena slot only through the node cascade: make it
    // lone on a helper node, so here force a dangling id instead by
    // deleting the wire and re-checking the consumer's list after sweep
    g.delete_wire(w);
    g.sweep_dangling();
    assert!(g.connection(b_in).unwrap().wires.is_empty());
    assert!(g.connection(a_out).unwrap().wires.is_empty());
}

#[test]
fn live_attachments_filters_dead_wires() {
    let mut g = Graph::new();
    let a = g.create_node(NodeTy::OnNode);
    let b = g.create_node(NodeTy::NotNode);
    let a_out = g.node(a).unwrap().outputs[0];
    let b_in = g.node(b).unwrap().inputs[0];
    let w1 = g.create_wire(a_out);
    g.attach(b_in, w1);
    let w2 = g.create_wire(a_out);
    g.attach(b_in, w2);
    // kill w1 but skip the sweep: the stale id stays in the lists
    g.wires[w1] = None;
    assert_eq!(g.connection(b_in).unwrap().wires, vec![w1, w2]);
    assert_eq!(g.live_attachments(b_in), vec![w2]);
}

#[test]
fn accessors_return_none_out_of_range() {
    let g = Graph::new();
    assert!(g.wire(3).is_none());
    assert!(g.connection(3).is_none());
    assert!(g.node(3).is_none());
}

#[test]
fn toggle_switch_flips_only_the_bit() {
    let mut g = Graph::new();
    let s = g.create_node(NodeTy::SwitchNode);
    let out = g.node(s).unwrap().outputs[0];
    let w = g.create_wire(out);
    assert_eq!(g.switch_state(s), false);
    g.toggle_switch(s);
    assert_eq!(g.switch_state(s), true);
    // no wire state changes until the next tick
    let wire = g.wire(w).unwrap();
    assert_eq!(wire.input_state, false);
    assert_eq!(wire.output_state, false);
    g.toggle_switch(s);
    assert_eq!(g.switch_state(s), false);
}

#[test]
fn tick_counter_increments() {
    let mut t = Tick::default();
    assert_eq!(t.0, 0);
    t.incr();
    t.incr();
    assert_eq!(t.0, 2);
}

#[test]
fn resource_defaults() {
    assert_eq!(TickFrames::default().0, 0);
    assert_eq!(GridMode::default(), GridMode::CrossHatches);
    assert_eq!(
        CurrentModeText::default().0,
        "Right click a node to add a wire or click on the menu to choose a node"
    );
}
