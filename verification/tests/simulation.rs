use simple_electronics::graph::Graph;
use simple_electronics::nodes::NodeTy;

/// Builds a node and returns (node id, input port ids, output port id).
fn add_node(g: &mut Graph, kind: NodeTy) -> (usize, Vec<usize>, usize) {
    let id = g.create_node(kind);
    let node = g.node(id).unwrap();
    (id, node.inputs.clone(), node.outputs[0])
}

/// Wires the producing port to the consuming port and returns the wire.
fn wire_up(g: &mut Graph, from: usize, to: usize) -> usize {
    let w = g.create_wire(from);
    g.attach(to, w);
    w
}

fn settled(g: &Graph, w: usize) -> bool {
    g.wire(w).unwrap().output_state
}

#[test]
fn sources_settle_after_one_tick() {
    let mut g = Graph::new();
    let (_, _, on_out) = add_node(&mut g, NodeTy::OnNode);
    let (_, _, off_out) = add_node(&mut g, NodeTy::OffNode);
    let w_on = g.create_wire(on_out);
    let w_off = g.create_wire(off_out);
    g.tick();
    assert_eq!(settled(&g, w_on), true);
    assert_eq!(settled(&g, w_off), false);
    assert_eq!(g.tick.0, 1);
}

#[test]
fn and_of_two_on_sources_is_high_after_two_ticks() {
    let mut g = Graph::new();
    let (_, _, a_out) = add_node(&mut g, NodeTy::OnNode);
    let (_, _, b_out) = add_node(&mut g, NodeTy::OnNode);
    let (_, and_in, and_out) = add_node(&mut g, NodeTy::AndNode);
    wire_up(&mut g, a_out, and_in[0]);
    wire_up(&mut g, b_out, and_in[1]);
    let out = g.create_wire(and_out);
    // first tick: the sources settle into their own output wires
    g.tick();
    assert_eq!(settled(&g, out), false);
    // second tick: the And node reads them
    g.tick();
    assert_eq!(settled(&g, out), true);
}

#[test]
fn and_with_one_off_source_stays_low() {
    let mut g = Graph::new();
    let (_, _, a_out) = add_node(&mut g, NodeTy::OnNode);
    let (_, _, b_out) = add_node(&mut g, NodeTy::OffNode);
    let (_, and_in, and_out) = add_node(&mut g, NodeTy::AndNode);
    wire_up(&mut g, a_out, and_in[0]);
    wire_up(&mut g, b_out, and_in[1]);
    let out = g.create_wire(and_out);
    g.tick();
    g.tick();
    g.tick();
    assert_eq!(settled(&g, out), false);
}

#[test]
fn inverter_ring_oscillates() {
    let mut g = Graph::new();
    let (_, not_in, not_out) = add_node(&mut g, NodeTy::NotNode);
    // the inverter's output wire feeds back into its own input
    let ring = g.create_wire(not_out);
    g.attach(not_in[0], ring);
    let mut expected = false;
    for _ in 0..8 {
        g.tick();
        expected = !expected;
        assert_eq!(settled(&g, ring), expected);
    }
}

#[test]
fn reset_then_tick_keeps_quiet_graph_low() {
    let mut g = Graph::new();
    // no constant or toggle source: an And and a pass-through gate only
    let (_, and_in, and_out) = add_node(&mut g, NodeTy::AndNode);
    let (_, pass_in, pass_out) = add_node(&mut g, NodeTy::Wire);
    let n1 = g.create_wire(and_in[0]);
    let n2 = g.create_wire(and_in[1]);
    let n3 = wire_up(&mut g, and_out, pass_in[0]);
    let n4 = g.create_wire(pass_out);
    g.tick();
    g.tick();
    g.reset();
    assert_eq!(g.tick.0, 0);
    g.tick();
    for w in [n1, n2, n3, n4] {
        let wire = g.wire(w).unwrap();
        assert_eq!(wire.output_state, false);
        assert_eq!(wire.input_state, false);
    }
}

#[test]
fn reset_zeroes_wires_but_keeps_switch_state() {
    let mut g = Graph::new();
    let (s, _, s_out) = add_node(&mut g, NodeTy::SwitchNode);
    let w = g.create_wire(s_out);
    g.toggle_switch(s);
    g.tick();
    assert_eq!(settled(&g, w), true);
    g.reset();
    assert_eq!(g.tick.0, 0);
    assert_eq!(settled(&g, w), false);
    assert_eq!(g.wire(w).unwrap().input_state, false);
    // the manual toggle is not wire state: it survives the reset
    assert_eq!(g.switch_state(s), true);
    g.tick();
    assert_eq!(settled(&g, w), true);
}

#[test]
fn fan_out_reaches_three_inputs_independently() {
    let mut g = Graph::new();
    let (_, _, src_out) = add_node(&mut g, NodeTy::OnNode);
    let mut taps: Vec<usize> = Vec::new();
    for _ in 0..3 {
        let (_, pass_in, _) = add_node(&mut g, NodeTy::Wire);
        taps.push(wire_up(&mut g, src_out, pass_in[0]));
    }
    g.tick();
    for w in taps {
        assert_eq!(settled(&g, w), true);
    }
}

#[test]
fn switch_toggle_shows_only_at_the_next_tick() {
    let mut g = Graph::new();
    let (s, _, s_out) = add_node(&mut g, NodeTy::SwitchNode);
    let w = g.create_wire(s_out);
    g.tick();
    assert_eq!(settled(&g, w), false);
    g.toggle_switch(s);
    // not instantaneous: the wire still shows the old value
    assert_eq!(settled(&g, w), false);
    assert_eq!(g.wire(w).unwrap().input_state, false);
    g.tick();
    assert_eq!(settled(&g, w), true);
}

#[test]
fn deleting_a_node_then_sweeping_then_ticking_is_safe() {
    let mut g = Graph::new();
    let (on, _, on_out) = add_node(&mut g, NodeTy::OnNode);
    let (_, pass_in, pass_out) = add_node(&mut g, NodeTy::Wire);
    let feed = wire_up(&mut g, on_out, pass_in[0]);
    let out = g.create_wire(pass_out);
    g.tick();
    g.tick();
    assert_eq!(settled(&g, out), true);
    // the feed wire keeps a live attachment on the consumer's side, so it
    // survives the producer's deletion and holds its last settled value
    g.delete_node(on);
    g.sweep_dangling();
    g.tick();
    assert!(g.wire(feed).is_some());
    assert_eq!(settled(&g, out), true);
}

#[test]
fn node_with_deleted_input_wire_is_skipped_and_holds() {
    let mut g = Graph::new();
    let (_, _, on_out) = add_node(&mut g, NodeTy::OnNode);
    let (_, pass_in, pass_out) = add_node(&mut g, NodeTy::Wire);
    let feed = wire_up(&mut g, on_out, pass_in[0]);
    let out = g.create_wire(pass_out);
    g.tick();
    g.tick();
    assert_eq!(settled(&g, out), true);
    // delete the pass-through node's only input wire: with a dangling
    // input it is skipped, and its output holds its last value
    g.delete_wire(feed);
    g.sweep_dangling();
    g.tick();
    g.tick();
    assert_eq!(settled(&g, out), true);
}

#[test]
fn acyclic_chain_stabilizes_and_further_ticks_are_no_ops() {
    let mut g = Graph::new();
    let (_, _, on_out) = add_node(&mut g, NodeTy::OnNode);
    let (_, not_in, not_out) = add_node(&mut g, NodeTy::NotNode);
    let (_, pass_in, pass_out) = add_node(&mut g, NodeTy::Wire);
    let w1 = wire_up(&mut g, on_out, not_in[0]);
    let w2 = wire_up(&mut g, not_out, pass_in[0]);
    let w3 = g.create_wire(pass_out);
    // depth three: three ticks settle the whole chain
    for _ in 0..3 {
        g.tick();
    }
    let snapshot = (settled(&g, w1), settled(&g, w2), settled(&g, w3));
    assert_eq!(snapshot, (true, false, false));
    for _ in 0..5 {
        g.tick();
        assert_eq!((settled(&g, w1), settled(&g, w2), settled(&g, w3)), snapshot);
    }
}

#[test]
fn changed_flag_tracks_pending_transitions() {
    let mut g = Graph::new();
    let (_, _, on_out) = add_node(&mut g, NodeTy::OnNode);
    let w = g.create_wire(on_out);
    g.tick();
    // the first compute raised the pending value from low to high
    assert_eq!(g.wire(w).unwrap().changed_input, true);
    g.tick();
    // the second staged the same value again
    assert_eq!(g.wire(w).unwrap().changed_input, false);
}

#[test]
fn input_consults_its_first_live_attachment() {
    let mut g = Graph::new();
    let (_, _, off_out) = add_node(&mut g, NodeTy::OffNode);
    let (_, _, on_out) = add_node(&mut g, NodeTy::OnNode);
    let (_, pass_in, pass_out) = add_node(&mut g, NodeTy::Wire);
    // two attachments on one input: the low feed first, the high one second
    let low_feed = wire_up(&mut g, off_out, pass_in[0]);
    let _high_feed = wire_up(&mut g, on_out, pass_in[0]);
    let out = g.create_wire(pass_out);
    g.tick();
    g.tick();
    assert_eq!(settled(&g, out), false);
    // once the first attachment is gone, the second becomes the first live
    g.delete_wire(low_feed);
    g.sweep_dangling();
    g.tick();
    assert_eq!(settled(&g, out), true);
}
