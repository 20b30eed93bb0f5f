use simple_electronics::graph::Connected;
use simple_electronics::nodes::NodeTy;
use simple_electronics::nodes::input_count;
use simple_electronics::nodes::output_count;

fn gate(kind: NodeTy, state: bool) -> Connected {
    Connected { kind, state, inputs: Vec::new(), outputs: Vec::new() }
}

fn out1(kind: NodeTy, inputs: Vec<bool>) -> bool {
    let r = gate(kind, false).calculate_state(&inputs);
    assert_eq!(r.len(), 1);
    r[0]
}

#[test]
fn on_node_is_high() {
    assert_eq!(out1(NodeTy::OnNode, vec![]), true);
}

#[test]
fn off_node_is_low() {
    assert_eq!(out1(NodeTy::OffNode, vec![]), false);
}

#[test]
fn wire_node_is_identity() {
    assert_eq!(out1(NodeTy::Wire, vec![false]), false);
    assert_eq!(out1(NodeTy::Wire, vec![true]), true);
}

#[test]
fn not_node_inverts() {
    assert_eq!(out1(NodeTy::NotNode, vec![false]), true);
    assert_eq!(out1(NodeTy::NotNode, vec![true]), false);
}

#[test]
fn and_node_truth_table() {
    assert_eq!(out1(NodeTy::AndNode, vec![false, false]), false);
    assert_eq!(out1(NodeTy::AndNode, vec![false, true]), false);
    assert_eq!(out1(NodeTy::AndNode, vec![true, false]), false);
    assert_eq!(out1(NodeTy::AndNode, vec![true, true]), true);
}

#[test]
fn or_node_truth_table() {
    assert_eq!(out1(NodeTy::OrNode, vec![false, false]), false);
    assert_eq!(out1(NodeTy::OrNode, vec![false, true]), true);
    assert_eq!(out1(NodeTy::OrNode, vec![true, false]), true);
    assert_eq!(out1(NodeTy::OrNode, vec![true, true]), true);
}

#[test]
fn nand_node_truth_table() {
    assert_eq!(out1(NodeTy::NandNode, vec![false, false]), true);
    assert_eq!(out1(NodeTy::NandNode, vec![false, true]), true);
    assert_eq!(out1(NodeTy::NandNode, vec![true, false]), true);
    assert_eq!(out1(NodeTy::NandNode, vec![true, true]), false);
}

#[test]
fn nor_node_truth_table() {
    assert_eq!(out1(NodeTy::NorNode, vec![false, false]), true);
    assert_eq!(out1(NodeTy::NorNode, vec![false, true]), false);
    assert_eq!(out1(NodeTy::NorNode, vec![true, false]), false);
    assert_eq!(out1(NodeTy::NorNode, vec![true, true]), false);
}

#[test]
fn xor_node_truth_table() {
    assert_eq!(out1(NodeTy::XorNode, vec![false, false]), false);
    assert_eq!(out1(NodeTy::XorNode, vec![false, true]), true);
    assert_eq!(out1(NodeTy::XorNode, vec![true, false]), true);
    assert_eq!(out1(NodeTy::XorNode, vec![true, true]), false);
}

#[test]
fn xnor_node_truth_table() {
    assert_eq!(out1(NodeTy::XnorNode, vec![false, false]), true);
    assert_eq!(out1(NodeTy::XnorNode, vec![false, true]), false);
    assert_eq!(out1(NodeTy::XnorNode, vec![true, false]), false);
    assert_eq!(out1(NodeTy::XnorNode, vec![true, true]), true);
}

#[test]
fn switch_node_reports_its_toggle_bit() {
    let low = gate(NodeTy::SwitchNode, false).calculate_state(&Vec::new());
    assert_eq!(low, vec![false]);
    let high = gate(NodeTy::SwitchNode, true).calculate_state(&Vec::new());
    assert_eq!(high, vec![true]);
}

#[test]
fn catalog_arities() {
    assert_eq!(input_count(NodeTy::OnNode), 0);
    assert_eq!(input_count(NodeTy::OffNode), 0);
    assert_eq!(input_count(NodeTy::SwitchNode), 0);
    assert_eq!(input_count(NodeTy::Wire), 1);
    assert_eq!(input_count(NodeTy::NotNode), 1);
    assert_eq!(input_count(NodeTy::AndNode), 2);
    assert_eq!(input_count(NodeTy::OrNode), 2);
    assert_eq!(input_count(NodeTy::NandNode), 2);
    assert_eq!(input_count(NodeTy::NorNode), 2);
    assert_eq!(input_count(NodeTy::XorNode), 2);
    assert_eq!(input_count(NodeTy::XnorNode), 2);
    for kind in [
        NodeTy::OnNode,
        NodeTy::OffNode,
        NodeTy::Wire,
        NodeTy::NotNode,
        NodeTy::AndNode,
        NodeTy::OrNode,
        NodeTy::NandNode,
        NodeTy::NorNode,
        NodeTy::XorNode,
        NodeTy::XnorNode,
        NodeTy::SwitchNode,
    ] {
        assert_eq!(output_count(kind), 1);
    }
}
