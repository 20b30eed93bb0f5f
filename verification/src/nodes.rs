//! The closed catalog of gate kinds and their boolean semantics.
//!
//! Every gate is a pure, total function from an input-bit vector to an
//! output-bit vector.  The catalog is closed and each kind has a fixed
//! arity, so dispatch is a single exhaustive match rather than an open
//! extension point.  Only the manual toggle source (`SwitchNode`) carries
//! kind-local state: a boolean flipped by the embedding editor, never by
//! evaluation itself.

use vstd::prelude::*;

verus! {

/// The kind tag of a gate node.
///
/// | kind         | inputs | outputs | output value            |
/// |--------------|--------|---------|-------------------------|
/// | `OnNode`     | 0      | 1       | `true`                  |
/// | `OffNode`    | 0      | 1       | `false`                 |
/// | `Wire`       | 1      | 1       | `a`                     |
/// | `NotNode`    | 1      | 1       | `!a`                    |
/// | `AndNode`    | 2      | 1       | `a && b`                |
/// | `OrNode`     | 2      | 1       | `a \|\| b`              |
/// | `NandNode`   | 2      | 1       | `!(a && b)`             |
/// | `NorNode`    | 2      | 1       | `!(a \|\| b)`           |
/// | `XorNode`    | 2      | 1       | `a != b`                |
/// | `XnorNode`   | 2      | 1       | `a == b`                |
/// | `SwitchNode` | 0      | 1       | the current toggle bit  |
#[derive(Clone, Copy, Debug, PartialEq, Eq, Structural)]
pub enum NodeTy {
    Wire,
    OnNode,
    OffNode,
    NotNode,
    AndNode,
    OrNode,
    NandNode,
    NorNode,
    XorNode,
    XnorNode,
    SwitchNode,
}

/// How many input connections a node of this kind owns.
pub open spec fn input_arity(kind: NodeTy) -> nat {
    match kind {
        NodeTy::OnNode | NodeTy::OffNode | NodeTy::SwitchNode => 0,
        NodeTy::Wire | NodeTy::NotNode => 1,
        NodeTy::AndNode
        | NodeTy::OrNode
        | NodeTy::NandNode
        | NodeTy::NorNode
        | NodeTy::XorNode
        | NodeTy::XnorNode => 2,
    }
}

/// How many output connections a node of this kind owns.  Every kind in
/// the catalog drives exactly one output.
pub open spec fn output_arity(kind: NodeTy) -> nat {
    1
}

/// The boolean function of a gate kind: the output-bit vector produced
/// from an input-bit vector of length `input_arity(kind)`.  `state` is the
/// kind-local toggle bit; only `SwitchNode` reads it.
pub open spec fn eval(kind: NodeTy, state: bool, inputs: Seq<bool>) -> Seq<bool>
    recommends
        inputs.len() == input_arity(kind),
{
    match kind {
        NodeTy::Wire => seq![inputs[0]],
        NodeTy::OnNode => seq![true],
        NodeTy::OffNode => seq![false],
        NodeTy::NotNode => seq![!inputs[0]],
        NodeTy::AndNode => seq![inputs[0] && inputs[1]],
        NodeTy::OrNode => seq![inputs[0] || inputs[1]],
        NodeTy::NandNode => seq![!(inputs[0] && inputs[1])],
        NodeTy::NorNode => seq![!(inputs[0] || inputs[1])],
        NodeTy::XorNode => seq![inputs[0] != inputs[1]],
        NodeTy::XnorNode => seq![inputs[0] == inputs[1]],
        NodeTy::SwitchNode => seq![state],
    }
}

/// `input_arity`, as executable code.
pub fn input_count(kind: NodeTy) -> (n: usize)
    ensures
        n == input_arity(kind),
{
    match kind {
        NodeTy::OnNode | NodeTy::OffNode | NodeTy::SwitchNode => 0,
        NodeTy::Wire | NodeTy::NotNode => 1,
        _ => 2,
    }
}

/// `output_arity`, as executable code.
pub fn output_count(kind: NodeTy) -> (n: usize)
    ensures
        n == output_arity(kind),
{
    1
}

} // verus!
