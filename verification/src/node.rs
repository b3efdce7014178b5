//! Syntax nodes: what the grammar hands to the tree builder.

use vstd::prelude::*;
use crate::literal::all_digits;
use crate::tree::Op;

verus! {

/// One element of the flat sequence that the grammar produces for an
/// expression.  Operands and operators alternate in such a sequence; groups
/// hold a sequence of the same kind.
#[derive(Debug, PartialEq, Eq)]
pub enum SyntaxNode {
    /// An integer literal: the byte offset at which it starts in the line,
    /// and its text.
    Integer { offset: usize, text: Vec<u8> },
    /// A minus sign and the sequence that it negates.  The grammar puts
    /// one operand in it.
    UnaryMinus(Vec<SyntaxNode>),
    /// A parenthesised expression: the sequence between the parentheses.
    Group(Vec<SyntaxNode>),
    /// An infix operator.
    Operator(Op),
}

/// The mathematical model of a [`SyntaxNode`].
pub enum Node {
    Integer { offset: usize, text: Seq<u8> },
    UnaryMinus(Seq<Node>),
    Group(Seq<Node>),
    Operator(Op),
}

/// The model of one syntax node.
pub open spec fn node_view(node: SyntaxNode) -> Node
    decreases node,
{
    match node {
        SyntaxNode::Integer { offset, text } => Node::Integer { offset, text: text@ },
        SyntaxNode::UnaryMinus(inner) => Node::UnaryMinus(nodes_view(inner@)),
        SyntaxNode::Group(inner) => Node::Group(nodes_view(inner@)),
        SyntaxNode::Operator(op) => Node::Operator(op),
    }
}

/// The model of a sequence of syntax nodes, node by node.
pub open spec fn nodes_view(nodes: Seq<SyntaxNode>) -> Seq<Node>
    decreases nodes,
{
    Seq::new(
        nodes.len(),
        |i: int|
            if 0 <= i < nodes.len() {
                node_view(nodes[i])
            } else {
                Node::Group(Seq::empty())
            },
    )
}

/// Whether a node is an operand as the grammar produces it: a literal of
/// one or more digits, a negated operand, or a group around a well-formed
/// sequence.
pub open spec fn well_formed_operand(node: Node) -> bool
    decreases node, 0int,
{
    match node {
        Node::Integer { offset, text } => text.len() > 0 && all_digits(text),
        Node::UnaryMinus(inner) => inner.len() == 1 && well_formed(inner),
        Node::Group(inner) => well_formed(inner),
        Node::Operator(_) => false,
    }
}

/// Whether a sequence has the shape that the grammar guarantees: an odd
/// number of nodes, well-formed operands at the even positions and
/// operators at the odd ones.
pub open spec fn well_formed(nodes: Seq<Node>) -> bool
    decreases nodes, 1int,
{
    &&& nodes.len() % 2 == 1
    &&& forall|p: int|
        0 <= p < nodes.len() ==> if p % 2 == 0 {
            well_formed_operand(#[trigger] nodes[p])
        } else {
            nodes[p] is Operator
        }
}

/// A well-formed sequence stays well-formed when an operator and a
/// well-formed operand are added at its end.
pub proof fn lemma_well_formed_longer(before: Seq<Node>, op: Op, operand: Node)
    requires
        well_formed(before),
        well_formed_operand(operand),
    ensures
        well_formed(before.push(Node::Operator(op)).push(operand)),
{
    let longer = before.push(Node::Operator(op)).push(operand);
    assert forall|p: int| 0 <= p < longer.len() implies if p % 2 == 0 {
        well_formed_operand(#[trigger] longer[p])
    } else {
        longer[p] is Operator
    } by {
        if p < before.len() {
            assert(longer[p] == before[p]);
        }
    }
}

impl View for SyntaxNode {
    type V = Node;

    open spec fn view(&self) -> Node {
        node_view(*self)
    }
}

} // verus!
