use crate::operators::{BinaryOperation, UnaryOperation};
use vstd::prelude::*;

verus! {

/// An expression tree. Every node exclusively owns its children, so a tree
/// is always finite and acyclic, and an operator node always has its
/// operands.
///
/// A `Value` leaf holds a number as the bit pattern of an IEEE-754 binary64
/// value, which keeps the number exactly, NaN payloads and signed zeros
/// included.
#[derive(Debug)]
pub enum Node {
    Binary { operation: BinaryOperation, left: Box<Node>, right: Box<Node> },
    Unary { operation: UnaryOperation, operand: Box<Node> },
    Value(u64),
}

/// The number of `Value` leaves of a tree.
pub open spec fn leaf_count(n: Node) -> nat
    decreases n,
{
    match n {
        Node::Binary { left, right, .. } => leaf_count(*left) + leaf_count(*right),
        Node::Unary { operand, .. } => leaf_count(*operand),
        Node::Value(_) => 1,
    }
}

/// The leaves' values, from left to right.
pub open spec fn leaves_of(n: Node) -> Seq<u64>
    decreases n,
{
    match n {
        Node::Binary { left, right, .. } => leaves_of(*left) + leaves_of(*right),
        Node::Unary { operand, .. } => leaves_of(*operand),
        Node::Value(v) => seq![v],
    }
}

/// Evaluation of a tree under a given meaning of its leaves and operators:
/// each operator node applies its operator to the values of its children.
pub open spec fn eval_with<V>(
    n: Node,
    leaf: spec_fn(u64) -> V,
    bin: spec_fn(BinaryOperation, V, V) -> V,
    un: spec_fn(UnaryOperation, V) -> V,
) -> V
    decreases n,
{
    match n {
        Node::Binary { operation, left, right } => bin(
            operation,
            eval_with(*left, leaf, bin, un),
            eval_with(*right, leaf, bin, un),
        ),
        Node::Unary { operation, operand } => un(operation, eval_with(*operand, leaf, bin, un)),
        Node::Value(v) => leaf(v),
    }
}

proof fn lemma_leaves_len(n: Node)
    ensures
        leaves_of(n).len() == leaf_count(n),
    decreases n,
{
    match n {
        Node::Binary { left, right, .. } => {
            lemma_leaves_len(*left);
            lemma_leaves_len(*right);
        },
        Node::Unary { operand, .. } => lemma_leaves_len(*operand),
        Node::Value(_) => {},
    }
}

impl Node {
    /// A binary operator node over two subtrees.
    pub fn binary(operation: BinaryOperation, left: Node, right: Node) -> (r: Node)
        ensures
            r == (Node::Binary { operation, left: Box::new(left), right: Box::new(right) }),
    {
        Node::Binary { operation, left: Box::new(left), right: Box::new(right) }
    }

    /// A unary operator node over one subtree.
    pub fn unary(operation: UnaryOperation, operand: Node) -> (r: Node)
        ensures
            r == (Node::Unary { operation, operand: Box::new(operand) }),
    {
        Node::Unary { operation, operand: Box::new(operand) }
    }

    /// A leaf holding the number whose binary64 bit pattern is `bits`.
    pub fn value(bits: u64) -> (r: Node)
        ensures
            r == Node::Value(bits),
    {
        Node::Value(bits)
    }

    /// Appends the leaves' values, from left to right, to `out`.
    fn collect_leaves(&self, out: &mut Vec<u64>)
        ensures
            final(out)@ == old(out)@ + leaves_of(*self),
        decreases self,
    {
        match self {
            Node::Binary { left, right, .. } => {
                left.collect_leaves(out);
                right.collect_leaves(out);
                assert(final(out)@ =~= old(out)@ + leaves_of(*self));
            },
            Node::Unary { operand, .. } => operand.collect_leaves(out),
            Node::Value(v) => {
                out.push(*v);
                assert(final(out)@ =~= old(out)@ + leaves_of(*self));
            },
        }
    }

    /// The leaves' values, from left to right.
    pub fn leaves(&self) -> (r: Vec<u64>)
        ensures
            r@ == leaves_of(*self),
            r@.len() == leaf_count(*self),
    {
        proof {
            lemma_leaves_len(*self);
        }
        let mut out: Vec<u64> = Vec::new();
        self.collect_leaves(&mut out);
        assert(out@ =~= leaves_of(*self));
        out
    }
}

} // verus!
