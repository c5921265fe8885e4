use crate::node::{eval_with, Node};
use crate::operators::{binary_symbol, unary_symbol, BinaryOperation, UnaryOperation};
use vstd::prelude::*;

verus! {

/// One element of a postfix token sequence.
#[derive(Clone, Copy, Debug, PartialEq, Eq, Structural)]
pub enum Token {
    Binary(BinaryOperation),
    Unary(UnaryOperation),
    /// A number, as the bit pattern of a binary64 value.
    Operand(u64),
}

/// The postfix form of a tree: operands before the operator that consumes
/// them, and a left subtree wholly before the right one.
pub open spec fn postfix_of(n: Node) -> Seq<Token>
    decreases n,
{
    match n {
        Node::Binary { operation, left, right } => postfix_of(*left) + postfix_of(*right) + seq![
            Token::Binary(operation),
        ],
        Node::Unary { operation, operand } => postfix_of(*operand) + seq![Token::Unary(operation)],
        Node::Value(v) => seq![Token::Operand(v)],
    }
}

/// One step of a postfix stack machine: an operand is pushed; an operator
/// pops as many values as it takes and pushes its result. `None` when the
/// stack holds too few values.
pub open spec fn step<V>(
    stack: Seq<V>,
    t: Token,
    leaf: spec_fn(u64) -> V,
    bin: spec_fn(BinaryOperation, V, V) -> V,
    un: spec_fn(UnaryOperation, V) -> V,
) -> Option<Seq<V>> {
    match t {
        Token::Operand(v) => Some(stack.push(leaf(v))),
        Token::Unary(op) => if stack.len() >= 1 {
            Some(stack.drop_last().push(un(op, stack.last())))
        } else {
            None
        },
        Token::Binary(op) => if stack.len() >= 2 {
            let rest = stack.drop_last().drop_last();
            Some(rest.push(bin(op, stack.drop_last().last(), stack.last())))
        } else {
            None
        },
    }
}

/// The stack after running a whole token sequence from `stack`, or `None`
/// when some operator finds too few values.
pub open spec fn run_postfix<V>(
    tokens: Seq<Token>,
    stack: Seq<V>,
    leaf: spec_fn(u64) -> V,
    bin: spec_fn(BinaryOperation, V, V) -> V,
    un: spec_fn(UnaryOperation, V) -> V,
) -> Option<Seq<V>>
    decreases tokens.len(),
{
    if tokens.len() == 0 {
        Some(stack)
    } else {
        match step(stack, tokens[0], leaf, bin, un) {
            Some(next) => run_postfix(tokens.skip(1), next, leaf, bin, un),
            None => None,
        }
    }
}

proof fn lemma_run_cons<V>(
    t: Token,
    rest: Seq<Token>,
    stack: Seq<V>,
    leaf: spec_fn(u64) -> V,
    bin: spec_fn(BinaryOperation, V, V) -> V,
    un: spec_fn(UnaryOperation, V) -> V,
)
    ensures
        run_postfix(seq![t] + rest, stack, leaf, bin, un) == match step(
            stack,
            t,
            leaf,
            bin,
            un,
        ) {
            Some(next) => run_postfix(rest, next, leaf, bin, un),
            None => None,
        },
{
    let s = seq![t] + rest;
    assert(s[0] == t);
    assert(s.skip(1) =~= rest);
}

/// Running the postfix form of a tree followed by any tokens is running
/// those tokens with the tree's value pushed.
proof fn lemma_run_postfix_of<V>(
    n: Node,
    rest: Seq<Token>,
    stack: Seq<V>,
    leaf: spec_fn(u64) -> V,
    bin: spec_fn(BinaryOperation, V, V) -> V,
    un: spec_fn(UnaryOperation, V) -> V,
)
    ensures
        run_postfix(postfix_of(n) + rest, stack, leaf, bin, un) == run_postfix(
            rest,
            stack.push(eval_with(n, leaf, bin, un)),
            leaf,
            bin,
            un,
        ),
    decreases n,
{
    match n {
        Node::Binary { operation, left, right } => {
            let tail = seq![Token::Binary(operation)] + rest;
            let l = eval_with(*left, leaf, bin, un);
            let r = eval_with(*right, leaf, bin, un);
            assert(postfix_of(n) + rest =~= postfix_of(*left) + (postfix_of(*right) + tail));
            lemma_run_postfix_of(*left, postfix_of(*right) + tail, stack, leaf, bin, un);
            lemma_run_postfix_of(*right, tail, stack.push(l), leaf, bin, un);
            lemma_run_cons(Token::Binary(operation), rest, stack.push(l).push(r), leaf, bin, un);
            assert(stack.push(l).push(r).drop_last().drop_last() =~= stack);
            assert(stack.push(l).push(r).drop_last() =~= stack.push(l));
        },
        Node::Unary { operation, operand } => {
            let tail = seq![Token::Unary(operation)] + rest;
            let v = eval_with(*operand, leaf, bin, un);
            assert(postfix_of(n) + rest =~= postfix_of(*operand) + tail);
            lemma_run_postfix_of(*operand, tail, stack, leaf, bin, un);
            lemma_run_cons(Token::Unary(operation), rest, stack.push(v), leaf, bin, un);
            assert(stack.push(v).drop_last() =~= stack);
        },
        Node::Value(v) => {
            lemma_run_cons(Token::Operand(v), rest, stack, leaf, bin, un);
        },
    }
}

/// Evaluating a tree directly agrees with running its postfix form on an
/// empty stack machine, under every meaning of leaves and operators: the run
/// never runs short of operands and leaves exactly the tree's value.
pub proof fn postfix_run_matches_evaluation<V>(
    n: Node,
    leaf: spec_fn(u64) -> V,
    bin: spec_fn(BinaryOperation, V, V) -> V,
    un: spec_fn(UnaryOperation, V) -> V,
)
    ensures
        run_postfix(postfix_of(n), Seq::<V>::empty(), leaf, bin, un) == Some(
            seq![eval_with(n, leaf, bin, un)],
        ),
{
    lemma_run_postfix_of(n, Seq::empty(), Seq::<V>::empty(), leaf, bin, un);
    assert(postfix_of(n) + Seq::<Token>::empty() =~= postfix_of(n));
    assert(Seq::<V>::empty().push(eval_with(n, leaf, bin, un)) =~= seq![eval_with(n, leaf, bin, un)]);
}

/// `s` is `t` or lies somewhere below it.
pub open spec fn is_subtree(s: Node, t: Node) -> bool
    decreases t,
{
    s == t || match t {
        Node::Binary { left, right, .. } => is_subtree(s, *left) || is_subtree(s, *right),
        Node::Unary { operand, .. } => is_subtree(s, *operand),
        Node::Value(_) => false,
    }
}

/// The postfix form of every subtree stands as one contiguous run inside
/// the postfix form of the whole tree.
proof fn lemma_subtree_segment(s: Node, t: Node) -> (i: int)
    requires
        is_subtree(s, t),
    ensures
        0 <= i,
        i + postfix_of(s).len() <= postfix_of(t).len(),
        postfix_of(t).subrange(i, i + postfix_of(s).len()) == postfix_of(s),
    decreases t,
{
    if s == t {
        assert(postfix_of(t).subrange(0, postfix_of(t).len() as int) =~= postfix_of(t));
        0
    } else {
        match t {
            Node::Binary { operation, left, right } => {
                let pl = postfix_of(*left);
                let pr = postfix_of(*right);
                if is_subtree(s, *left) {
                    let j = lemma_subtree_segment(s, *left);
                    assert(postfix_of(t).subrange(j, j + postfix_of(s).len()) =~= pl.subrange(
                        j,
                        j + postfix_of(s).len(),
                    ));
                    j
                } else {
                    let j = lemma_subtree_segment(s, *right);
                    let i = pl.len() + j;
                    assert(postfix_of(t).subrange(i, i + postfix_of(s).len()) =~= pr.subrange(
                        j,
                        j + postfix_of(s).len(),
                    ));
                    i
                }
            },
            Node::Unary { operation, operand } => {
                let j = lemma_subtree_segment(s, *operand);
                assert(postfix_of(t).subrange(j, j + postfix_of(s).len()) =~= postfix_of(
                    *operand,
                ).subrange(j, j + postfix_of(s).len()));
                j
            },
            Node::Value(_) => 0,
        }
    }
}

/// For every binary node anywhere in a tree, the postfix form of the tree
/// holds, at some offset, all tokens of its left operand, then all tokens of
/// its right operand, then the node's own operator, which is the last token
/// that node contributes.
pub proof fn binary_postfix_order(
    t: Node,
    operation: BinaryOperation,
    left: Node,
    right: Node,
) -> (i: int)
    requires
        is_subtree(Node::Binary { operation, left: Box::new(left), right: Box::new(right) }, t),
    ensures
        0 <= i,
        i + postfix_of(left).len() + postfix_of(right).len() < postfix_of(t).len(),
        postfix_of(t).subrange(i, i + postfix_of(left).len()) == postfix_of(left),
        postfix_of(t).subrange(
            i + postfix_of(left).len(),
            i + postfix_of(left).len() + postfix_of(right).len(),
        ) == postfix_of(right),
        postfix_of(t)[i + postfix_of(left).len() + postfix_of(right).len()] == Token::Binary(
            operation,
        ),
{
    let s = Node::Binary { operation, left: Box::new(left), right: Box::new(right) };
    let i = lemma_subtree_segment(s, t);
    let p = postfix_of(t);
    let a = postfix_of(left).len() as int;
    let b = postfix_of(right).len() as int;
    let seg = p.subrange(i, i + a + b + 1);
    assert(seg == postfix_of(s));
    assert(p.subrange(i, i + a) =~= seg.subrange(0, a));
    assert(seg.subrange(0, a) =~= postfix_of(left));
    assert(p.subrange(i + a, i + a + b) =~= seg.subrange(a, a + b));
    assert(seg.subrange(a, a + b) =~= postfix_of(right));
    assert(p[i + a + b] == seg[a + b]);
    i
}

/// A leaf's postfix form is the single operand token of its value, and its
/// value under any meaning is the meaning of that value.
pub proof fn leaf_identity<V>(
    v: u64,
    leaf: spec_fn(u64) -> V,
    bin: spec_fn(BinaryOperation, V, V) -> V,
    un: spec_fn(UnaryOperation, V) -> V,
)
    ensures
        postfix_of(Node::Value(v)) == seq![Token::Operand(v)],
        eval_with(Node::Value(v), leaf, bin, un) == leaf(v),
{
}

/// The postfix form is a function of the tree alone: two linearizations of
/// one tree give the same token sequence.
pub proof fn postfix_is_deterministic(t: Node, a: Seq<Token>, b: Seq<Token>)
    requires
        a == postfix_of(t),
        b == postfix_of(t),
    ensures
        a == b,
{
}

impl Token {
    /// The symbol of an operator token; `None` for an operand, whose text
    /// is that of its number.
    pub fn operator_symbol(&self) -> (r: Option<&'static str>)
        ensures
            r matches Some(t) ==> match *self {
                Token::Binary(op) => t@ == binary_symbol(op),
                Token::Unary(op) => t@ == unary_symbol(op),
                Token::Operand(_) => false,
            },
            r is None <==> *self is Operand,
    {
        match self {
            Token::Binary(op) => Some(op.symbol()),
            Token::Unary(op) => Some(op.symbol()),
            Token::Operand(_) => None,
        }
    }
}

impl Node {
    /// Appends the postfix form of the tree to `out`.
    fn append_postfix(&self, out: &mut Vec<Token>)
        ensures
            final(out)@ == old(out)@ + postfix_of(*self),
        decreases self,
    {
        match self {
            Node::Binary { operation, left, right } => {
                left.append_postfix(out);
                right.append_postfix(out);
                out.push(Token::Binary(*operation));
            },
            Node::Unary { operation, operand } => {
                operand.append_postfix(out);
                out.push(Token::Unary(*operation));
            },
            Node::Value(v) => out.push(Token::Operand(*v)),
        }
        assert(final(out)@ =~= old(out)@ + postfix_of(*self));
    }

    /// The tree in postfix (reverse Polish) order.
    pub fn to_postfix(&self) -> (r: Vec<Token>)
        ensures
            r@ == postfix_of(*self),
    {
        let mut out: Vec<Token> = Vec::new();
        self.append_postfix(&mut out);
        assert(out@ =~= postfix_of(*self));
        out
    }
}

} // verus!
