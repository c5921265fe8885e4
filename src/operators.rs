use vstd::prelude::*;
use vstd::string::*;

verus! {

/// The operators that combine two operands.
#[derive(Clone, Copy, Debug, PartialEq, Eq, Structural)]
pub enum BinaryOperation {
    Addition,
    Subtraction,
    Multiplication,
    Division,
    Power,
}

/// The operators that act on one operand.
#[derive(Clone, Copy, Debug, PartialEq, Eq, Structural)]
pub enum UnaryOperation {
    Minus,
    Exp,
    Log,
    SquareRoot,
}

/// The display symbol of a binary operator.
pub open spec fn binary_symbol(op: BinaryOperation) -> Seq<char> {
    match op {
        BinaryOperation::Addition => seq!['+'],
        BinaryOperation::Subtraction => seq!['-'],
        BinaryOperation::Multiplication => seq!['*'],
        BinaryOperation::Division => seq!['/'],
        BinaryOperation::Power => seq!['^'],
    }
}

/// The display symbol of a unary operator.
pub open spec fn unary_symbol(op: UnaryOperation) -> Seq<char> {
    match op {
        UnaryOperation::Minus => seq!['-'],
        UnaryOperation::Exp => seq!['e', '^'],
        UnaryOperation::Log => seq!['l', 'n'],
        UnaryOperation::SquareRoot => seq!['\u{221a}'],
    }
}

impl BinaryOperation {
    /// The operator's symbol, as written in infix notation.
    pub fn symbol(&self) -> (r: &'static str)
        ensures
            r@ == binary_symbol(*self),
    {
        match self {
            BinaryOperation::Addition => {
                proof { reveal_strlit("+"); }
                "+"
            },
            BinaryOperation::Subtraction => {
                proof { reveal_strlit("-"); }
                "-"
            },
            BinaryOperation::Multiplication => {
                proof { reveal_strlit("*"); }
                "*"
            },
            BinaryOperation::Division => {
                proof { reveal_strlit("/"); }
                "/"
            },
            BinaryOperation::Power => {
                proof { reveal_strlit("^"); }
                "^"
            },
        }
    }

    /// The operator's symbol as an owned string.
    pub fn to_string(&self) -> (r: String)
        ensures
            r@ == binary_symbol(*self),
    {
        String::from_str(self.symbol())
    }
}

impl UnaryOperation {
    /// The operator's symbol, as written in front of its operand.
    pub fn symbol(&self) -> (r: &'static str)
        ensures
            r@ == unary_symbol(*self),
    {
        match self {
            UnaryOperation::Minus => {
                proof { reveal_strlit("-"); }
                "-"
            },
            UnaryOperation::Exp => {
                proof { reveal_strlit("e^"); }
                "e^"
            },
            UnaryOperation::Log => {
                proof { reveal_strlit("ln"); }
                "ln"
            },
            UnaryOperation::SquareRoot => {
                proof { reveal_strlit("\u{221a}"); }
                "\u{221a}"
            },
        }
    }

    /// The operator's symbol as an owned string.
    pub fn to_string(&self) -> (r: String)
        ensures
            r@ == unary_symbol(*self),
    {
        String::from_str(self.symbol())
    }
}

} // verus!
