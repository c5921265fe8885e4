//! Arithmetic expression trees: a recursive tree model, its postfix
//! linearization and its fully parenthesized infix rendering.
//!
//! A leaf holds a number as the bit pattern of an IEEE-754 binary64 value;
//! numeric work on those values (evaluation, decimal formatting) is left to
//! the caller, and the laws proved here hold for every interpretation of them.
pub mod node;
pub mod operators;
pub mod postfix;
pub mod render;

pub use node::Node;
pub use operators::{BinaryOperation, UnaryOperation};
pub use postfix::Token;
