//! The token alphabet shared by every stage of the pipeline, and the
//! precedence tiers that drive infix-to-postfix conversion.

use vstd::prelude::*;

verus! {

/// One of the four binary arithmetic operators.
#[derive(Debug, PartialEq, Eq, Structural, Clone, Copy)]
pub enum Operator {
    Add,
    Sub,
    Mul,
    Div,
}

/// An atomic lexical unit of an expression: a non-negative integer
/// literal, an operator, or a grouping bracket.
#[derive(Debug, PartialEq, Eq, Structural, Clone, Copy)]
pub enum Token {
    Number(u32),
    Op(Operator),
    Bracket(char),
}

/// A tokenizer failure: an unrecognized character, or unbalanced brackets.
#[derive(Debug, PartialEq, Eq, Structural, Clone, Copy)]
pub enum Error {
    BadToken(char),
    MismatchedParens,
}

/// The calculator's three pipeline stages, as associated functions.
pub struct Calc {}

/// The precedence tier of an operator: `Mul` and `Div` bind before
/// `Add` and `Sub`; operators in one tier associate to the left.
pub open spec fn precedence(op: Operator) -> int {
    match op {
        Operator::Add => 1,
        Operator::Sub => 1,
        Operator::Mul => 2,
        Operator::Div => 2,
    }
}

impl Operator {
    /// The precedence tier, for the executable converter.
    pub fn tier(&self) -> (p: u32)
        ensures
            p == precedence(*self),
    {
        match self {
            Operator::Add => 1,
            Operator::Sub => 1,
            Operator::Mul => 2,
            Operator::Div => 2,
        }
    }
}

} // verus!
