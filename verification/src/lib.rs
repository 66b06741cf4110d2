//! A small arithmetic calculator: expressions over non-negative integers
//! with `+`, `-`, `*`, `/` and parentheses are tokenized, converted from
//! infix to postfix (Reverse Polish) order by the shunting-yard algorithm,
//! and handed on for stack evaluation.

pub mod brackets;
pub mod eval;
pub mod postfix;
pub mod token;
pub mod tokenizer;

pub use token::Calc;
pub use token::Error;
pub use token::Operator;
pub use token::Token;
