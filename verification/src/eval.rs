//! The stack discipline of postfix evaluation. Evaluation itself pushes
//! numbers and pops two values per operator; whether that ever underflows,
//! and how many values are left at the end, depends only on the kinds of
//! the tokens, never on their values. This module checks that discipline:
//! a result exists exactly when one value remains, several remaining values
//! mean the expression has no single answer, and an operator with fewer
//! than two operands available is a malformed sequence that a caller must
//! treat as fatal rather than evaluate.

use vstd::prelude::*;

use crate::token::Calc;
use crate::token::Token;

verus! {

/// The evaluation stack's height from position `i` on, starting at
/// `depth`: a number pushes one value, an operator consumes two and pushes
/// one, a bracket is ignored. `None` means an operator underflowed.
pub open spec fn depth_from(tokens: Seq<Token>, i: int, depth: nat) -> Option<nat>
    decreases tokens.len() - i,
{
    if i < 0 || i >= tokens.len() {
        Some(depth)
    } else {
        match tokens[i] {
            Token::Number(_) => depth_from(tokens, i + 1, depth + 1),
            Token::Op(_) => if depth >= 2 {
                depth_from(tokens, i + 1, (depth - 1) as nat)
            } else {
                None
            },
            Token::Bracket(_) => depth_from(tokens, i + 1, depth),
        }
    }
}

/// How many values postfix evaluation of `tokens` would leave on its
/// stack, or `None` if an operator would underflow.
pub open spec fn remaining_values(tokens: Seq<Token>) -> Option<nat> {
    depth_from(tokens, 0, 0)
}

impl Calc {
    /// Counts the values that evaluating `tokens` as a postfix sequence
    /// would leave behind: evaluation has a result exactly when the count
    /// is one. `None` reports an operator with fewer than two operands, on
    /// which evaluation must not be attempted at all.
    pub fn value_count(tokens: &Vec<Token>) -> (r: Option<usize>)
        ensures
            (r matches Some(d) ==> remaining_values(tokens@) == Some(d as nat)),
            (r is None ==> remaining_values(tokens@) is None),
    {
        let n = tokens.len();
        let mut depth: usize = 0;
        let mut i: usize = 0;
        while i < n
            invariant
                n == tokens@.len(),
                i <= n,
                depth <= i,
                depth_from(tokens@, i as int, depth as nat) == remaining_values(tokens@),
            decreases n - i,
        {
            match tokens[i] {
                Token::Number(_) => {
                    depth = depth + 1;
                },
                Token::Op(_) => {
                    if depth < 2 {
                        return None;
                    }
                    depth = depth - 1;
                },
                Token::Bracket(_) => {},
            }
            i = i + 1;
        }
        Some(depth)
    }
}

} // verus!
