//! Infix-to-postfix conversion by the shunting-yard algorithm: numbers go
//! straight to the output, operators wait on a stack until an operator of
//! lower precedence (or a bracket) arrives, and brackets delimit regions of
//! the stack. Conversion is total: it never fails, and malformed operator
//! arrangements only surface later, during evaluation.

use vstd::prelude::*;

use crate::token::precedence;
use crate::token::Calc;
use crate::token::Token;

verus! {

/// Moves operators of precedence at least `p` from the top of the stack to
/// the output queue, stopping at the first non-operator or lower tier.
/// Popping before pushing an incoming operator of tier `p` is what makes
/// operators of one tier associate to the left.
pub open spec fn pops_while_ge(queue: Seq<Token>, stack: Seq<Token>, p: int) -> (Seq<Token>, Seq<
    Token,
>)
    decreases stack.len(),
{
    if stack.len() > 0 && (match stack.last() {
        Token::Op(o) => precedence(o) >= p,
        _ => false,
    }) {
        pops_while_ge(queue.push(stack.last()), stack.drop_last(), p)
    } else {
        (queue, stack)
    }
}

/// Moves stack elements to the output queue until an opening bracket is on
/// top, then discards that bracket. An empty stack is left alone: balance
/// was already validated by the tokenizer, so this case cannot arise on
/// tokenized input, and it is deliberately not an error here.
pub open spec fn pops_until_open(queue: Seq<Token>, stack: Seq<Token>) -> (Seq<Token>, Seq<Token>)
    decreases stack.len(),
{
    if stack.len() == 0 {
        (queue, stack)
    } else if stack.last() == Token::Bracket('(') {
        (queue, stack.drop_last())
    } else {
        pops_until_open(queue.push(stack.last()), stack.drop_last())
    }
}

/// Empties the stack onto the output queue, top first.
pub open spec fn drain(queue: Seq<Token>, stack: Seq<Token>) -> Seq<Token>
    decreases stack.len(),
{
    if stack.len() == 0 {
        queue
    } else {
        drain(queue.push(stack.last()), stack.drop_last())
    }
}

/// The shunting-yard algorithm from position `i` on, carrying the output
/// queue and the operator/bracket stack built so far.
pub open spec fn shunt(tokens: Seq<Token>, i: int, queue: Seq<Token>, stack: Seq<Token>) -> Seq<
    Token,
>
    decreases tokens.len() - i,
{
    if i < 0 || i >= tokens.len() {
        drain(queue, stack)
    } else {
        match tokens[i] {
            Token::Number(_) => shunt(tokens, i + 1, queue.push(tokens[i]), stack),
            Token::Op(o) => {
                let (q2, s2) = pops_while_ge(queue, stack, precedence(o));
                shunt(tokens, i + 1, q2, s2.push(tokens[i]))
            },
            Token::Bracket(b) => {
                if b == '(' {
                    shunt(tokens, i + 1, queue, stack.push(tokens[i]))
                } else if b == ')' {
                    let (q2, s2) = pops_until_open(queue, stack);
                    shunt(tokens, i + 1, q2, s2)
                } else {
                    shunt(tokens, i + 1, queue, stack)
                }
            },
        }
    }
}

/// What converting a whole token sequence to postfix order yields.
pub open spec fn to_postfix_spec(tokens: Seq<Token>) -> Seq<Token> {
    shunt(tokens, 0, Seq::empty(), Seq::empty())
}

/// Whether the top of the stack is an operator of precedence at least `p`.
fn top_is_op_ge(stack: &Vec<Token>, p: u32) -> (b: bool)
    ensures
        b == (stack@.len() > 0 && (match stack@.last() {
            Token::Op(o) => precedence(o) >= p,
            _ => false,
        })),
{
    if stack.len() == 0 {
        return false;
    }
    match stack[stack.len() - 1] {
        Token::Op(o) => o.tier() >= p,
        _ => false,
    }
}

/// Whether the stack still has elements above its nearest opening bracket.
fn top_not_open(stack: &Vec<Token>) -> (b: bool)
    ensures
        b == (stack@.len() > 0 && stack@.last() != Token::Bracket('(')),
{
    if stack.len() == 0 {
        return false;
    }
    stack[stack.len() - 1] != Token::Bracket('(')
}

impl Calc {
    /// Reorders a token sequence from infix to postfix (Reverse Polish)
    /// order, resolving operator precedence and parenthetical grouping.
    pub fn expression(tokens: Vec<Token>) -> (r: Vec<Token>)
        ensures
            r@ == to_postfix_spec(tokens@),
    {
        let n = tokens.len();
        let mut queue: Vec<Token> = Vec::new();
        let mut stack: Vec<Token> = Vec::new();
        let mut i: usize = 0;
        while i < n
            invariant
                n == tokens@.len(),
                i <= n,
                shunt(tokens@, i as int, queue@, stack@) == to_postfix_spec(tokens@),
            decreases n - i,
        {
            let t = tokens[i];
            match t {
                Token::Number(_) => queue.push(t),
                Token::Op(o) => {
                    let p = o.tier();
                    let ghost q0 = queue@;
                    let ghost s0 = stack@;
                    while top_is_op_ge(&stack, p)
                        invariant
                            p == precedence(o),
                            pops_while_ge(queue@, stack@, precedence(o)) == pops_while_ge(
                                q0,
                                s0,
                                precedence(o),
                            ),
                        decreases stack@.len(),
                    {
                        let popped = stack.pop().unwrap();
                        queue.push(popped);
                    }
                    stack.push(t);
                },
                Token::Bracket(b) => {
                    if b == '(' {
                        stack.push(t);
                    } else if b == ')' {
                        let ghost q0 = queue@;
                        let ghost s0 = stack@;
                        while top_not_open(&stack)
                            invariant
                                pops_until_open(queue@, stack@) == pops_until_open(q0, s0),
                            decreases stack@.len(),
                        {
                            let popped = stack.pop().unwrap();
                            queue.push(popped);
                        }
                        stack.pop();
                    }
                },
            }
            i = i + 1;
        }
        while stack.len() > 0
            invariant
                drain(queue@, stack@) == to_postfix_spec(tokens@),
            decreases stack@.len(),
        {
            let popped = stack.pop().unwrap();
            queue.push(popped);
        }
        queue
    }
}

} // verus!
