//! Why brackets never survive infix-to-postfix conversion. The tokenizer
//! only accepts input whose brackets are balanced; on such a token
//! sequence, every opening bracket the converter stacks is discarded again
//! by the matching closing bracket, so the postfix output consists of
//! numbers and operators alone.

use vstd::prelude::*;

use crate::postfix::drain;
use crate::postfix::pops_until_open;
use crate::postfix::pops_while_ge;
use crate::postfix::shunt;
use crate::postfix::to_postfix_spec;
use crate::token::precedence;
use crate::token::Error;
use crate::token::Operator;
use crate::token::Token;
use crate::tokenizer::is_digit;
use crate::tokenizer::lex;
use crate::tokenizer::parse_spec;
use crate::tokenizer::push_digit;

verus! {

/// How one token changes the count of open brackets.
pub open spec fn bracket_delta(t: Token) -> int {
    match t {
        Token::Bracket(b) => if b == '(' {
            1
        } else if b == ')' {
            -1
        } else {
            0
        },
        _ => 0,
    }
}

/// Opening minus closing brackets over a whole token sequence.
pub open spec fn net_brackets(tokens: Seq<Token>) -> int
    decreases tokens.len(),
{
    if tokens.len() == 0 {
        0
    } else {
        net_brackets(tokens.drop_last()) + bracket_delta(tokens.last())
    }
}

/// No prefix closes a bracket that was never opened.
pub open spec fn prefixes_nonneg(tokens: Seq<Token>) -> bool {
    forall|k: int| 0 <= k <= tokens.len() ==> #[trigger] net_brackets(tokens.take(k)) >= 0
}

/// Balanced brackets: as many closed as opened, and never a surplus of
/// closing ones.
pub open spec fn balanced(tokens: Seq<Token>) -> bool {
    net_brackets(tokens) == 0 && prefixes_nonneg(tokens)
}

/// A sequence that holds no bracket token at all.
pub open spec fn no_brackets(tokens: Seq<Token>) -> bool {
    forall|k: int| 0 <= k < tokens.len() ==> !((#[trigger] tokens[k]) is Bracket)
}

/// What the converter's stack may hold: operators and opening brackets.
pub open spec fn ops_and_opens(stack: Seq<Token>) -> bool {
    forall|k: int|
        0 <= k < stack.len() ==> ((#[trigger] stack[k]) is Op || stack[k] == Token::Bracket('('))
}

/// How many opening brackets the converter's stack holds.
pub open spec fn open_count(stack: Seq<Token>) -> int
    decreases stack.len(),
{
    if stack.len() == 0 {
        0
    } else {
        open_count(stack.drop_last()) + (if stack.last() == Token::Bracket('(') {
            1int
        } else {
            0int
        })
    }
}

proof fn lemma_net_push(tokens: Seq<Token>, t: Token)
    ensures
        net_brackets(tokens.push(t)) == net_brackets(tokens) + bracket_delta(t),
{
    assert(tokens.push(t).drop_last() =~= tokens);
}

proof fn lemma_open_count_push(stack: Seq<Token>, t: Token)
    ensures
        open_count(stack.push(t)) == open_count(stack) + (if t == Token::Bracket('(') {
            1int
        } else {
            0int
        }),
{
    assert(stack.push(t).drop_last() =~= stack);
}

proof fn lemma_open_count_nonneg(stack: Seq<Token>)
    ensures
        open_count(stack) >= 0,
    decreases stack.len(),
{
    if stack.len() > 0 {
        lemma_open_count_nonneg(stack.drop_last());
    }
}

/// Appending a token that keeps the running count non-negative preserves
/// prefix balance.
proof fn lemma_append_keeps_prefixes(tokens: Seq<Token>, t: Token)
    requires
        prefixes_nonneg(tokens),
        net_brackets(tokens) + bracket_delta(t) >= 0,
    ensures
        net_brackets(tokens.push(t)) == net_brackets(tokens) + bracket_delta(t),
        prefixes_nonneg(tokens.push(t)),
{
    lemma_net_push(tokens, t);
    assert forall|k: int| 0 <= k <= tokens.push(t).len() implies #[trigger] net_brackets(
        tokens.push(t).take(k),
    ) >= 0 by {
        if k <= tokens.len() {
            assert(tokens.push(t).take(k) =~= tokens.take(k));
        } else {
            assert(tokens.push(t).take(k) =~= tokens.push(t));
        }
    }
}

/// Absorbing a digit never touches brackets: the token it adds or extends
/// is a number.
proof fn lemma_push_digit_brackets(tokens: Seq<Token>, c: char)
    requires
        prefixes_nonneg(tokens),
    ensures
        net_brackets(push_digit(tokens, c)) == net_brackets(tokens),
        prefixes_nonneg(push_digit(tokens, c)),
{
    assert(net_brackets(tokens.take(tokens.len() as int)) >= 0);
    assert(tokens.take(tokens.len() as int) =~= tokens);
    if tokens.len() > 0 && tokens.last() is Number {
        let t2 = push_digit(tokens, c);
        assert(t2.drop_last() =~= tokens.drop_last());
        assert(t2.last() is Number);
        assert(net_brackets(t2) == net_brackets(tokens));
        assert forall|k: int| 0 <= k <= t2.len() implies #[trigger] net_brackets(t2.take(k))
            >= 0 by {
            if k < t2.len() {
                assert(t2.take(k) =~= tokens.take(k));
            } else {
                assert(t2.take(k) =~= t2);
            }
        }
    } else {
        assert(push_digit(tokens, c).drop_last() =~= tokens);
        assert(push_digit(tokens, c).last() is Number);
        assert forall|k: int| 0 <= k <= push_digit(tokens, c).len() implies #[trigger] net_brackets(
            push_digit(tokens, c).take(k),
        ) >= 0 by {
            if k <= tokens.len() {
                assert(push_digit(tokens, c).take(k) =~= tokens.take(k));
            } else {
                assert(push_digit(tokens, c).take(k) =~= push_digit(tokens, c));
            }
        }
    }
}

/// A token sequence the tokenizer accepts has balanced brackets.
proof fn lemma_lex_balanced(s: Seq<char>, i: int, tokens: Seq<Token>, depth: nat, res: Seq<Token>)
    requires
        lex(s, i, tokens, depth) == Ok::<Seq<Token>, Error>(res),
        net_brackets(tokens) == depth,
        prefixes_nonneg(tokens),
    ensures
        balanced(res),
    decreases s.len() - i,
{
    if i < 0 || i >= s.len() {
        assert(res == tokens);
    } else {
        let c = s[i];
        if is_digit(c) {
            lemma_push_digit_brackets(tokens, c);
            lemma_lex_balanced(s, i + 1, push_digit(tokens, c), depth, res);
        } else if c == '+' {
            lemma_append_keeps_prefixes(tokens, Token::Op(Operator::Add));
            lemma_lex_balanced(s, i + 1, tokens.push(Token::Op(Operator::Add)), depth, res);
        } else if c == '-' {
            lemma_append_keeps_prefixes(tokens, Token::Op(Operator::Sub));
            lemma_lex_balanced(s, i + 1, tokens.push(Token::Op(Operator::Sub)), depth, res);
        } else if c == '*' {
            lemma_append_keeps_prefixes(tokens, Token::Op(Operator::Mul));
            lemma_lex_balanced(s, i + 1, tokens.push(Token::Op(Operator::Mul)), depth, res);
        } else if c == '/' {
            lemma_append_keeps_prefixes(tokens, Token::Op(Operator::Div));
            lemma_lex_balanced(s, i + 1, tokens.push(Token::Op(Operator::Div)), depth, res);
        } else if c == '(' {
            lemma_append_keeps_prefixes(tokens, Token::Bracket('('));
            lemma_lex_balanced(s, i + 1, tokens.push(Token::Bracket('(')), depth + 1, res);
        } else if c == ')' {
            lemma_append_keeps_prefixes(tokens, Token::Bracket(')'));
            lemma_lex_balanced(s, i + 1, tokens.push(Token::Bracket(')')), (depth - 1) as nat, res);
        } else if c == ' ' || c == '\n' {
            lemma_lex_balanced(s, i + 1, tokens, depth, res);
        }
    }
}

/// Popping operators for an incoming operator moves no bracket: only
/// operators leave the stack, and its opening brackets stay put.
proof fn lemma_pops_while_ge(queue: Seq<Token>, stack: Seq<Token>, p: int)
    requires
        no_brackets(queue),
        ops_and_opens(stack),
    ensures
        no_brackets(pops_while_ge(queue, stack, p).0),
        ops_and_opens(pops_while_ge(queue, stack, p).1),
        open_count(pops_while_ge(queue, stack, p).1) == open_count(stack),
    decreases stack.len(),
{
    if stack.len() > 0 && (match stack.last() {
        Token::Op(o) => precedence(o) >= p,
        _ => false,
    }) {
        let q2 = queue.push(stack.last());
        let s2 = stack.drop_last();
        assert forall|k: int| 0 <= k < q2.len() implies !((#[trigger] q2[k]) is Bracket) by {
            if k < queue.len() {
                assert(q2[k] == queue[k]);
            }
        }
        lemma_pops_while_ge(q2, s2, p);
    }
}

/// Closing a bracket discards exactly one opening bracket, and moves only
/// the operators stacked above it to the output.
proof fn lemma_pops_until_open(queue: Seq<Token>, stack: Seq<Token>)
    requires
        no_brackets(queue),
        ops_and_opens(stack),
        open_count(stack) >= 1,
    ensures
        no_brackets(pops_until_open(queue, stack).0),
        ops_and_opens(pops_until_open(queue, stack).1),
        open_count(pops_until_open(queue, stack).1) == open_count(stack) - 1,
    decreases stack.len(),
{
    if stack.last() == Token::Bracket('(') {
    } else {
        assert(stack[stack.len() - 1] is Op);
        let q2 = queue.push(stack.last());
        let s2 = stack.drop_last();
        assert forall|k: int| 0 <= k < q2.len() implies !((#[trigger] q2[k]) is Bracket) by {
            if k < queue.len() {
                assert(q2[k] == queue[k]);
            }
        }
        lemma_pops_until_open(q2, s2);
    }
}

/// Emptying a stack that holds operators only adds no bracket to the
/// output.
proof fn lemma_drain_no_brackets(queue: Seq<Token>, stack: Seq<Token>)
    requires
        no_brackets(queue),
        ops_and_opens(stack),
        open_count(stack) == 0,
    ensures
        no_brackets(drain(queue, stack)),
    decreases stack.len(),
{
    if stack.len() > 0 {
        lemma_open_count_nonneg(stack.drop_last());
        assert(stack[stack.len() - 1] is Op);
        let q2 = queue.push(stack.last());
        let s2 = stack.drop_last();
        assert forall|k: int| 0 <= k < q2.len() implies !((#[trigger] q2[k]) is Bracket) by {
            if k < queue.len() {
                assert(q2[k] == queue[k]);
            }
        }
        lemma_drain_no_brackets(q2, s2);
    }
}

/// On balanced input, conversion keeps its invariants: the output holds no
/// bracket, the stack holds operators and opening brackets, and the stack's
/// opening brackets count the input's unclosed ones so far.
proof fn lemma_shunt_no_brackets(tokens: Seq<Token>, i: int, queue: Seq<Token>, stack: Seq<Token>)
    requires
        0 <= i <= tokens.len(),
        balanced(tokens),
        no_brackets(queue),
        ops_and_opens(stack),
        open_count(stack) == net_brackets(tokens.take(i)),
    ensures
        no_brackets(shunt(tokens, i, queue, stack)),
    decreases tokens.len() - i,
{
    if i >= tokens.len() {
        assert(tokens.take(i) =~= tokens);
        lemma_drain_no_brackets(queue, stack);
    } else {
        let t = tokens[i];
        assert(tokens.take(i + 1) =~= tokens.take(i).push(t));
        lemma_net_push(tokens.take(i), t);
        assert(net_brackets(tokens.take(i + 1)) >= 0);
        match t {
            Token::Number(_) => {
                let q2 = queue.push(t);
                assert forall|k: int| 0 <= k < q2.len() implies !((#[trigger] q2[k]) is Bracket) by {
                    if k < queue.len() {
                        assert(q2[k] == queue[k]);
                    }
                }
                lemma_shunt_no_brackets(tokens, i + 1, q2, stack);
            },
            Token::Op(o) => {
                lemma_pops_while_ge(queue, stack, precedence(o));
                let q2 = pops_while_ge(queue, stack, precedence(o)).0;
                let s2 = pops_while_ge(queue, stack, precedence(o)).1;
                lemma_open_count_push(s2, t);
                lemma_shunt_no_brackets(tokens, i + 1, q2, s2.push(t));
            },
            Token::Bracket(b) => {
                if b == '(' {
                    lemma_open_count_push(stack, t);
                    lemma_shunt_no_brackets(tokens, i + 1, queue, stack.push(t));
                } else if b == ')' {
                    lemma_pops_until_open(queue, stack);
                    let q2 = pops_until_open(queue, stack).0;
                    let s2 = pops_until_open(queue, stack).1;
                    lemma_shunt_no_brackets(tokens, i + 1, q2, s2);
                } else {
                    lemma_shunt_no_brackets(tokens, i + 1, queue, stack);
                }
            },
        }
    }
}

/// A token sequence the tokenizer accepts has balanced brackets: as many
/// closed as opened, and never a closing bracket without a match before it.
pub proof fn lemma_parse_balanced(s: Seq<char>, tokens: Seq<Token>)
    requires
        parse_spec(s) == Ok::<Seq<Token>, Error>(tokens),
    ensures
        balanced(tokens),
{
    assert forall|k: int| 0 <= k <= Seq::<Token>::empty().len() implies #[trigger] net_brackets(
        Seq::<Token>::empty().take(k),
    ) >= 0 by {
        assert(Seq::<Token>::empty().take(k) =~= Seq::<Token>::empty());
    }
    lemma_lex_balanced(s, 0, Seq::empty(), 0, tokens);
}

/// Brackets never survive to the postfix output: on input with balanced
/// brackets, conversion yields number and operator tokens alone.
pub proof fn lemma_conversion_drops_brackets(tokens: Seq<Token>)
    requires
        balanced(tokens),
    ensures
        no_brackets(to_postfix_spec(tokens)),
{
    assert(tokens.take(0) =~= Seq::<Token>::empty());
    lemma_shunt_no_brackets(tokens, 0, Seq::empty(), Seq::empty());
}

} // verus!
