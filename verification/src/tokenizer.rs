//! The tokenizer: turns a line of text into a sequence of tokens, checking
//! the character set and bracket balance as it goes.
//!
//! Digits accumulate into the last token of the output when that token is a
//! number, so `"12"` and `"1 2"` both become the single token `Number(12)`:
//! blanks do not end a literal, because accumulation looks at the last
//! *token*, not at the previous character. Surprising as it is, that
//! whitespace tolerance is deliberate, not an accident to be fixed.

use vstd::arithmetic::div_mod::lemma_small_mod;
use vstd::prelude::*;

use crate::token::Calc;
use crate::token::Error;
use crate::token::Operator;
use crate::token::Token;

verus! {

/// One more than the largest `u32`: the modulus of wrapping accumulation.
pub open spec fn u32_bound() -> int {
    0x1_0000_0000
}

/// Whether `c` is a decimal digit.
pub open spec fn is_digit(c: char) -> bool {
    48 <= c as u32 && c as u32 <= 57
}

/// The numeric value of a decimal digit character.
pub open spec fn digit_value(c: char) -> int {
    c as u32 - 48
}

/// `n` reduced into `u32` range, as wrapping arithmetic leaves it.
pub open spec fn wrap_u32(n: int) -> u32 {
    (n % u32_bound()) as u32
}

/// Appends the digit `c` to a token sequence: if the last token is a
/// number it is extended by one base-10 position (wrapping on overflow),
/// otherwise a fresh one-digit number is appended.
pub open spec fn push_digit(tokens: Seq<Token>, c: char) -> Seq<Token> {
    if tokens.len() > 0 {
        match tokens.last() {
            Token::Number(n) => tokens.update(
                tokens.len() - 1,
                Token::Number(wrap_u32(n * 10 + digit_value(c))),
            ),
            _ => tokens.push(Token::Number(digit_value(c) as u32)),
        }
    } else {
        tokens.push(Token::Number(digit_value(c) as u32))
    }
}

/// The tokenizer from position `i` on, carrying the tokens built so far
/// and the number of brackets currently open. One character is read per
/// step: a digit extends or starts a number, an operator or bracket
/// appends its token, a blank or newline is skipped, anything else is a
/// bad token. A closing bracket with nothing open, or input ending with
/// brackets still open, is a mismatch.
pub open spec fn lex(s: Seq<char>, i: int, tokens: Seq<Token>, depth: nat) -> Result<
    Seq<Token>,
    Error,
>
    decreases s.len() - i,
{
    if i < 0 || i >= s.len() {
        if depth > 0 {
            Err(Error::MismatchedParens)
        } else {
            Ok(tokens)
        }
    } else {
        let c = s[i];
        if is_digit(c) {
            lex(s, i + 1, push_digit(tokens, c), depth)
        } else if c == '+' {
            lex(s, i + 1, tokens.push(Token::Op(Operator::Add)), depth)
        } else if c == '-' {
            lex(s, i + 1, tokens.push(Token::Op(Operator::Sub)), depth)
        } else if c == '*' {
            lex(s, i + 1, tokens.push(Token::Op(Operator::Mul)), depth)
        } else if c == '/' {
            lex(s, i + 1, tokens.push(Token::Op(Operator::Div)), depth)
        } else if c == '(' {
            lex(s, i + 1, tokens.push(Token::Bracket('(')), depth + 1)
        } else if c == ')' {
            if depth == 0 {
                Err(Error::MismatchedParens)
            } else {
                lex(s, i + 1, tokens.push(Token::Bracket(')')), (depth - 1) as nat)
            }
        } else if c == ' ' || c == '\n' {
            lex(s, i + 1, tokens, depth)
        } else {
            Err(Error::BadToken(c))
        }
    }
}

/// What tokenizing a whole line yields.
pub open spec fn parse_spec(s: Seq<char>) -> Result<Seq<Token>, Error> {
    lex(s, 0, Seq::empty(), 0)
}

/// Whether every character of `s` is a decimal digit.
pub open spec fn all_digits(s: Seq<char>) -> bool {
    forall|i: int| 0 <= i < s.len() ==> is_digit(s[i])
}

/// The base-10 value of the digits of `s` from position `i` on, appended
/// one position at a time to an accumulator that starts at `v`.
pub open spec fn digits_value_from(v: int, s: Seq<char>, i: int) -> int
    decreases s.len() - i,
{
    if i < 0 || i >= s.len() {
        v
    } else {
        digits_value_from(v * 10 + digit_value(s[i]), s, i + 1)
    }
}

/// The value of `s` read as a base-10 numeral.
pub open spec fn digits_value(s: Seq<char>) -> int {
    digits_value_from(0, s, 0)
}

/// Appending digits to a non-negative accumulator never shrinks it.
proof fn lemma_digits_value_from_mono(v: int, s: Seq<char>, i: int)
    requires
        0 <= v,
        0 <= i <= s.len(),
        all_digits(s),
    ensures
        digits_value_from(v, s, i) >= v,
    decreases s.len() - i,
{
    if i < s.len() {
        assert(is_digit(s[i]));
        lemma_digits_value_from_mono(v * 10 + digit_value(s[i]), s, i + 1);
    }
}

/// From a single accumulating number token, an all-digit remainder of the
/// input extends that one token and nothing else, as long as the final
/// value stays within `u32` range.
proof fn lemma_lex_digits_from(s: Seq<char>, i: int, v: u32)
    requires
        0 <= i <= s.len(),
        all_digits(s),
        digits_value_from(v as int, s, i) < u32_bound(),
    ensures
        lex(s, i, seq![Token::Number(v)], 0) == Ok::<Seq<Token>, Error>(
            seq![Token::Number(digits_value_from(v as int, s, i) as u32)],
        ),
    decreases s.len() - i,
{
    if i < s.len() {
        let c = s[i];
        assert(is_digit(c));
        let v2: int = v * 10 + digit_value(c);
        lemma_digits_value_from_mono(v2, s, i + 1);
        lemma_small_mod(v2 as nat, 0x1_0000_0000 as nat);
        assert(wrap_u32(v2) == v2 as u32);
        assert(push_digit(seq![Token::Number(v)], c) =~= seq![Token::Number(v2 as u32)]);
        lemma_lex_digits_from(s, i + 1, v2 as u32);
    }
}

/// Digit concatenation is associative left-to-right: a nonempty string of
/// decimal digits whose base-10 value fits in `u32` tokenizes to exactly
/// one `Number` token holding that value.
pub proof fn lemma_parse_digits(s: Seq<char>)
    requires
        s.len() > 0,
        all_digits(s),
        digits_value(s) < u32_bound(),
    ensures
        parse_spec(s) == Ok::<Seq<Token>, Error>(seq![Token::Number(digits_value(s) as u32)]),
{
    let c = s[0];
    assert(is_digit(c));
    let d: int = digit_value(c);
    assert(push_digit(Seq::empty(), c) =~= seq![Token::Number(d as u32)]);
    assert(digits_value_from(0, s, 0) == digits_value_from(d, s, 1));
    lemma_lex_digits_from(s, 1, d as u32);
}

impl Calc {
    /// Tokenizes one line of text, left to right.
    pub fn parse(expr: &str) -> (r: Result<Vec<Token>, Error>)
        ensures
            (r matches Ok(tokens) ==> parse_spec(expr@) == Ok::<Seq<Token>, Error>(tokens@)),
            (r matches Err(e) ==> parse_spec(expr@) == Err::<Seq<Token>, Error>(e)),
    {
        let n = expr.unicode_len();
        let mut tokens: Vec<Token> = Vec::new();
        let mut depth: usize = 0;
        let mut i: usize = 0;
        while i < n
            invariant
                n == expr@.len(),
                i <= n,
                depth <= i,
                lex(expr@, i as int, tokens@, depth as nat) == parse_spec(expr@),
            decreases n - i,
        {
            let c = expr.get_char(i);
            let u = c as u32;
            if 48 <= u && u <= 57 {
                let d = u - 48;
                let mut merged_last = false;
                if tokens.len() > 0 {
                    let idx = tokens.len() - 1;
                    if let Token::Number(nv) = tokens[idx] {
                        let wide: u64 = (nv as u64) * 10 + (d as u64);
                        let merged: u32 = #[verifier::truncate] (wide as u32);
                        proof {
                            assert(wide as u32 == wide % 0x1_0000_0000) by (bit_vector);
                            assert(merged == wrap_u32(nv * 10 + digit_value(c)));
                        }
                        tokens[idx] = Token::Number(merged);
                        merged_last = true;
                    }
                }
                if !merged_last {
                    tokens.push(Token::Number(d));
                }
            } else if c == '+' {
                tokens.push(Token::Op(Operator::Add));
            } else if c == '-' {
                tokens.push(Token::Op(Operator::Sub));
            } else if c == '*' {
                tokens.push(Token::Op(Operator::Mul));
            } else if c == '/' {
                tokens.push(Token::Op(Operator::Div));
            } else if c == '(' {
                tokens.push(Token::Bracket('('));
                depth = depth + 1;
            } else if c == ')' {
                tokens.push(Token::Bracket(')'));
                if depth == 0 {
                    return Err(Error::MismatchedParens);
                }
                depth = depth - 1;
            } else if c == ' ' || c == '\n' {
            } else {
                return Err(Error::BadToken(c));
            }
            i = i + 1;
        }
        if depth > 0 {
            return Err(Error::MismatchedParens);
        }
        Ok(tokens)
    }
}

} // verus!
