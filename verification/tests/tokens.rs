use calculator::Calc;
use calculator::Error;
use calculator::Operator;
use calculator::Token;

#[test]
fn parses_single_digit() {
    let tokens = Calc::parse("7").unwrap();
    assert_eq!(tokens, vec![Token::Number(7)]);
}

#[test]
fn parses_multi_digit_number() {
    let tokens = Calc::parse("12").unwrap();
    assert_eq!(tokens, vec![Token::Number(12)]);
}

#[test]
fn digits_merge_across_blanks() {
    // Accumulation looks at the last token, not the previous character,
    // so a blank between digits does not end the literal.
    let tokens = Calc::parse("1 2").unwrap();
    assert_eq!(tokens, vec![Token::Number(12)]);
}

#[test]
fn leading_zeros_accumulate_plainly() {
    let tokens = Calc::parse("007").unwrap();
    assert_eq!(tokens, vec![Token::Number(7)]);
}

#[test]
fn parses_every_operator() {
    let tokens = Calc::parse("1+2-3*4/5").unwrap();
    assert_eq!(
        tokens,
        vec![
            Token::Number(1),
            Token::Op(Operator::Add),
            Token::Number(2),
            Token::Op(Operator::Sub),
            Token::Number(3),
            Token::Op(Operator::Mul),
            Token::Number(4),
            Token::Op(Operator::Div),
            Token::Number(5),
        ]
    );
}

#[test]
fn parses_brackets_and_newline() {
    let tokens = Calc::parse("(1)\n").unwrap();
    assert_eq!(
        tokens,
        vec![Token::Bracket('('), Token::Number(1), Token::Bracket(')')]
    );
}

#[test]
fn empty_input_yields_no_tokens() {
    let tokens = Calc::parse("").unwrap();
    assert_eq!(tokens, vec![]);
}

#[test]
fn rejects_unrecognized_character() {
    let err = Calc::parse("5 + a").unwrap_err();
    assert_eq!(err, Error::BadToken('a'));
}

#[test]
fn rejects_unclosed_bracket() {
    let err = Calc::parse("(5 + 5").unwrap_err();
    assert_eq!(err, Error::MismatchedParens);
}

#[test]
fn rejects_unopened_bracket() {
    let err = Calc::parse("5 + 5)").unwrap_err();
    assert_eq!(err, Error::MismatchedParens);
}

#[test]
fn bad_token_reported_before_bracket_check() {
    // The tokenizer fails at the first offending character, left to right.
    let err = Calc::parse("(a").unwrap_err();
    assert_eq!(err, Error::BadToken('a'));
}

#[test]
fn counts_single_value() {
    let tokens = Calc::parse("5 + 5").unwrap();
    let expr = Calc::expression(tokens);
    assert_eq!(Calc::value_count(&expr), Some(1));
}

#[test]
fn two_numbers_leave_two_values() {
    // Two number tokens with no combining operator reduce to two values,
    // so evaluation has no single answer.
    let expr = Calc::expression(vec![Token::Number(5), Token::Number(5)]);
    assert_eq!(expr, vec![Token::Number(5), Token::Number(5)]);
    assert_eq!(Calc::value_count(&expr), Some(2));
}

#[test]
fn operator_without_operands_underflows() {
    let expr = vec![Token::Number(5), Token::Op(Operator::Add)];
    assert_eq!(Calc::value_count(&expr), None);
}

#[test]
fn empty_postfix_leaves_no_value() {
    let expr: Vec<Token> = vec![];
    assert_eq!(Calc::value_count(&expr), Some(0));
}

#[test]
fn stray_closing_bracket_is_tolerated_by_conversion() {
    // Balance is validated by the tokenizer; conversion itself treats a
    // closing bracket with an empty stack as a no-op.
    let expr = Calc::expression(vec![Token::Bracket(')')]);
    assert_eq!(expr, vec![]);
}

#[test]
fn unknown_bracket_character_is_skipped_by_conversion() {
    let expr = Calc::expression(vec![Token::Bracket('x'), Token::Number(3)]);
    assert_eq!(expr, vec![Token::Number(3)]);
}

#[test]
fn brackets_never_reach_the_output() {
    let tokens = Calc::parse("((1 + 2)) * 3").unwrap();
    let expr = Calc::expression(tokens);
    assert_eq!(
        expr,
        vec![
            Token::Number(1),
            Token::Number(2),
            Token::Op(Operator::Add),
            Token::Number(3),
            Token::Op(Operator::Mul),
        ]
    );
}
