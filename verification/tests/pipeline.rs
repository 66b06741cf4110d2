use calculator::Calc;
use calculator::Operator;
use calculator::Token;

/// Stack evaluation of a postfix sequence over `f32`, as the driver around
/// the library performs it: numbers are pushed, an operator folds the two
/// values on top, and a result exists only when exactly one value remains.
fn eval_f32(tokens: Vec<Token>) -> Option<f32> {
    if Calc::value_count(&tokens).is_none() {
        panic!("malformed postfix expression: missing operand");
    }
    let mut stack: Vec<f32> = Vec::new();
    for token in tokens {
        match token {
            Token::Number(num) => stack.push(num as f32),
            Token::Op(op) => {
                let right = stack.pop().unwrap();
                let left = stack.pop().unwrap();
                stack.push(match op {
                    Operator::Add => left + right,
                    Operator::Sub => left - right,
                    Operator::Mul => left * right,
                    Operator::Div => left / right,
                });
            }
            Token::Bracket(_) => {}
        }
    }
    if stack.len() > 1 {
        None
    } else {
        stack.pop()
    }
}

#[test]
fn works_add() {
    let tokens = Calc::parse("5 + 5").unwrap();
    let expr = Calc::expression(tokens);
    let res = eval_f32(expr).unwrap();
    assert_eq!(res, 10.0);
}

#[test]
fn works_sub() {
    let tokens = Calc::parse("10 - 5").unwrap();
    let expr = Calc::expression(tokens);
    let res = eval_f32(expr).unwrap();
    assert_eq!(res, 5.0);
}

#[test]
fn works_mul() {
    let tokens = Calc::parse("5 * 5").unwrap();
    let expr = Calc::expression(tokens);
    let res = eval_f32(expr).unwrap();
    assert_eq!(res, 25.0);
}

#[test]
fn works_div() {
    let tokens = Calc::parse("10 / 5").unwrap();
    let expr = Calc::expression(tokens);
    let res = eval_f32(expr).unwrap();
    assert_eq!(res, 2.0);
}

#[test]
fn works_all() {
    let tokens = Calc::parse("(5 + 5) * (10 - 5) / 10").unwrap();
    let expr = Calc::expression(tokens);
    let res = eval_f32(expr).unwrap();
    assert_eq!(res, 5.0);
}

#[test]
fn precedence_multiplication_first() {
    let tokens = Calc::parse("2 + 3 * 4").unwrap();
    let expr = Calc::expression(tokens);
    assert_eq!(
        expr,
        vec![
            Token::Number(2),
            Token::Number(3),
            Token::Number(4),
            Token::Op(Operator::Mul),
            Token::Op(Operator::Add),
        ]
    );
    let res = eval_f32(expr).unwrap();
    assert_eq!(res, 14.0);
}

#[test]
fn equal_precedence_associates_left() {
    let tokens = Calc::parse("10 - 3 - 2").unwrap();
    let expr = Calc::expression(tokens);
    assert_eq!(
        expr,
        vec![
            Token::Number(10),
            Token::Number(3),
            Token::Op(Operator::Sub),
            Token::Number(2),
            Token::Op(Operator::Sub),
        ]
    );
    let res = eval_f32(expr).unwrap();
    assert_eq!(res, 5.0);
}

#[test]
fn grouping_reorders_output() {
    let tokens = Calc::parse("(5 + 5) * (10 - 5) / 10").unwrap();
    let expr = Calc::expression(tokens);
    assert_eq!(
        expr,
        vec![
            Token::Number(5),
            Token::Number(5),
            Token::Op(Operator::Add),
            Token::Number(10),
            Token::Number(5),
            Token::Op(Operator::Sub),
            Token::Op(Operator::Mul),
            Token::Number(10),
            Token::Op(Operator::Div),
        ]
    );
}
