use exprs::{parse, Error, Expr, Op, Step, Token};

/// Runs the steps on a stack of doubles.
fn run(steps: &[Step]) -> f64 {
    let mut stack: Vec<f64> = Vec::new();
    for step in steps {
        match step {
            Step::Literal(text) => stack.push(text.parse::<f64>().unwrap()),
            Step::Value(bits) => stack.push(f64::from_bits(*bits)),
            Step::Apply(Op::NEG) => {
                let x = stack.pop().unwrap();
                stack.push(-x);
            }
            Step::Apply(op) => {
                let rhs = stack.pop().unwrap();
                let lhs = stack.pop().unwrap();
                stack.push(match op {
                    Op::SUM => lhs + rhs,
                    Op::SUB => lhs - rhs,
                    Op::MUL => lhs * rhs,
                    Op::DIV => lhs / rhs,
                    Op::EXP => lhs.powf(rhs),
                    _ => unreachable!(),
                });
            }
        }
    }
    assert_eq!(stack.len(), 1);
    stack[0]
}

fn value(e: &Expr) -> f64 {
    run(&e.eval().unwrap())
}

fn value_of(text: &str) -> f64 {
    value(&Expr::new(text).unwrap())
}

#[test]
fn test_ops() {
    let mut e = Expr::new("1  + 2").unwrap();
    assert_eq!(value(&e), 3.0);

    e = Expr::new(" 1 - 2").unwrap();
    assert_eq!(value(&e), -1.0);

    e = Expr::new("2^2^2").unwrap();
    assert_eq!(value(&e), 16.0);

    e = Expr::new("2^(1+1)^(1+1+1-1)").unwrap();
    assert_eq!(value(&e), 16.0);

    e = Expr::new("2^(3^1)").unwrap();
    assert_eq!(value(&e), 8.0);
}

#[test]
fn right_associativity() {
    assert_eq!(value_of("2^2^2"), 16.0);
    assert_eq!(value_of("2^(3^1)"), 8.0);
    assert_eq!(value_of("2^(1+1)^(1+1+1-1)"), 16.0);
    assert_eq!(value_of("2^3^2"), 512.0);
}

#[test]
fn left_to_right_grouping() {
    assert_eq!(value_of("1 - 2"), -1.0);
    assert_eq!(value_of("1 + 2"), 3.0);
    assert_eq!(value_of("1 - 2 - 3"), -4.0);
    assert_eq!(value_of("8 / 4 / 2"), 1.0);
    assert_eq!(value_of("8 / 4 * 2"), 4.0);
    assert_eq!(value_of("10 - 4 + 3"), 9.0);
}

#[test]
fn infix_arithmetic() {
    assert_eq!(value_of("2 + 3 * 4"), 14.0);
    assert_eq!(value_of("2 * 3 + 4"), 10.0);
    assert_eq!(value_of("(2 + 3) * 4"), 20.0);
    assert_eq!(value_of("2 * (3 + 4) - 6 / (1 + 2)"), 12.0);
    assert_eq!(value_of("1.5 + 2.25"), 3.75);
    assert_eq!(value_of("7. / 2"), 3.5);
    assert_eq!(value_of("1+2*3-4/8"), 6.5);
    assert_eq!(value_of("  1 +2*  3 -4 /8 "), 6.5);
}

#[test]
fn parentheses_and_precedence() {
    assert_eq!(value_of("((1 + 1) * (3 + 2)) / 2"), 5.0);
}

#[test]
fn unary_negation() {
    assert_eq!(value_of("(1 + -1)"), 0.0);
    assert_eq!(value_of("(1 + -1) * (2 + 3)"), 0.0);
    assert_eq!(value_of("-3"), -3.0);
    assert_eq!(value_of("2 - -3"), 5.0);
    assert_eq!(value_of("--3"), 3.0);
    assert_eq!(value_of("-2^2"), 4.0);
    assert_eq!(value_of("2 * -(1 + 2)"), -6.0);
}

#[test]
fn division_by_zero_is_no_error() {
    assert_eq!(value_of("1 / 0"), f64::INFINITY);
    assert_eq!(value_of("-1 / 0"), f64::NEG_INFINITY);
    assert!(value_of("0 / 0").is_nan());
}

#[test]
fn evaluating_twice_gives_the_same() {
    let mut e = Expr::new("x * (y - 2) ^ 2").unwrap();
    assert_eq!(e.eval(), e.eval());
    e.set_var("x", 3.0f64.to_bits());
    assert_eq!(e.eval(), e.eval());
    e.set_var("y", 5.0f64.to_bits());
    let first = e.eval();
    let second = e.eval();
    assert_eq!(first, second);
    assert_eq!(run(&first.unwrap()), 27.0);
    assert_eq!(run(&second.unwrap()), 27.0);
}

#[test]
fn variable_round_trip() {
    let mut e = Expr::new("x + 1").unwrap();
    assert_eq!(e.eval(), Err(Error::UndefinedVariable("x".to_string())));
    e.set_var("x", 4.0f64.to_bits());
    assert_eq!(value(&e), 5.0);
}

#[test]
fn a_variable_can_be_set_again() {
    let mut e = Expr::new("x * x - y").unwrap();
    e.set_var("x", 3.0f64.to_bits());
    e.set_var("y", 1.0f64.to_bits());
    assert_eq!(value(&e), 8.0);
    e.set_var("x", 0.5f64.to_bits());
    assert_eq!(value(&e), -0.75);
    e.set_var("unused", 9.0f64.to_bits());
    assert_eq!(value(&e), -0.75);
}

#[test]
fn the_first_unbound_variable_is_reported() {
    let mut e = Expr::new("a + b * c").unwrap();
    assert_eq!(e.eval(), Err(Error::UndefinedVariable("a".to_string())));
    e.set_var("a", 1.0f64.to_bits());
    assert_eq!(e.eval(), Err(Error::UndefinedVariable("b".to_string())));
    e.set_var("c", 1.0f64.to_bits());
    assert_eq!(e.eval(), Err(Error::UndefinedVariable("b".to_string())));
    e.set_var("b", 1.0f64.to_bits());
    assert_eq!(value(&e), 2.0);
}

#[test]
fn the_steps_are_in_post_order() {
    let e = Expr::new("(1 + 2) * -3").unwrap();
    assert_eq!(
        e.eval(),
        Ok(vec![
            Step::Literal("1".to_string()),
            Step::Literal("2".to_string()),
            Step::Apply(Op::SUM),
            Step::Literal("3".to_string()),
            Step::Apply(Op::NEG),
            Step::Apply(Op::MUL),
        ])
    );
}

#[test]
fn a_bound_variable_becomes_its_value() {
    let mut e = Expr::new("x").unwrap();
    e.set_var("x", 2.5f64.to_bits());
    assert_eq!(e.eval(), Ok(vec![Step::Value(2.5f64.to_bits())]));
}

#[test]
fn factorial_is_not_supported() {
    let e = Expr::new("3!").unwrap();
    assert_eq!(e.eval(), Err(Error::UnsupportedOperator(Token::Una(Op::FAC))));
    let e = Expr::new("1 + 3! * 2").unwrap();
    assert_eq!(e.eval(), Err(Error::UnsupportedOperator(Token::Una(Op::FAC))));
}

#[test]
fn the_operand_is_evaluated_before_the_operator() {
    let e = Expr::new("x!").unwrap();
    assert_eq!(e.eval(), Err(Error::UndefinedVariable("x".to_string())));
}

#[test]
fn a_tree_is_evaluated_without_variables() {
    let tree = parse("2 * (3 + 4)").unwrap();
    assert_eq!(run(&tree.eval().unwrap().unwrap()), 14.0);
    let tree = parse("2 * x").unwrap();
    assert_eq!(tree.eval(), Some(Err(Error::UndefinedVariable("x".to_string()))));
}
