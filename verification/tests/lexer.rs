use exprs::{tokenize, Error, Op, Token};

fn num(text: &str) -> Token {
    Token::Num(text.to_string())
}

fn var(name: &str) -> Token {
    Token::Var(name.to_string())
}

#[test]
fn tokens_of_a_sum() {
    assert_eq!(tokenize("1 + 2"), Ok(vec![num("1"), Token::Bin(Op::SUM), num("2")]));
}

#[test]
fn a_literal_keeps_all_its_characters() {
    assert_eq!(tokenize("12"), Ok(vec![num("12")]));
    assert_eq!(tokenize("3.14159"), Ok(vec![num("3.14159")]));
    assert_eq!(tokenize("7."), Ok(vec![num("7.")]));
    assert_eq!(tokenize("007"), Ok(vec![num("007")]));
}

#[test]
fn a_literal_with_two_points_is_an_error() {
    assert_eq!(tokenize("1.2.3"), Err(Error::Lex("1.2.3".to_string())));
    assert_eq!(tokenize("1 + 4..5 * 2"), Err(Error::Lex("4..5".to_string())));
    assert_eq!(tokenize("x - 9.9."), Err(Error::Lex("9.9.".to_string())));
}

#[test]
fn a_point_opens_no_literal() {
    assert_eq!(tokenize(".5"), Ok(vec![num("5")]));
    assert_eq!(tokenize(". . 1"), Ok(vec![num("1")]));
}

#[test]
fn names_are_runs_of_letters() {
    assert_eq!(tokenize("x"), Ok(vec![var("x")]));
    assert_eq!(tokenize("Speed"), Ok(vec![var("Speed")]));
    assert_eq!(tokenize("ab cd"), Ok(vec![var("ab"), var("cd")]));
    assert_eq!(tokenize("x1"), Ok(vec![var("x"), num("1")]));
    assert_eq!(tokenize("2y"), Ok(vec![num("2"), var("y")]));
}

#[test]
fn a_name_before_a_parenthesis_is_a_function() {
    assert_eq!(
        tokenize("sin(x)"),
        Ok(vec![Token::Fn("sin".to_string()), Token::LP, var("x"), Token::RP])
    );
    assert_eq!(tokenize("sin (x)"), Ok(vec![var("sin"), Token::LP, var("x"), Token::RP]));
}

#[test]
fn parentheses_and_operators() {
    assert_eq!(
        tokenize("(+*/^!)"),
        Ok(vec![
            Token::LP,
            Token::Bin(Op::SUM),
            Token::Bin(Op::MUL),
            Token::Bin(Op::DIV),
            Token::Bin(Op::EXP),
            Token::Una(Op::FAC),
            Token::RP,
        ])
    );
}

#[test]
fn minus_after_a_value_subtracts() {
    assert_eq!(tokenize("1 - 2"), Ok(vec![num("1"), Token::Bin(Op::SUB), num("2")]));
    assert_eq!(tokenize("x-2"), Ok(vec![var("x"), Token::Bin(Op::SUB), num("2")]));
    assert_eq!(
        tokenize("(1) - 2"),
        Ok(vec![Token::LP, num("1"), Token::RP, Token::Bin(Op::SUB), num("2")])
    );
}

#[test]
fn minus_elsewhere_negates() {
    assert_eq!(tokenize("-1"), Ok(vec![Token::Una(Op::NEG), num("1")]));
    assert_eq!(
        tokenize("1 + -1"),
        Ok(vec![num("1"), Token::Bin(Op::SUM), Token::Una(Op::NEG), num("1")])
    );
    assert_eq!(
        tokenize("1 - -1"),
        Ok(vec![num("1"), Token::Bin(Op::SUB), Token::Una(Op::NEG), num("1")])
    );
    assert_eq!(tokenize("(-1)"), Ok(vec![Token::LP, Token::Una(Op::NEG), num("1"), Token::RP]));
    assert_eq!(
        tokenize("--1"),
        Ok(vec![Token::Una(Op::NEG), Token::Una(Op::NEG), num("1")])
    );
    assert_eq!(
        tokenize("3! - 2"),
        Ok(vec![num("3"), Token::Una(Op::FAC), Token::Una(Op::NEG), num("2")])
    );
}

#[test]
fn other_characters_are_passed_over() {
    assert_eq!(tokenize(""), Ok(vec![]));
    assert_eq!(tokenize("  \t\n "), Ok(vec![]));
    assert_eq!(tokenize("1 $ + # 2 ;"), Ok(vec![num("1"), Token::Bin(Op::SUM), num("2")]));
    assert_eq!(tokenize("é1"), Ok(vec![num("1")]));
    assert_eq!(tokenize("1 , - 2"), Ok(vec![num("1"), Token::Bin(Op::SUB), num("2")]));
}

#[test]
fn spacing_does_not_change_the_tokens() {
    let plain = tokenize("(1+2)*x-3").unwrap();
    assert_eq!(tokenize(" ( 1 + 2 ) * x - 3 ").unwrap(), plain);
    assert_eq!(tokenize("\t(1 +2)*  x -3").unwrap(), plain);
}
