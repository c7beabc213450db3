use exprs::{Assoc, Error, Op, Token};

#[test]
fn operators_from_characters() {
    assert_eq!(Op::from_char('-'), Ok(Op::SUB));
    assert_eq!(Op::from_char('+'), Ok(Op::SUM));
    assert_eq!(Op::from_char('*'), Ok(Op::MUL));
    assert_eq!(Op::from_char('/'), Ok(Op::DIV));
    assert_eq!(Op::from_char('^'), Ok(Op::EXP));
    assert_eq!(Op::from_char('!'), Ok(Op::FAC));
}

#[test]
fn other_characters_are_no_operators() {
    assert_eq!(Op::from_char('x'), Err(Error::Lex("x".to_string())));
    assert_eq!(Op::from_char('('), Err(Error::Lex("(".to_string())));
    assert_eq!(Op::from_char(' '), Err(Error::Lex(" ".to_string())));
    assert_eq!(Op::from_char('é'), Err(Error::Lex("é".to_string())));
}

#[test]
fn associativity_table() {
    assert_eq!(Op::SUM.assoc(), Assoc::LEFT);
    assert_eq!(Op::SUB.assoc(), Assoc::LEFT);
    assert_eq!(Op::MUL.assoc(), Assoc::LEFT);
    assert_eq!(Op::DIV.assoc(), Assoc::LEFT);
    assert_eq!(Op::EXP.assoc(), Assoc::RIGHT);
    assert_eq!(Op::NEG.assoc(), Assoc::RIGHT);
    assert_eq!(Op::FAC.assoc(), Assoc::RIGHT);
}

#[test]
fn precedence_table() {
    assert_eq!(Op::NEG.prec(), 5);
    assert_eq!(Op::EXP.prec(), 4);
    assert_eq!(Op::FAC.prec(), 4);
    assert_eq!(Op::MUL.prec(), 3);
    assert_eq!(Op::DIV.prec(), 3);
    assert_eq!(Op::SUM.prec(), 2);
    assert_eq!(Op::SUB.prec(), 2);
}

#[test]
fn arity_of_operators() {
    for op in [Op::SUM, Op::SUB, Op::MUL, Op::DIV, Op::EXP] {
        assert!(op.is_binary());
    }
    assert!(!Op::NEG.is_binary());
    assert!(!Op::FAC.is_binary());
}

#[test]
fn token_kinds() {
    assert!(Token::Bin(Op::SUM).is_bin());
    assert!(!Token::Una(Op::NEG).is_bin());
    assert!(!Token::Num("1".to_string()).is_bin());
    assert!(!Token::LP.is_bin());

    assert!(Token::Bin(Op::SUM).is_op());
    assert!(Token::Una(Op::NEG).is_op());
    assert!(!Token::Var("x".to_string()).is_op());
    assert!(!Token::Fn("f".to_string()).is_op());
    assert!(!Token::LP.is_op());
    assert!(!Token::RP.is_op());
}

#[test]
fn operator_of_a_token() {
    assert_eq!(Token::Bin(Op::MUL).get_op(), Some(Op::MUL));
    assert_eq!(Token::Una(Op::FAC).get_op(), Some(Op::FAC));
    assert_eq!(Token::Num("2".to_string()).get_op(), None);
    assert_eq!(Token::Var("x".to_string()).get_op(), None);
    assert_eq!(Token::LP.get_op(), None);
    assert_eq!(Token::RP.get_op(), None);
}

#[test]
fn a_cloned_token_is_equal() {
    let tokens = vec![
        Token::Num("3.5".to_string()),
        Token::Bin(Op::DIV),
        Token::Una(Op::NEG),
        Token::Fn("sin".to_string()),
        Token::Var("x".to_string()),
        Token::LP,
        Token::RP,
    ];
    for t in &tokens {
        assert_eq!(&t.clone(), t);
    }
}
