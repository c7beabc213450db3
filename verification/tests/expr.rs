use exprs::{AstNode, Bindings, Error, Expr, Op, Step, SyntaxError, Token, AST};

#[test]
fn an_empty_table_binds_nothing() {
    let table = Bindings::new();
    assert_eq!(table.get("x"), None);
    assert_eq!(table.get(""), None);
}

#[test]
fn a_binding_is_found_again() {
    let mut table = Bindings::new();
    table.set("x", 1);
    table.set("y", 2);
    assert_eq!(table.get("x"), Some(1));
    assert_eq!(table.get("y"), Some(2));
    assert_eq!(table.get("z"), None);
    assert_eq!(table.get("X"), None);
}

#[test]
fn a_binding_is_overwritten() {
    let mut table = Bindings::new();
    table.set("x", 1);
    table.set("y", 2);
    table.set("x", 3);
    assert_eq!(table.get("x"), Some(3));
    assert_eq!(table.get("y"), Some(2));
    table.set("y", 4);
    table.set("x", 5);
    assert_eq!(table.get("x"), Some(5));
    assert_eq!(table.get("y"), Some(4));
}

#[test]
fn the_text_is_kept_as_written() {
    let e = Expr::new("  1 +  2 ").unwrap();
    assert_eq!(e.to_string(), "  1 +  2 ");
    let mut e = Expr::new("x*(y)").unwrap();
    e.set_var("x", 7);
    assert_eq!(e.to_string(), "x*(y)");
}

#[test]
fn a_text_that_does_not_parse_makes_no_expression() {
    assert!(matches!(Expr::new("(1 + 2"), Err(Error::Syntax(SyntaxError::UnbalancedParen))));
    assert!(matches!(Expr::new("1 +"), Err(Error::Syntax(SyntaxError::MissingOperand))));
    assert!(matches!(Expr::new(""), Err(Error::Syntax(SyntaxError::NotOneExpression))));
    match Expr::new("1..2") {
        Err(e) => assert_eq!(e, Error::Lex("1..2".to_string())),
        Ok(_) => panic!(),
    }
    match Expr::new("f(2)") {
        Err(e) => assert_eq!(e, Error::UnsupportedOperator(Token::Fn("f".to_string()))),
        Ok(_) => panic!(),
    }
}

#[test]
fn an_expression_stays_usable_after_a_failed_evaluation() {
    let mut e = Expr::new("-x").unwrap();
    assert_eq!(e.eval(), Err(Error::UndefinedVariable("x".to_string())));
    e.set_var("x", 42);
    assert_eq!(e.eval(), Ok(vec![Step::Value(42), Step::Apply(Op::NEG)]));
}

#[test]
fn a_tree_without_a_root_has_no_value() {
    let tree = AST { root: None };
    assert_eq!(tree.eval(), None);
}

#[test]
fn a_node_without_a_rule_is_not_supported() {
    let table = Bindings::new();
    let one = || Box::new(AstNode::new(Token::Num("1".to_string()), None, None));

    let paren = AstNode::new(Token::LP, None, None);
    assert_eq!(paren.eval(&table), Err(Error::UnsupportedOperator(Token::LP)));

    let call = AstNode::new(Token::Fn("f".to_string()), Some(one()), None);
    assert_eq!(
        call.eval(&table),
        Err(Error::UnsupportedOperator(Token::Fn("f".to_string())))
    );

    let lone = AstNode::new(Token::Bin(Op::SUM), Some(one()), None);
    assert_eq!(lone.eval(&table), Err(Error::UnsupportedOperator(Token::Bin(Op::SUM))));

    let odd = AstNode::new(Token::Bin(Op::NEG), Some(one()), Some(one()));
    assert_eq!(odd.eval(&table), Err(Error::UnsupportedOperator(Token::Bin(Op::NEG))));

    let odd = AstNode::new(Token::Una(Op::MUL), Some(one()), None);
    assert_eq!(odd.eval(&table), Err(Error::UnsupportedOperator(Token::Una(Op::MUL))));
}

#[test]
fn a_node_is_evaluated_with_a_table() {
    let mut table = Bindings::new();
    table.set("x", 10);
    let node = AstNode::new(
        Token::Bin(Op::DIV),
        Some(Box::new(AstNode::new(Token::Var("x".to_string()), None, None))),
        Some(Box::new(AstNode::new(Token::Num("4".to_string()), None, None))),
    );
    assert_eq!(
        node.eval(&table),
        Ok(vec![Step::Value(10), Step::Literal("4".to_string()), Step::Apply(Op::DIV)])
    );
    let tree = AST::new(node);
    assert_eq!(tree.eval(), Some(Err(Error::UndefinedVariable("x".to_string()))));
}

#[test]
fn a_cloned_error_is_equal() {
    let errors = vec![
        Error::Lex("1.2.3".to_string()),
        Error::Syntax(SyntaxError::MissingOperand),
        Error::UndefinedVariable("x".to_string()),
        Error::UnsupportedOperator(Token::Una(Op::FAC)),
    ];
    for e in &errors {
        assert_eq!(&e.clone(), e);
    }
    let step = Step::Literal("2".to_string());
    assert_eq!(step.clone(), step);
}
