use exprs::{parse, parse_tokens, AstNode, Error, Op, SyntaxError, Token, AST};

fn num(text: &str) -> Token {
    Token::Num(text.to_string())
}

fn leaf(tok: Token) -> AstNode {
    AstNode::new(tok, None, None)
}

fn bin(op: Op, lhs: AstNode, rhs: AstNode) -> AstNode {
    AstNode::new(Token::Bin(op), Some(Box::new(lhs)), Some(Box::new(rhs)))
}

fn una(op: Op, operand: AstNode) -> AstNode {
    AstNode::new(Token::Una(op), Some(Box::new(operand)), None)
}

fn same(a: &AstNode, b: &AstNode) -> bool {
    fn same_child(a: &Option<Box<AstNode>>, b: &Option<Box<AstNode>>) -> bool {
        match (a, b) {
            (Some(x), Some(y)) => same(x, y),
            (None, None) => true,
            _ => false,
        }
    }
    a.tok == b.tok && same_child(&a.lhs, &b.lhs) && same_child(&a.rhs, &b.rhs)
}

fn root(text: &str) -> AstNode {
    *parse(text).unwrap().root.unwrap()
}

fn syntax_error(text: &str) -> SyntaxError {
    match parse(text) {
        Err(Error::Syntax(e)) => e,
        other => panic!("{:?}", other),
    }
}

#[test]
fn a_node_holds_what_it_was_made_of() {
    let node = AstNode::new(Token::Bin(Op::SUM), Some(Box::new(leaf(num("1")))), None);
    assert_eq!(node.tok, Token::Bin(Op::SUM));
    assert!(same(&node.lhs.unwrap(), &leaf(num("1"))));
    assert!(node.rhs.is_none());
}

#[test]
fn a_tree_holds_its_root() {
    let tree = AST::new(leaf(num("4")));
    assert!(same(&tree.root.unwrap(), &leaf(num("4"))));
}

#[test]
fn a_cloned_node_is_the_same_tree() {
    let node = root("(1 + x) * -3");
    assert!(same(&node.clone(), &node));
}

#[test]
fn a_single_number() {
    assert!(same(&root("42"), &leaf(num("42"))));
    assert!(same(&root("((42))"), &leaf(num("42"))));
}

#[test]
fn subtraction_groups_to_the_left() {
    let expected = bin(Op::SUB, bin(Op::SUB, leaf(num("1")), leaf(num("2"))), leaf(num("3")));
    assert!(same(&root("1 - 2 - 3"), &expected));
}

#[test]
fn power_groups_to_the_right() {
    let expected = bin(Op::EXP, leaf(num("2")), bin(Op::EXP, leaf(num("2")), leaf(num("2"))));
    assert!(same(&root("2^2^2"), &expected));
}

#[test]
fn product_binds_before_sum() {
    let expected = bin(Op::SUM, leaf(num("1")), bin(Op::MUL, leaf(num("2")), leaf(num("3"))));
    assert!(same(&root("1 + 2 * 3"), &expected));
    let expected = bin(Op::SUM, bin(Op::MUL, leaf(num("1")), leaf(num("2"))), leaf(num("3")));
    assert!(same(&root("1 * 2 + 3"), &expected));
}

#[test]
fn parentheses_group_first() {
    let expected = bin(Op::MUL, bin(Op::SUM, leaf(num("1")), leaf(num("2"))), leaf(num("3")));
    assert!(same(&root("(1 + 2) * 3"), &expected));
}

#[test]
fn negation_binds_before_power() {
    let expected = bin(Op::EXP, una(Op::NEG, leaf(num("2"))), leaf(num("2")));
    assert!(same(&root("-2^2"), &expected));
    let expected = bin(Op::EXP, leaf(num("2")), una(Op::NEG, leaf(num("2"))));
    assert!(same(&root("2^-2"), &expected));
}

#[test]
fn factorial_takes_the_operand_before_it() {
    let expected = una(Op::FAC, leaf(num("3")));
    assert!(same(&root("3!"), &expected));
    let expected = bin(
        Op::SUM,
        una(Op::FAC, leaf(num("3"))),
        leaf(Token::Var("x".to_string())),
    );
    assert!(same(&root("3! + x"), &expected));
}

#[test]
fn operators_may_follow_their_operands() {
    let tokens = vec![num("1"), num("2"), Token::Bin(Op::SUM)];
    let tree = parse_tokens(&tokens).unwrap();
    assert!(same(&tree.root.unwrap(), &bin(Op::SUM, leaf(num("1")), leaf(num("2")))));
}

#[test]
fn malformed_input() {
    assert_eq!(syntax_error("(1 + 2"), SyntaxError::UnbalancedParen);
    assert_eq!(syntax_error("1 +"), SyntaxError::MissingOperand);
}

#[test]
fn unbalanced_parentheses() {
    assert_eq!(syntax_error("1 + 2)"), SyntaxError::UnbalancedParen);
    assert_eq!(syntax_error(")"), SyntaxError::UnbalancedParen);
    assert_eq!(syntax_error("("), SyntaxError::UnbalancedParen);
    assert_eq!(syntax_error("((1)"), SyntaxError::UnbalancedParen);
}

#[test]
fn operators_without_operands() {
    assert_eq!(syntax_error("+"), SyntaxError::MissingOperand);
    assert_eq!(syntax_error("-"), SyntaxError::MissingOperand);
    assert_eq!(syntax_error("* 2"), SyntaxError::MissingOperand);
    assert_eq!(syntax_error("(+)"), SyntaxError::MissingOperand);
    assert_eq!(syntax_error("+ )"), SyntaxError::MissingOperand);
}

#[test]
fn not_one_expression() {
    assert_eq!(syntax_error(""), SyntaxError::NotOneExpression);
    assert_eq!(syntax_error("   "), SyntaxError::NotOneExpression);
    assert_eq!(syntax_error("1 2"), SyntaxError::NotOneExpression);
    assert_eq!(syntax_error("()"), SyntaxError::NotOneExpression);
    assert_eq!(syntax_error("(1)(2)"), SyntaxError::NotOneExpression);
}

#[test]
fn a_lexical_error_comes_first() {
    match parse("(1.2.3") {
        Err(e) => assert_eq!(e, Error::Lex("1.2.3".to_string())),
        Ok(_) => panic!(),
    }
}

#[test]
fn a_function_has_no_rule() {
    match parse("sin(1)") {
        Err(e) => assert_eq!(e, Error::UnsupportedOperator(Token::Fn("sin".to_string()))),
        Ok(_) => panic!(),
    }
    match parse_tokens(&vec![num("1"), Token::Fn("f".to_string()), Token::RP]) {
        Err(e) => assert_eq!(e, Error::UnsupportedOperator(Token::Fn("f".to_string()))),
        Ok(_) => panic!(),
    }
}
