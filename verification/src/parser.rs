//! The parser: from tokens to a syntax tree.
//!
//! The parser is a shunting yard that builds trees instead of postfix text. It
//! keeps two stacks: operators and left parentheses that wait for their
//! operands, and the trees built so far. The trees are later evaluated in post
//! order.
use vstd::prelude::*;
use crate::error::{Error, SpecError, SyntaxError};
use crate::lexer::{
    all_wf, lemma_token_views_push, lemma_tokens_wf, token_views, tokenize, tokens_of,
};
use crate::token::{Assoc, Op, SpecToken, Token};

verus! {

/// A node of the syntax tree: a token and up to two subtrees.
#[derive(Debug)]
pub struct AstNode {
    pub tok: Token,
    pub lhs: Option<Box<AstNode>>,
    pub rhs: Option<Box<AstNode>>,
}

/// The mathematical content of an [`AstNode`].
pub struct SpecNode {
    pub tok: SpecToken,
    pub lhs: Option<Box<SpecNode>>,
    pub rhs: Option<Box<SpecNode>>,
}

impl SpecNode {
    /// A node without subtrees.
    pub open spec fn leaf(tok: SpecToken) -> SpecNode {
        SpecNode { tok, lhs: None, rhs: None }
    }

    /// A node with a left subtree only.
    pub open spec fn unary(tok: SpecToken, operand: SpecNode) -> SpecNode {
        SpecNode { tok, lhs: Some(Box::new(operand)), rhs: None }
    }

    /// A node with both subtrees.
    pub open spec fn binary(tok: SpecToken, lhs: SpecNode, rhs: SpecNode) -> SpecNode {
        SpecNode { tok, lhs: Some(Box::new(lhs)), rhs: Some(Box::new(rhs)) }
    }

    /// What holds of every tree that the parser makes of a text: a number or
    /// a variable is a leaf, a binary operator has both subtrees, a unary
    /// operator has the left one only, no other token tags a node, and every
    /// token is well formed.
    pub open spec fn wf(self) -> bool
        decreases self,
    {
        &&& self.tok.wf()
        &&& match self.tok {
            SpecToken::Num(_) | SpecToken::Var(_) => self.lhs is None && self.rhs is None,
            SpecToken::Bin(_) => {
                &&& self.lhs is Some
                &&& self.rhs is Some
                &&& self.lhs->0.wf()
                &&& self.rhs->0.wf()
            },
            SpecToken::Una(_) => {
                &&& self.lhs is Some
                &&& self.rhs is None
                &&& self.lhs->0.wf()
            },
            _ => false,
        }
    }
}

impl View for AstNode {
    type V = SpecNode;

    open spec fn view(&self) -> SpecNode {
        self.content()
    }
}

impl Clone for AstNode {
    fn clone(&self) -> (node: Self)
        ensures
            node@ == self@,
    {
        self.duplicate()
    }
}

impl AstNode {
    /// A copy of the whole tree under the node.
    fn duplicate(&self) -> (node: AstNode)
        ensures
            node@ == self@,
        decreases self,
    {
        let lhs = match &self.lhs {
            Some(child) => Some(Box::new(child.duplicate())),
            None => None,
        };
        let rhs = match &self.rhs {
            Some(child) => Some(Box::new(child.duplicate())),
            None => None,
        };
        AstNode { tok: self.tok.clone(), lhs, rhs }
    }

    /// The tree of token contents that the node stands for.
    pub open spec fn content(&self) -> SpecNode
        decreases self,
    {
        SpecNode {
            tok: self.tok@,
            lhs: match self.lhs {
                Some(node) => Some(Box::new(node.content())),
                None => None,
            },
            rhs: match self.rhs {
                Some(node) => Some(Box::new(node.content())),
                None => None,
            },
        }
    }


    #[inline]
    pub fn new(tok: Token, lhs: Option<Box<AstNode>>, rhs: Option<Box<AstNode>>) -> (node: Self)
        ensures
            node == (AstNode { tok, lhs, rhs }),
    {
        AstNode { tok: tok, lhs: lhs, rhs: rhs }
    }
}

/// A syntax tree. The root is absent only in a tree that no parse has made.
#[derive(Debug)]
pub struct AST {
    pub root: Option<Box<AstNode>>,
}

impl View for AST {
    type V = Option<SpecNode>;

    open spec fn view(&self) -> Option<SpecNode> {
        match self.root {
            Some(node) => Some(node@),
            None => None,
        }
    }
}

impl AST {
    #[inline]
    pub fn new(root: AstNode) -> (tree: Self)
        ensures
            tree.root == Some(Box::new(root)),
    {
        AST { root: Some(Box::new(root)) }
    }
}

/// The two stacks of the parser, each with its top at the end.
pub struct Stacks {
    /// Operators and left parentheses that wait for their operands.
    pub ops: Seq<SpecToken>,
    /// The trees built so far.
    pub out: Seq<SpecNode>,
}

impl Stacks {
    /// The stacks before the first token.
    pub open spec fn empty() -> Stacks {
        Stacks { ops: Seq::empty(), out: Seq::empty() }
    }
}

/// The trees after the operator `t` has taken its operands from the top of
/// `out` and left its node there: two operands for a binary operator, the
/// lower one on the left, and one for a unary operator. `None` if there are
/// too few.
pub open spec fn fold(out: Seq<SpecNode>, t: SpecToken) -> Option<Seq<SpecNode>> {
    if t is Bin {
        if out.len() >= 2 {
            Some(
                out.take(out.len() - 2).push(
                    SpecNode::binary(t, out[out.len() - 2], out[out.len() - 1]),
                ),
            )
        } else {
            None
        }
    } else {
        if out.len() >= 1 {
            Some(out.drop_last().push(SpecNode::unary(t, out.last())))
        } else {
            None
        }
    }
}

/// Whether the operator `top`, waiting on the stack, takes its operands before
/// the operator `op` that has just been read is pushed: it does if it binds
/// tighter than `op`, or as tight where `op` groups to the left.
pub open spec fn binds_first(top: Op, op: Op) -> bool {
    ||| (op.spec_assoc() == Assoc::RIGHT && op.spec_prec() < top.spec_prec())
    ||| (op.spec_assoc() == Assoc::LEFT && op.spec_prec() <= top.spec_prec())
}

/// The stacks after every operator on top that binds before `op` has been
/// folded.
pub open spec fn reduce(st: Stacks, op: Op) -> Result<Stacks, SpecError>
    decreases st.ops.len(),
{
    if st.ops.len() > 0 && st.ops.last().op() is Some && binds_first(st.ops.last().op()->0, op) {
        match fold(st.out, st.ops.last()) {
            Some(out) => reduce(Stacks { ops: st.ops.drop_last(), out }, op),
            None => Err(SpecError::Syntax(SyntaxError::MissingOperand)),
        }
    } else {
        Ok(st)
    }
}

/// The stacks after a right parenthesis: the operators above the topmost left
/// parenthesis are folded, and that parenthesis is dropped.
pub open spec fn close(st: Stacks) -> Result<Stacks, SpecError>
    decreases st.ops.len(),
{
    if st.ops.len() == 0 {
        Err(SpecError::Syntax(SyntaxError::UnbalancedParen))
    } else if st.ops.last() is LP {
        Ok(Stacks { ops: st.ops.drop_last(), out: st.out })
    } else {
        match fold(st.out, st.ops.last()) {
            Some(out) => close(Stacks { ops: st.ops.drop_last(), out }),
            None => Err(SpecError::Syntax(SyntaxError::MissingOperand)),
        }
    }
}

/// The stacks after one token.
pub open spec fn step(st: Stacks, t: SpecToken) -> Result<Stacks, SpecError> {
    match t {
        SpecToken::LP => Ok(Stacks { ops: st.ops.push(t), out: st.out }),
        SpecToken::RP => close(st),
        SpecToken::Num(_) | SpecToken::Var(_) => Ok(
            Stacks { ops: st.ops, out: st.out.push(SpecNode::leaf(t)) },
        ),
        SpecToken::Bin(op) | SpecToken::Una(op) => match reduce(st, op) {
            Ok(reduced) => Ok(Stacks { ops: reduced.ops.push(t), out: reduced.out }),
            Err(e) => Err(e),
        },
        SpecToken::Fn(_) => Err(SpecError::UnsupportedOperator(t)),
    }
}

/// The stacks after a sequence of tokens, read from the left.
pub open spec fn run(st: Stacks, tokens: Seq<SpecToken>) -> Result<Stacks, SpecError>
    decreases tokens.len(),
{
    if tokens.len() == 0 {
        Ok(st)
    } else {
        match step(st, tokens[0]) {
            Ok(next) => run(next, tokens.drop_first()),
            Err(e) => Err(e),
        }
    }
}

/// The trees after the last token, when every operator left on the stack has
/// been folded. A left parenthesis among them was never closed.
pub open spec fn unwind(st: Stacks) -> Result<Seq<SpecNode>, SpecError>
    decreases st.ops.len(),
{
    if st.ops.len() == 0 {
        Ok(st.out)
    } else if st.ops.last() is LP {
        Err(SpecError::Syntax(SyntaxError::UnbalancedParen))
    } else {
        match fold(st.out, st.ops.last()) {
            Some(out) => unwind(Stacks { ops: st.ops.drop_last(), out }),
            None => Err(SpecError::Syntax(SyntaxError::MissingOperand)),
        }
    }
}

/// The tree that the final stacks hold: the only one left after unwinding.
pub open spec fn finish(st: Stacks) -> Result<SpecNode, SpecError> {
    match unwind(st) {
        Ok(out) => if out.len() == 1 {
            Ok(out[0])
        } else {
            Err(SpecError::Syntax(SyntaxError::NotOneExpression))
        },
        Err(e) => Err(e),
    }
}

/// The syntax tree of a sequence of tokens.
pub open spec fn tree_of(tokens: Seq<SpecToken>) -> Result<SpecNode, SpecError> {
    match run(Stacks::empty(), tokens) {
        Ok(st) => finish(st),
        Err(e) => Err(e),
    }
}

/// The syntax tree of a text.
pub open spec fn parse_of(text: Seq<char>) -> Result<SpecNode, SpecError> {
    match tokens_of(text) {
        Ok(tokens) => tree_of(tokens),
        Err(e) => Err(e),
    }
}

impl Stacks {
    /// What holds of the stacks while well-formed tokens are read: every tree
    /// is well formed, and the operator stack holds left parentheses and
    /// well-formed operators only.
    pub open spec fn wf(self) -> bool {
        &&& forall|k: int| 0 <= k < self.out.len() ==> (#[trigger] self.out[k]).wf()
        &&& forall|k: int|
            0 <= k < self.ops.len() ==> {
                let t = #[trigger] self.ops[k];
                t is LP || ((t is Bin || t is Una) && t.wf())
            }
    }
}

proof fn lemma_fold_wf(st: Stacks)
    requires
        st.wf(),
        st.ops.len() > 0,
        !(st.ops.last() is LP),
        fold(st.out, st.ops.last()) is Some,
    ensures
        (Stacks { ops: st.ops.drop_last(), out: fold(st.out, st.ops.last())->0 }).wf(),
{
    let t = st.ops.last();
    let out = fold(st.out, t)->0;
    assert(t.wf() && (t is Bin || t is Una));
    if t is Bin {
        assert(st.out[st.out.len() - 2].wf());
        assert(st.out[st.out.len() - 1].wf());
    } else {
        assert(st.out[st.out.len() - 1].wf());
    }
    assert forall|k: int| 0 <= k < out.len() implies (#[trigger] out[k]).wf() by {
        if k < out.len() - 1 {
            assert(out[k] == st.out[k]);
        }
    }
    assert forall|k: int| 0 <= k < st.ops.drop_last().len() implies {
        let u = #[trigger] st.ops.drop_last()[k];
        u is LP || ((u is Bin || u is Una) && u.wf())
    } by {
        assert(st.ops.drop_last()[k] == st.ops[k]);
    }
}

proof fn lemma_reduce_wf(st: Stacks, op: Op)
    requires
        st.wf(),
    ensures
        reduce(st, op) is Ok ==> reduce(st, op)->Ok_0.wf(),
    decreases st.ops.len(),
{
    if st.ops.len() > 0 && st.ops.last().op() is Some && binds_first(st.ops.last().op()->0, op) {
        if let Some(out) = fold(st.out, st.ops.last()) {
            lemma_fold_wf(st);
            lemma_reduce_wf(Stacks { ops: st.ops.drop_last(), out }, op);
        }
    }
}

proof fn lemma_close_wf(st: Stacks)
    requires
        st.wf(),
    ensures
        close(st) is Ok ==> close(st)->Ok_0.wf(),
    decreases st.ops.len(),
{
    if st.ops.len() == 0 {
    } else if st.ops.last() is LP {
        let popped = Stacks { ops: st.ops.drop_last(), out: st.out };
        assert forall|k: int| 0 <= k < popped.ops.len() implies {
            let u = #[trigger] popped.ops[k];
            u is LP || ((u is Bin || u is Una) && u.wf())
        } by {
            assert(popped.ops[k] == st.ops[k]);
        }
    } else {
        if let Some(out) = fold(st.out, st.ops.last()) {
            lemma_fold_wf(st);
            lemma_close_wf(Stacks { ops: st.ops.drop_last(), out });
        }
    }
}

proof fn lemma_unwind_wf(st: Stacks)
    requires
        st.wf(),
    ensures
        unwind(st) is Ok ==> forall|k: int|
            0 <= k < unwind(st)->Ok_0.len() ==> (#[trigger] unwind(st)->Ok_0[k]).wf(),
    decreases st.ops.len(),
{
    if st.ops.len() == 0 {
    } else if st.ops.last() is LP {
    } else {
        if let Some(out) = fold(st.out, st.ops.last()) {
            lemma_fold_wf(st);
            lemma_unwind_wf(Stacks { ops: st.ops.drop_last(), out });
        }
    }
}

proof fn lemma_step_wf(st: Stacks, t: SpecToken)
    requires
        st.wf(),
        t.wf(),
    ensures
        step(st, t) is Ok ==> step(st, t)->Ok_0.wf(),
{
    match t {
        SpecToken::LP => {},
        SpecToken::RP => {
            lemma_close_wf(st);
        },
        SpecToken::Num(_) | SpecToken::Var(_) => {
            assert(SpecNode::leaf(t).wf());
        },
        SpecToken::Bin(op) | SpecToken::Una(op) => {
            lemma_reduce_wf(st, op);
        },
        SpecToken::Fn(_) => {},
    }
}

proof fn lemma_run_wf(st: Stacks, tokens: Seq<SpecToken>)
    requires
        st.wf(),
        all_wf(tokens),
    ensures
        run(st, tokens) is Ok ==> run(st, tokens)->Ok_0.wf(),
    decreases tokens.len(),
{
    if tokens.len() > 0 {
        if let Ok(next) = step(st, tokens[0]) {
            lemma_step_wf(st, tokens[0]);
            assert forall|k: int| 0 <= k < tokens.drop_first().len() implies (
            #[trigger] tokens.drop_first()[k]).wf() by {
                assert(tokens.drop_first()[k] == tokens[k + 1]);
            }
            lemma_run_wf(next, tokens.drop_first());
        }
    }
}

/// The tree of well-formed tokens is well formed.
pub proof fn lemma_tree_wf(tokens: Seq<SpecToken>)
    requires
        all_wf(tokens),
    ensures
        tree_of(tokens) is Ok ==> tree_of(tokens)->Ok_0.wf(),
{
    lemma_run_wf(Stacks::empty(), tokens);
    if let Ok(st) = run(Stacks::empty(), tokens) {
        lemma_unwind_wf(st);
    }
}

/// The tree of a text is well formed.
pub proof fn lemma_parse_wf(text: Seq<char>)
    ensures
        parse_of(text) is Ok ==> parse_of(text)->Ok_0.wf(),
{
    lemma_tokens_wf(text);
    if let Ok(tokens) = tokens_of(text) {
        lemma_tree_wf(tokens);
    }
}

/// The mathematical content of a sequence of trees.
pub open spec fn node_views(nodes: Seq<AstNode>) -> Seq<SpecNode> {
    nodes.map_values(|n: AstNode| n@)
}

/// The mathematical content of the parser's two stacks.
pub open spec fn stacks(ops: Seq<Token>, out: Seq<AstNode>) -> Stacks {
    Stacks { ops: token_views(ops), out: node_views(out) }
}

proof fn lemma_token_views_pop(ts: Seq<Token>)
    requires
        ts.len() > 0,
    ensures
        token_views(ts).last() == ts.last()@,
        token_views(ts.drop_last()) == token_views(ts).drop_last(),
{
    assert(token_views(ts.drop_last()) =~= token_views(ts).drop_last());
}

proof fn lemma_node_views_push(nodes: Seq<AstNode>, n: AstNode)
    ensures
        node_views(nodes.push(n)) == node_views(nodes).push(n@),
{
    assert(node_views(nodes.push(n)) =~= node_views(nodes).push(n@));
}

/// Folds one operator: takes its operands from the top of `out` and pushes
/// the node that joins them.
fn pop_operator(out: &mut Vec<AstNode>, tok: Token) -> (r: Result<(), Error>)
    ensures
        match fold(node_views(old(out)@), tok@) {
            Some(trees) => r is Ok && node_views(final(out)@) == trees,
            None => r is Err && r->Err_0@ == SpecError::Syntax(SyntaxError::MissingOperand),
        },
{
    let ghost before = node_views(out@);
    if tok.is_bin() {
        // a binary operator needs two operands
        if out.len() < 2 {
            return Err(Error::Syntax(SyntaxError::MissingOperand));
        }
        let rhs = out.pop().unwrap();
        let lhs = out.pop().unwrap();
        let node = AstNode::new(tok, Some(Box::new(lhs)), Some(Box::new(rhs)));
        proof {
            lemma_node_views_push(out@, node);
            assert(node_views(out@) =~= before.take(before.len() - 2));
        }
        out.push(node);
        Ok(())
    } else {
        // a unary operator needs one operand
        if out.len() == 0 {
            return Err(Error::Syntax(SyntaxError::MissingOperand));
        }
        let operand = out.pop().unwrap();
        let node = AstNode::new(tok, Some(Box::new(operand)), None);
        proof {
            lemma_node_views_push(out@, node);
            assert(node_views(out@) =~= before.drop_last());
        }
        out.push(node);
        Ok(())
    }
}

/// Handles a right parenthesis: folds the operators down to the topmost left
/// parenthesis and drops it.
fn close_paren(ops: &mut Vec<Token>, out: &mut Vec<AstNode>) -> (r: Result<(), Error>)
    ensures
        match close(stacks(old(ops)@, old(out)@)) {
            Ok(st) => r is Ok && stacks(final(ops)@, final(out)@) == st,
            Err(e) => r is Err && r->Err_0@ == e,
        },
{
    loop
        invariant
            close(stacks(old(ops)@, old(out)@)) == close(stacks(ops@, out@)),
        decreases ops.len(),
    {
        proof {
            if ops.len() > 0 {
                lemma_token_views_pop(ops@);
            }
        }
        match ops.pop() {
            None => {
                return Err(Error::Syntax(SyntaxError::UnbalancedParen));
            },
            Some(Token::LP) => {
                return Ok(());
            },
            Some(top) => {
                match pop_operator(out, top) {
                    Ok(()) => {},
                    Err(e) => {
                        return Err(e);
                    },
                }
            },
        }
    }
}

/// Makes room for the operator `op`: folds every operator on top of the stack
/// that binds before it.
fn reduce_for(ops: &mut Vec<Token>, out: &mut Vec<AstNode>, op: Op) -> (r: Result<(), Error>)
    ensures
        match reduce(stacks(old(ops)@, old(out)@), op) {
            Ok(st) => r is Ok && stacks(final(ops)@, final(out)@) == st,
            Err(e) => r is Err && r->Err_0@ == e,
        },
{
    while ops.len() != 0
        invariant
            reduce(stacks(old(ops)@, old(out)@), op) == reduce(stacks(ops@, out@), op),
        ensures
            reduce(stacks(old(ops)@, old(out)@), op) == Ok::<Stacks, SpecError>(
                stacks(ops@, out@),
            ),
        decreases ops.len(),
    {
        proof {
            lemma_token_views_pop(ops@);
        }
        let binds = match ops[ops.len() - 1].get_op() {
            None => false,
            Some(top) => {
                // the precedence of the operator on the stack
                let o2_p = top.prec();
                // the precedence of the operator that was read
                let o1_p = op.prec();
                (o1_p < o2_p && op.assoc() == Assoc::RIGHT) || (o1_p <= o2_p && op.assoc()
                    == Assoc::LEFT)
            },
        };
        if !binds {
            break;
        }
        let top = ops.pop().unwrap();
        match pop_operator(out, top) {
            Ok(()) => {},
            Err(e) => {
                return Err(e);
            },
        }
    }
    Ok(())
}

/// Folds what is left on the operator stack after the last token.
fn unwind_all(ops: &mut Vec<Token>, out: &mut Vec<AstNode>) -> (r: Result<(), Error>)
    ensures
        match unwind(stacks(old(ops)@, old(out)@)) {
            Ok(trees) => r is Ok && node_views(final(out)@) == trees,
            Err(e) => r is Err && r->Err_0@ == e,
        },
{
    while ops.len() != 0
        invariant
            unwind(stacks(old(ops)@, old(out)@)) == unwind(stacks(ops@, out@)),
        decreases ops.len(),
    {
        proof {
            lemma_token_views_pop(ops@);
        }
        let top = ops.pop().unwrap();
        if matches!(top, Token::LP) {
            // a parenthesis that was never closed
            return Err(Error::Syntax(SyntaxError::UnbalancedParen));
        }
        match pop_operator(out, top) {
            Ok(()) => {},
            Err(e) => {
                return Err(e);
            },
        }
    }
    Ok(())
}

/// Parses a sequence of tokens into a syntax tree.
///
/// Numbers and variables become leaves. An operator waits on a stack until
/// an operator that binds no tighter, a right parenthesis or the end of the
/// tokens makes it take its operands. The result is the error of the first
/// token that cannot be handled, or else of the final unwinding: an unbalanced
/// parenthesis, an operator without its operands, a function name, or tokens
/// that leave no tree or more than one.
pub fn parse_tokens(tokens: &Vec<Token>) -> (r: Result<AST, Error>)
    ensures
        match tree_of(token_views(tokens@)) {
            Ok(tree) => r is Ok && r->Ok_0@ == Some(tree),
            Err(e) => r is Err && r->Err_0@ == e,
        },
        all_wf(token_views(tokens@)) && r is Ok ==> r->Ok_0@->0.wf(),
{
    proof {
        if all_wf(token_views(tokens@)) {
            lemma_tree_wf(token_views(tokens@));
        }
    }
    let mut operator_stack: Vec<Token> = Vec::new();
    let mut output: Vec<AstNode> = Vec::new();
    let ghost all = token_views(tokens@);
    assert(token_views(operator_stack@) =~= Seq::empty());
    assert(node_views(output@) =~= Seq::empty());
    assert(all.skip(0) =~= all);
    let mut i: usize = 0;
    while i < tokens.len()
        invariant
            i <= tokens.len(),
            all == token_views(tokens@),
            run(Stacks::empty(), all) == run(stacks(operator_stack@, output@), all.skip(i as int)),
        decreases tokens.len() - i,
    {
        let token = &tokens[i];
        proof {
            assert(all.skip(i as int)[0] == token@);
            assert(all.skip(i as int).drop_first() =~= all.skip(i as int + 1));
        }
        match token {
            Token::LP => {
                proof {
                    lemma_token_views_push(operator_stack@, Token::LP);
                }
                operator_stack.push(Token::LP);
            },
            Token::RP => {
                match close_paren(&mut operator_stack, &mut output) {
                    Ok(()) => {},
                    Err(e) => {
                        return Err(e);
                    },
                }
            },
            Token::Num(_) | Token::Var(_) => {
                // a leaf
                let node = AstNode::new(token.clone(), None, None);
                proof {
                    lemma_node_views_push(output@, node);
                }
                output.push(node);
            },
            Token::Bin(op) | Token::Una(op) => {
                match reduce_for(&mut operator_stack, &mut output, *op) {
                    Ok(()) => {},
                    Err(e) => {
                        return Err(e);
                    },
                }
                let waiting = token.clone();
                proof {
                    lemma_token_views_push(operator_stack@, waiting);
                }
                operator_stack.push(waiting);
            },
            Token::Fn(_) => {
                return Err(Error::UnsupportedOperator(token.clone()));
            },
        }
        i += 1;
    }
    match unwind_all(&mut operator_stack, &mut output) {
        Ok(()) => {},
        Err(e) => {
            return Err(e);
        },
    }
    if output.len() != 1 {
        return Err(Error::Syntax(SyntaxError::NotOneExpression));
    }
    let root = output.pop().unwrap();
    Ok(AST::new(root))
}

/// Parses a text into a syntax tree: scans it, then parses the tokens. The
/// error is that of the scanner if it has one, else that of the parser.
pub fn parse(expr: &str) -> (r: Result<AST, Error>)
    ensures
        match parse_of(expr@) {
            Ok(tree) => r is Ok && r->Ok_0@ == Some(tree) && tree.wf(),
            Err(e) => r is Err && r->Err_0@ == e,
        },
{
    proof {
        lemma_parse_wf(expr@);
    }
    match tokenize(expr) {
        Ok(tokens) => parse_tokens(&tokens),
        Err(e) => Err(e),
    }
}

} // verus!
