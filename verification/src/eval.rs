//! The evaluator: from a syntax tree to the arithmetic that computes it.
//!
//! A tree is walked in post order. What comes out is the sequence of steps
//! that a stack machine takes to compute the value: push a literal, push the
//! value of a variable, apply an operator to the values on top. Every variable
//! is looked up and every operator is checked on the way, so that a sequence
//! of steps, once returned, runs without a fault on any arithmetic.
use vstd::prelude::*;
use crate::bindings::Bindings;
use crate::error::{Error, SpecError};
use crate::parser::{AstNode, SpecNode, AST};
use crate::token::{is_number, Op, SpecToken, Token};

verus! {

/// One step of a stack machine.
#[derive(Debug, PartialEq)]
pub enum Step {
    /// Push the number that the text of a literal denotes.
    Literal(String),
    /// Push a value, given as the 64 bits of an IEEE 754 double.
    Value(u64),
    /// Take the operands off the stack, two for a binary operator and one for
    /// the negation, the upper one on the right, and push the result.
    Apply(Op),
}

/// The mathematical content of a [`Step`].
pub enum SpecStep {
    Literal(Seq<char>),
    Value(u64),
    Apply(Op),
}

impl View for Step {
    type V = SpecStep;

    open spec fn view(&self) -> SpecStep {
        match self {
            Step::Literal(text) => SpecStep::Literal(text@),
            Step::Value(v) => SpecStep::Value(*v),
            Step::Apply(op) => SpecStep::Apply(*op),
        }
    }
}

impl Clone for Step {
    fn clone(&self) -> (step: Self)
        ensures
            step@ == self@,
    {
        match self {
            Step::Literal(text) => Step::Literal(text.clone()),
            Step::Value(v) => Step::Value(*v),
            Step::Apply(op) => Step::Apply(*op),
        }
    }
}

/// The mathematical content of a sequence of steps.
pub open spec fn step_views(steps: Seq<Step>) -> Seq<SpecStep> {
    steps.map_values(|s: Step| s@)
}

/// The steps that compute the value of a tree, with the variables bound as
/// `env` says.
///
/// The subtrees come first, the left one before the right one, then the
/// operator of the node. The first fault met in that order is the result: a
/// variable without a binding, or a node without a rule. Such a node is one
/// with a binary operator that lacks a subtree or whose operator takes one
/// operand, one with a unary operator other than the negation (the
/// factorial), and one tagged with a parenthesis or a function name.
pub open spec fn reduction(node: SpecNode, env: Map<Seq<char>, u64>) -> Result<
    Seq<SpecStep>,
    SpecError,
>
    decreases node,
{
    match node.tok {
        SpecToken::Num(text) => Ok(seq![SpecStep::Literal(text)]),
        SpecToken::Var(name) => if env.contains_key(name) {
            Ok(seq![SpecStep::Value(env[name])])
        } else {
            Err(SpecError::UndefinedVariable(name))
        },
        SpecToken::Bin(op) => match (node.lhs, node.rhs) {
            (Some(lhs), Some(rhs)) => match reduction(*lhs, env) {
                Ok(left) => match reduction(*rhs, env) {
                    Ok(right) => if op.spec_is_binary() {
                        Ok(left + right + seq![SpecStep::Apply(op)])
                    } else {
                        Err(SpecError::UnsupportedOperator(node.tok))
                    },
                    Err(e) => Err(e),
                },
                Err(e) => Err(e),
            },
            _ => Err(SpecError::UnsupportedOperator(node.tok)),
        },
        SpecToken::Una(op) => match node.lhs {
            Some(lhs) => match reduction(*lhs, env) {
                Ok(operand) => if op == Op::NEG {
                    Ok(operand + seq![SpecStep::Apply(op)])
                } else {
                    Err(SpecError::UnsupportedOperator(node.tok))
                },
                Err(e) => Err(e),
            },
            None => Err(SpecError::UnsupportedOperator(node.tok)),
        },
        _ => Err(SpecError::UnsupportedOperator(node.tok)),
    }
}

/// An arithmetic: what a literal denotes and what the operators compute, on
/// values held as 64 bits. The arithmetic of IEEE 754 doubles is one.
pub struct Arithmetic {
    /// The number that the text of a literal denotes.
    pub literal: spec_fn(Seq<char>) -> u64,
    /// The negation of a number.
    pub negate: spec_fn(u64) -> u64,
    /// What a binary operator makes of its left and right operand.
    pub binary: spec_fn(Op, u64, u64) -> u64,
}

/// The value of a tree in an arithmetic: a literal is what it denotes, a
/// variable what it is bound to, and an operator what it makes of the values
/// of its subtrees. It has a meaning where the tree has a reduction.
pub open spec fn value(node: SpecNode, env: Map<Seq<char>, u64>, a: Arithmetic) -> u64
    decreases node,
{
    match node.tok {
        SpecToken::Num(text) => (a.literal)(text),
        SpecToken::Var(name) => env[name],
        SpecToken::Bin(op) => match (node.lhs, node.rhs) {
            (Some(lhs), Some(rhs)) => (a.binary)(op, value(*lhs, env, a), value(*rhs, env, a)),
            _ => 0,
        },
        SpecToken::Una(_) => match node.lhs {
            Some(lhs) => (a.negate)(value(*lhs, env, a)),
            None => 0,
        },
        _ => 0,
    }
}

/// The stack of a stack machine after one step, or `None` where the step
/// finds too few values or an operator that the machine does not have.
pub open spec fn apply(step: SpecStep, stack: Seq<u64>, a: Arithmetic) -> Option<Seq<u64>> {
    match step {
        SpecStep::Literal(text) => Some(stack.push((a.literal)(text))),
        SpecStep::Value(v) => Some(stack.push(v)),
        SpecStep::Apply(op) => if op.spec_is_binary() {
            if stack.len() >= 2 {
                Some(
                    stack.take(stack.len() - 2).push(
                        (a.binary)(op, stack[stack.len() - 2], stack[stack.len() - 1]),
                    ),
                )
            } else {
                None
            }
        } else if op == Op::NEG {
            if stack.len() >= 1 {
                Some(stack.drop_last().push((a.negate)(stack.last())))
            } else {
                None
            }
        } else {
            None
        },
    }
}

/// The stack of a stack machine after a sequence of steps.
pub open spec fn execute(steps: Seq<SpecStep>, stack: Seq<u64>, a: Arithmetic) -> Option<
    Seq<u64>,
>
    decreases steps.len(),
{
    if steps.len() == 0 {
        Some(stack)
    } else {
        match apply(steps[0], stack, a) {
            Some(next) => execute(steps.drop_first(), next, a),
            None => None,
        }
    }
}

proof fn lemma_execute_concat(
    first: Seq<SpecStep>,
    second: Seq<SpecStep>,
    stack: Seq<u64>,
    a: Arithmetic,
)
    ensures
        execute(first + second, stack, a) == match execute(first, stack, a) {
            Some(mid) => execute(second, mid, a),
            None => None,
        },
    decreases first.len(),
{
    if first.len() == 0 {
        assert(first + second =~= second);
    } else {
        assert((first + second)[0] == first[0]);
        assert((first + second).drop_first() =~= first.drop_first() + second);
        if let Some(next) = apply(first[0], stack, a) {
            lemma_execute_concat(first.drop_first(), second, next, a);
        }
    }
}

proof fn lemma_execute_one(step: SpecStep, stack: Seq<u64>, a: Arithmetic)
    ensures
        execute(seq![step], stack, a) == apply(step, stack, a),
{
    assert(seq![step].drop_first() =~= Seq::<SpecStep>::empty());
    if let Some(next) = apply(step, stack, a) {
        assert(execute(Seq::<SpecStep>::empty(), next, a) == Some(next));
    }
}

/// The steps of a tree compute its value: a stack machine that takes them,
/// in any arithmetic and on any stack, never finds a value missing, and ends
/// with the value of the tree on top of the stack it started with.
pub proof fn lemma_steps_compute(
    node: SpecNode,
    env: Map<Seq<char>, u64>,
    a: Arithmetic,
    stack: Seq<u64>,
)
    requires
        reduction(node, env) is Ok,
    ensures
        execute(reduction(node, env)->Ok_0, stack, a) == Some(stack.push(value(node, env, a))),
    decreases node,
{
    match node.tok {
        SpecToken::Num(text) => {
            lemma_execute_one(SpecStep::Literal(text), stack, a);
        },
        SpecToken::Var(name) => {
            lemma_execute_one(SpecStep::Value(env[name]), stack, a);
        },
        SpecToken::Bin(op) => {
            let lhs = *node.lhs->0;
            let rhs = *node.rhs->0;
            let left = reduction(lhs, env)->Ok_0;
            let right = reduction(rhs, env)->Ok_0;
            let last = SpecStep::Apply(op);
            lemma_steps_compute(lhs, env, a, stack);
            let first = stack.push(value(lhs, env, a));
            lemma_steps_compute(rhs, env, a, first);
            let both = first.push(value(rhs, env, a));
            lemma_execute_concat(left + right, seq![last], stack, a);
            lemma_execute_concat(left, right, stack, a);
            lemma_execute_one(last, both, a);
            assert(both.take(both.len() - 2) =~= stack);
        },
        SpecToken::Una(op) => {
            let lhs = *node.lhs->0;
            let operand = reduction(lhs, env)->Ok_0;
            let last = SpecStep::Apply(op);
            lemma_steps_compute(lhs, env, a, stack);
            let first = stack.push(value(lhs, env, a));
            lemma_execute_concat(operand, seq![last], stack, a);
            lemma_execute_one(last, first, a);
            assert(first.drop_last() =~= stack);
        },
        _ => {},
    }
}

/// Whether every literal among the steps holds the text of a number.
pub open spec fn all_numbers(steps: Seq<SpecStep>) -> bool {
    forall|k: int|
        0 <= k < steps.len() ==> (#[trigger] steps[k] matches SpecStep::Literal(text)
            ==> is_number(text))
}

proof fn lemma_step_is_number(node: SpecNode, env: Map<Seq<char>, u64>, k: int)
    requires
        node.wf(),
        reduction(node, env) is Ok,
        0 <= k < reduction(node, env)->Ok_0.len(),
    ensures
        reduction(node, env)->Ok_0[k] matches SpecStep::Literal(text) ==> is_number(text),
    decreases node,
{
    match node.tok {
        SpecToken::Bin(op) => {
            let lhs = *node.lhs->0;
            let rhs = *node.rhs->0;
            let left = reduction(lhs, env)->Ok_0;
            let right = reduction(rhs, env)->Ok_0;
            if k < left.len() {
                lemma_step_is_number(lhs, env, k);
            } else if k < left.len() + right.len() {
                lemma_step_is_number(rhs, env, k - left.len());
            }
        },
        SpecToken::Una(op) => {
            let lhs = *node.lhs->0;
            let operand = reduction(lhs, env)->Ok_0;
            if k < operand.len() {
                lemma_step_is_number(lhs, env, k);
            }
        },
        _ => {},
    }
}

/// In the steps of a well-formed tree, every literal holds the text of a
/// number.
pub proof fn lemma_steps_literals(node: SpecNode, env: Map<Seq<char>, u64>)
    requires
        node.wf(),
        reduction(node, env) is Ok,
    ensures
        all_numbers(reduction(node, env)->Ok_0),
{
    let steps = reduction(node, env)->Ok_0;
    assert forall|k: int| 0 <= k < steps.len() implies (#[trigger] steps[k] matches SpecStep::Literal(
        text,
    ) ==> is_number(text)) by {
        lemma_step_is_number(node, env, k);
    }
}

/// The mathematical content of what the evaluator returns.
pub open spec fn reduced(r: Result<Vec<Step>, Error>) -> Result<Seq<SpecStep>, SpecError> {
    match r {
        Ok(steps) => Ok(step_views(steps@)),
        Err(e) => Err(e@),
    }
}

proof fn lemma_step_views_push(steps: Seq<Step>, s: Step)
    ensures
        step_views(steps.push(s)) == step_views(steps) + seq![s@],
{
    assert(step_views(steps.push(s)) =~= step_views(steps) + seq![s@]);
}

/// Appends to `steps` the steps that compute the tree under `node`.
fn eval_node(node: &AstNode, context: &Bindings, steps: &mut Vec<Step>) -> (r: Result<(), Error>)
    ensures
        match reduction(node@, context@) {
            Ok(added) => r is Ok && step_views(final(steps)@) == step_views(old(steps)@) + added,
            Err(e) => r is Err && r->Err_0@ == e,
        },
    decreases node,
{
    let ghost before = step_views(steps@);
    match &node.tok {
        Token::Num(k) => {
            let step = Step::Literal(k.clone());
            proof {
                lemma_step_views_push(steps@, step);
            }
            steps.push(step);
            Ok(())
        },
        Token::Var(id) => {
            match context.get(id.as_str()) {
                None => Err(Error::UndefinedVariable(id.clone())),
                Some(x) => {
                    let step = Step::Value(x);
                    proof {
                        lemma_step_views_push(steps@, step);
                    }
                    steps.push(step);
                    Ok(())
                },
            }
        },
        Token::Bin(op) => {
            let (lhs, rhs) = match &node.lhs {
                Some(lhs) => match &node.rhs {
                    Some(rhs) => (lhs, rhs),
                    None => {
                        return Err(Error::UnsupportedOperator(node.tok.clone()));
                    },
                },
                None => {
                    return Err(Error::UnsupportedOperator(node.tok.clone()));
                },
            };
            match eval_node(lhs, context, steps) {
                Ok(()) => {},
                Err(e) => {
                    return Err(e);
                },
            }
            match eval_node(rhs, context, steps) {
                Ok(()) => {},
                Err(e) => {
                    return Err(e);
                },
            }
            if !op.is_binary() {
                return Err(Error::UnsupportedOperator(node.tok.clone()));
            }
            let step = Step::Apply(*op);
            proof {
                lemma_step_views_push(steps@, step);
                let left = reduction(lhs@, context@)->Ok_0;
                let right = reduction(rhs@, context@)->Ok_0;
                assert(before + left + right + seq![step@] =~= before + (left + right
                    + seq![step@]));
            }
            steps.push(step);
            Ok(())
        },
        Token::Una(op) => {
            let lhs = match &node.lhs {
                Some(lhs) => lhs,
                None => {
                    return Err(Error::UnsupportedOperator(node.tok.clone()));
                },
            };
            match eval_node(lhs, context, steps) {
                Ok(()) => {},
                Err(e) => {
                    return Err(e);
                },
            }
            match op {
                Op::NEG => {},
                _ => {
                    return Err(Error::UnsupportedOperator(node.tok.clone()));
                },
            }
            let step = Step::Apply(*op);
            proof {
                lemma_step_views_push(steps@, step);
                let operand = reduction(lhs@, context@)->Ok_0;
                assert(before + operand + seq![step@] =~= before + (operand + seq![step@]));
            }
            steps.push(step);
            Ok(())
        },
        _ => Err(Error::UnsupportedOperator(node.tok.clone())),
    }
}

impl AstNode {
    /// Evaluates the tree under the node as far as can be done without
    /// arithmetic: the result is the steps that compute its value, or the
    /// first fault that evaluation meets.
    pub fn eval(&self, context: &Bindings) -> (r: Result<Vec<Step>, Error>)
        ensures
            reduced(r) == reduction(self@, context@),
    {
        let mut steps: Vec<Step> = Vec::new();
        assert(step_views(steps@) =~= Seq::empty());
        match eval_node(self, context, &mut steps) {
            Ok(()) => {
                assert(Seq::<SpecStep>::empty() + reduction(self@, context@)->Ok_0
                    =~= reduction(self@, context@)->Ok_0);
                Ok(steps)
            },
            Err(e) => Err(e),
        }
    }
}

impl AST {
    /// Evaluates the tree with no variable bound. `None` for a tree without a
    /// root, which no parse returns.
    pub fn eval(&self) -> (r: Option<Result<Vec<Step>, Error>>)
        ensures
            match self@ {
                Some(tree) => r is Some && reduced(r->0) == reduction(tree, Map::empty()),
                None => r is None,
            },
    {
        match &self.root {
            Some(root) => {
                let context = Bindings::new();
                Some(root.eval(&context))
            },
            None => None,
        }
    }
}

} // verus!
