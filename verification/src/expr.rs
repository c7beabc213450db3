//! An expression with its variables: parsed once, evaluated many times.
use vstd::prelude::*;
use crate::bindings::Bindings;
use crate::error::{Error, SpecError};
use crate::eval::{
    all_numbers, lemma_steps_literals, reduced, reduction, step_views, SpecStep, Step,
};
use crate::parser::{lemma_parse_wf, parse, parse_of, SpecNode, AST};
use crate::token::SpecToken;

verus! {

/// A parsed expression, the values of its variables, and its text.
pub struct Expr {
    /// The syntax tree of the expression.
    tree: AST,
    /// The values of the variables, used by every evaluation.
    context: Bindings,
    /// The text of the expression, kept so that it can be shown as written.
    expr_string: String,
}

impl Expr {
    #[verifier::type_invariant]
    spec fn parsed(&self) -> bool {
        self.tree@ is Some && parse_of(self.expr_string@) == Ok::<SpecNode, SpecError>(self.tree@->0)
    }

    /// The syntax tree of the expression.
    pub closed spec fn tree(&self) -> SpecNode {
        self.tree@->0
    }

    /// The values that the variables are bound to.
    pub closed spec fn bindings(&self) -> Map<Seq<char>, u64> {
        self.context@
    }

    /// The text that the expression was made from.
    pub closed spec fn source(&self) -> Seq<char> {
        self.expr_string@
    }

    /// Parses a text into an expression with no variable bound. A text that
    /// does not parse gives the error of the parse, and no expression.
    pub fn new(expression: &str) -> (r: Result<Expr, Error>)
        ensures
            match parse_of(expression@) {
                Ok(tree) => {
                    &&& r is Ok
                    &&& r->Ok_0.tree() == tree
                    &&& r->Ok_0.source() == expression@
                    &&& r->Ok_0.bindings() == Map::<Seq<char>, u64>::empty()
                },
                Err(e) => r is Err && r->Err_0@ == e,
            },
    {
        match parse(expression) {
            Ok(tree) => Ok(
                Expr { tree, context: Bindings::new(), expr_string: expression.to_owned() },
            ),
            Err(e) => Err(e),
        }
    }

    /// Evaluates the expression with the variables as they are bound now.
    ///
    /// The result is the steps that compute the value, each variable replaced
    /// by its value, or the first fault: a variable that is not bound, or an
    /// operator without a rule. Neither the tree nor a binding changes, so
    /// that the same call gives the same result until a variable is set.
    pub fn eval(&self) -> (r: Result<Vec<Step>, Error>)
        ensures
            reduced(r) == reduction(self.tree(), self.bindings()),
            parse_of(self.source()) == Ok::<SpecNode, SpecError>(self.tree()),
            r is Ok ==> all_numbers(step_views(r->Ok_0@)),
    {
        proof {
            use_type_invariant(self);
            lemma_parse_wf(self.source());
            if reduction(self.tree(), self.bindings()) is Ok {
                lemma_steps_literals(self.tree(), self.bindings());
            }
        }
        match &self.tree.root {
            Some(root) => root.eval(&self.context),
            None => Ok(Vec::new()),
        }
    }

    /// Binds the variable `id` to `val`, in place of any value it had. The
    /// tree and the text stay as they are.
    pub fn set_var(&mut self, id: &str, val: u64)
        ensures
            final(self).bindings() == old(self).bindings().insert(id@, val),
            final(self).tree() == old(self).tree(),
            final(self).source() == old(self).source(),
    {
        proof {
            use_type_invariant(&*self);
        }
        let mut context = Bindings::new();
        core::mem::swap(&mut self.context, &mut context);
        context.set(id, val);
        self.context = context;
    }

    /// The text of the expression, as it was given.
    pub fn to_string(&self) -> (text: String)
        ensures
            text@ == self.source(),
    {
        self.expr_string.clone()
    }
}

/// Two evaluations of one expression, with no variable set between them, give
/// the same steps or the same fault.
pub proof fn lemma_eval_twice(
    e: Expr,
    first: Result<Vec<Step>, Error>,
    second: Result<Vec<Step>, Error>,
)
    requires
        reduced(first) == reduction(e.tree(), e.bindings()),
        reduced(second) == reduction(e.tree(), e.bindings()),
    ensures
        reduced(first) == reduced(second),
{
}

/// Setting a variable and evaluating: where the expression is that one
/// variable, the steps push the value that was set.
pub proof fn lemma_set_then_eval(bindings: Map<Seq<char>, u64>, id: Seq<char>, val: u64)
    ensures
        reduction(SpecNode::leaf(SpecToken::Var(id)), bindings.insert(id, val)) == Ok::<
            Seq<SpecStep>,
            SpecError,
        >(seq![SpecStep::Value(val)]),
        !bindings.contains_key(id) ==> reduction(SpecNode::leaf(SpecToken::Var(id)), bindings)
            == Err::<Seq<SpecStep>, SpecError>(SpecError::UndefinedVariable(id)),
{
}

} // verus!
