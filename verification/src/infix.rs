//! Infix notation, and the proof that the parser reads it as arithmetic does.
//!
//! An [`Infix`] is an expression as it is written: operands, operators and
//! parentheses in their order, together with the grouping that its author
//! means. Where that grouping is the one that precedence and associativity
//! give, the parser returns its tree.
use vstd::prelude::*;
use crate::error::SpecError;
use crate::eval::{execute, lemma_steps_compute, reduction, value, Arithmetic};
use crate::lexer::{ends_value, tokens_of};
use crate::parser::{
    binds_first, close, finish, fold, parse_of, reduce, run, step, tree_of, unwind, SpecNode,
    Stacks,
};
use crate::token::{Assoc, Op, SpecToken};
use crate::written::{apart, blank, fits, lemma_tokens_of_written, merges, written};

verus! {

/// A written expression and its intended grouping.
pub enum Infix {
    /// A number or a variable.
    Atom(SpecToken),
    /// An expression between parentheses.
    Group(Box<Infix>),
    /// A `-` before an expression, which negates it.
    Negate(Box<Infix>),
    /// Two expressions with a binary operator between them.
    Binary(Box<Infix>, Op, Box<Infix>),
}

impl Infix {
    /// The tokens of the expression as written, from left to right.
    pub open spec fn tokens(self) -> Seq<SpecToken>
        decreases self,
    {
        match self {
            Infix::Atom(t) => seq![t],
            Infix::Group(e) => seq![SpecToken::LP] + e.tokens() + seq![SpecToken::RP],
            Infix::Negate(e) => seq![SpecToken::Una(Op::NEG)] + e.tokens(),
            Infix::Binary(l, op, r) => l.tokens() + seq![SpecToken::Bin(op)] + r.tokens(),
        }
    }

    /// The syntax tree of the intended grouping. Parentheses leave no node.
    pub open spec fn tree(self) -> SpecNode
        decreases self,
    {
        match self {
            Infix::Atom(t) => SpecNode::leaf(t),
            Infix::Group(e) => e.tree(),
            Infix::Negate(e) => SpecNode::unary(SpecToken::Una(Op::NEG), e.tree()),
            Infix::Binary(l, op, r) => SpecNode::binary(SpecToken::Bin(op), l.tree(), r.tree()),
        }
    }

    /// How tightly the expression holds together: the precedence of its
    /// outermost operator, and more than any precedence for an atom and for
    /// an expression between parentheses.
    pub open spec fn level(self) -> int {
        match self {
            Infix::Atom(_) => 6,
            Infix::Group(_) => 6,
            Infix::Negate(_) => Op::NEG.spec_prec() as int,
            Infix::Binary(_, op, _) => op.spec_prec() as int,
        }
    }

    /// Whether the intended grouping is the one that precedence and
    /// associativity give to the written tokens.
    ///
    /// An operand of a binary operator holds together at least as tightly as
    /// the operator binds; on the right of an operator that groups to the
    /// left, and on the left of one that groups to the right, it holds
    /// together more tightly. The operand of a negation holds together as
    /// tightly as the negation binds. An atom is a number or a variable.
    pub open spec fn standard(self) -> bool
        decreases self,
    {
        match self {
            Infix::Atom(t) => t is Num || t is Var,
            Infix::Group(e) => e.standard(),
            Infix::Negate(e) => e.standard() && e.level() >= Op::NEG.spec_prec(),
            Infix::Binary(l, op, r) => {
                &&& op.spec_is_binary()
                &&& l.standard()
                &&& r.standard()
                &&& if op.spec_assoc() == Assoc::LEFT {
                    l.level() >= op.spec_prec() && r.level() > op.spec_prec()
                } else {
                    l.level() > op.spec_prec() && r.level() >= op.spec_prec()
                }
            },
        }
    }

    /// Whether the expression is made of numbers, parentheses and the four
    /// operators `+ - * /` alone.
    pub open spec fn arithmetic(self) -> bool
        decreases self,
    {
        match self {
            Infix::Atom(t) => t is Num,
            Infix::Group(e) => e.arithmetic(),
            Infix::Negate(_) => false,
            Infix::Binary(l, op, r) => {
                &&& l.arithmetic()
                &&& r.arithmetic()
                &&& (op == Op::SUM || op == Op::SUB || op == Op::MUL || op == Op::DIV)
            },
        }
    }

    /// Whether every number and every variable of the expression is written
    /// as the scanner reads it.
    pub open spec fn writable(self) -> bool
        decreases self,
    {
        match self {
            Infix::Atom(t) => t.wf(),
            Infix::Group(e) => e.writable(),
            Infix::Negate(e) => e.writable(),
            Infix::Binary(l, _, r) => l.writable() && r.writable(),
        }
    }

    /// What the expression is worth in an arithmetic, by its intended
    /// grouping: a number is what it denotes, a variable what it is bound to,
    /// parentheses change nothing, and an operator is applied to what its
    /// operands are worth.
    pub open spec fn worth(self, env: Map<Seq<char>, u64>, a: Arithmetic) -> u64
        decreases self,
    {
        match self {
            Infix::Atom(t) => match t {
                SpecToken::Num(text) => (a.literal)(text),
                SpecToken::Var(name) => env[name],
                _ => 0,
            },
            Infix::Group(e) => e.worth(env, a),
            Infix::Negate(e) => (a.negate)(e.worth(env, a)),
            Infix::Binary(l, op, r) => (a.binary)(op, l.worth(env, a), r.worth(env, a)),
        }
    }

    /// The operators that wait on the parser's stack when the expression has
    /// been read: those along its right edge, outermost first.
    pub open spec fn waiting(self) -> Seq<SpecToken>
        decreases self,
    {
        match self {
            Infix::Atom(_) => Seq::empty(),
            Infix::Group(_) => Seq::empty(),
            Infix::Negate(e) => seq![SpecToken::Una(Op::NEG)] + e.waiting(),
            Infix::Binary(_, op, r) => seq![SpecToken::Bin(op)] + r.waiting(),
        }
    }

    /// The trees that the parser has built when the expression has been
    /// read: the left operands of the waiting operators, and the last operand.
    pub open spec fn built(self) -> Seq<SpecNode>
        decreases self,
    {
        match self {
            Infix::Atom(t) => seq![SpecNode::leaf(t)],
            Infix::Group(e) => seq![e.tree()],
            Infix::Negate(e) => e.built(),
            Infix::Binary(l, _, r) => seq![l.tree()] + r.built(),
        }
    }
}

/// Whether an operator `top` on the stack stays there while an expression of
/// the given level is read: no binary operator that such an expression
/// exposes makes `top` take its operands.
pub open spec fn stays(top: Op, level: int) -> bool {
    forall|op: Op| op.spec_is_binary() && op.spec_prec() >= level ==> !binds_first(top, op)
}

/// Whether the top of the operator stack stays where it is while an
/// expression of the given level is read.
pub open spec fn sheltered(ops: Seq<SpecToken>, level: int) -> bool {
    ops.len() > 0 ==> ops.last() is LP || (ops.last().op() is Some && stays(
        ops.last().op()->0,
        level,
    ))
}

/// The trees after all of `ops` have been folded, the last one first.
pub open spec fn collapse(ops: Seq<SpecToken>, out: Seq<SpecNode>) -> Option<Seq<SpecNode>>
    decreases ops.len(),
{
    if ops.len() == 0 {
        Some(out)
    } else {
        match fold(out, ops.last()) {
            Some(folded) => collapse(ops.drop_last(), folded),
            None => None,
        }
    }
}

/// Reading `a + b` is reading `a`, then `b`.
pub proof fn lemma_run_concat(st: Stacks, a: Seq<SpecToken>, b: Seq<SpecToken>)
    ensures
        run(st, a + b) == match run(st, a) {
            Ok(mid) => run(mid, b),
            Err(e) => Err(e),
        },
    decreases a.len(),
{
    if a.len() == 0 {
        assert(a + b =~= b);
    } else {
        assert((a + b)[0] == a[0]);
        assert((a + b).drop_first() =~= a.drop_first() + b);
        if let Ok(next) = step(st, a[0]) {
            lemma_run_concat(next, a.drop_first(), b);
        }
    }
}

/// Reading a single token is one step.
pub proof fn lemma_run_one(st: Stacks, t: SpecToken)
    ensures
        run(st, seq![t]) == step(st, t),
{
    assert(seq![t].drop_first() =~= Seq::<SpecToken>::empty());
    if let Ok(next) = step(st, t) {
        assert(run(next, Seq::<SpecToken>::empty()) == Ok::<Stacks, SpecError>(next));
    }
}

proof fn lemma_collapse_one(t: SpecToken, out: Seq<SpecNode>)
    ensures
        collapse(seq![t], out) == fold(out, t),
{
    assert(seq![t].drop_last() =~= Seq::<SpecToken>::empty());
    if let Some(folded) = fold(out, t) {
        assert(collapse(Seq::<SpecToken>::empty(), folded) == Some(folded));
    }
}

proof fn lemma_collapse_concat(a: Seq<SpecToken>, b: Seq<SpecToken>, out: Seq<SpecNode>)
    ensures
        collapse(a + b, out) == match collapse(b, out) {
            Some(folded) => collapse(a, folded),
            None => None,
        },
    decreases b.len(),
{
    if b.len() == 0 {
        assert(a + b =~= a);
    } else {
        assert((a + b).last() == b.last());
        assert((a + b).drop_last() =~= a + b.drop_last());
        if let Some(folded) = fold(out, b.last()) {
            lemma_collapse_concat(a, b.drop_last(), folded);
        }
    }
}

/// The operators that wait after an expression, folded over what was built,
/// leave the tree of the expression.
proof fn lemma_collapse_waiting(e: Infix, out: Seq<SpecNode>)
    ensures
        collapse(e.waiting(), out + e.built()) == Some(out.push(e.tree())),
    decreases e,
{
    match e {
        Infix::Atom(t) => {
            assert(out + e.built() =~= out.push(e.tree()));
        },
        Infix::Group(inner) => {
            assert(out + e.built() =~= out.push(e.tree()));
        },
        Infix::Negate(inner) => {
            let t = SpecToken::Una(Op::NEG);
            lemma_collapse_concat(seq![t], inner.waiting(), out + inner.built());
            lemma_collapse_waiting(*inner, out);
            let mid = out.push(inner.tree());
            lemma_collapse_one(t, mid);
            assert(mid.drop_last() =~= out);
        },
        Infix::Binary(l, op, r) => {
            let t = SpecToken::Bin(op);
            let base = out.push(l.tree());
            assert(out + e.built() =~= base + r.built());
            lemma_collapse_concat(seq![t], r.waiting(), base + r.built());
            lemma_collapse_waiting(*r, base);
            let mid = base.push(r.tree());
            lemma_collapse_one(t, mid);
            assert(mid.take(mid.len() - 2) =~= out);
        },
    }
}

/// Every operator that waits after a standard expression binds at least as
/// tightly as the expression holds together.
proof fn lemma_waiting_binds(e: Infix, k: int)
    requires
        e.standard(),
        0 <= k < e.waiting().len(),
    ensures
        e.waiting()[k].op() is Some,
        !(e.waiting()[k] is LP),
        e.waiting()[k].op()->0.spec_prec() >= e.level(),
    decreases e,
{
    match e {
        Infix::Atom(_) => {},
        Infix::Group(_) => {},
        Infix::Negate(inner) => {
            if k > 0 {
                lemma_waiting_binds(*inner, k - 1);
            }
        },
        Infix::Binary(_, op, r) => {
            if k > 0 {
                lemma_waiting_binds(*r, k - 1);
            }
        },
    }
}

/// An operator that is read folds a run of waiting operators that all bind
/// before it, and goes on below them.
proof fn lemma_reduce_through(
    base: Seq<SpecToken>,
    seg: Seq<SpecToken>,
    out: Seq<SpecNode>,
    op: Op,
)
    requires
        forall|k: int|
            0 <= k < seg.len() ==> (#[trigger] seg[k]).op() is Some && binds_first(
                seg[k].op()->0,
                op,
            ),
        collapse(seg, out) is Some,
    ensures
        reduce(Stacks { ops: base + seg, out }, op) == reduce(
            Stacks { ops: base, out: collapse(seg, out)->0 },
            op,
        ),
    decreases seg.len(),
{
    if seg.len() == 0 {
        assert(base + seg =~= base);
    } else {
        assert((base + seg).last() == seg.last());
        assert((base + seg).drop_last() =~= base + seg.drop_last());
        let folded = fold(out, seg.last())->0;
        lemma_reduce_through(base, seg.drop_last(), folded, op);
    }
}

/// A right parenthesis folds a run of waiting operators and goes on below
/// them.
proof fn lemma_close_through(base: Seq<SpecToken>, seg: Seq<SpecToken>, out: Seq<SpecNode>)
    requires
        forall|k: int| 0 <= k < seg.len() ==> !(#[trigger] seg[k] is LP),
        collapse(seg, out) is Some,
    ensures
        close(Stacks { ops: base + seg, out }) == close(
            Stacks { ops: base, out: collapse(seg, out)->0 },
        ),
    decreases seg.len(),
{
    if seg.len() == 0 {
        assert(base + seg =~= base);
    } else {
        assert((base + seg).last() == seg.last());
        assert((base + seg).drop_last() =~= base + seg.drop_last());
        let folded = fold(out, seg.last())->0;
        lemma_close_through(base, seg.drop_last(), folded);
    }
}

/// The final unwinding folds a run of waiting operators and goes on below
/// them.
proof fn lemma_unwind_through(base: Seq<SpecToken>, seg: Seq<SpecToken>, out: Seq<SpecNode>)
    requires
        forall|k: int| 0 <= k < seg.len() ==> !(#[trigger] seg[k] is LP),
        collapse(seg, out) is Some,
    ensures
        unwind(Stacks { ops: base + seg, out }) == unwind(
            Stacks { ops: base, out: collapse(seg, out)->0 },
        ),
    decreases seg.len(),
{
    if seg.len() == 0 {
        assert(base + seg =~= base);
    } else {
        assert((base + seg).last() == seg.last());
        assert((base + seg).drop_last() =~= base + seg.drop_last());
        let folded = fold(out, seg.last())->0;
        lemma_unwind_through(base, seg.drop_last(), folded);
    }
}

/// Reading a standard expression leaves the stacks as they were, with the
/// operators of its right edge and their operands on top, provided that the
/// operator below does not bind before any operator of the expression.
pub proof fn lemma_read(e: Infix, st: Stacks)
    requires
        e.standard(),
        sheltered(st.ops, e.level()),
    ensures
        run(st, e.tokens()) == Ok::<Stacks, SpecError>(
            Stacks { ops: st.ops + e.waiting(), out: st.out + e.built() },
        ),
    decreases e,
{
    match e {
        Infix::Atom(t) => {
            lemma_run_one(st, t);
            assert(st.ops + e.waiting() =~= st.ops);
            assert(st.out + e.built() =~= st.out.push(SpecNode::leaf(t)));
        },
        Infix::Group(inner) => {
            let opened = Stacks { ops: st.ops.push(SpecToken::LP), out: st.out };
            let read = Stacks {
                ops: opened.ops + inner.waiting(),
                out: opened.out + inner.built(),
            };
            lemma_run_concat(st, seq![SpecToken::LP] + inner.tokens(), seq![SpecToken::RP]);
            lemma_run_concat(st, seq![SpecToken::LP], inner.tokens());
            lemma_run_one(st, SpecToken::LP);
            lemma_read(*inner, opened);
            lemma_run_one(read, SpecToken::RP);
            lemma_collapse_waiting(*inner, st.out);
            assert forall|k: int| 0 <= k < inner.waiting().len() implies !(
            #[trigger] inner.waiting()[k] is LP) by {
                lemma_waiting_binds(*inner, k);
            }
            lemma_close_through(opened.ops, inner.waiting(), read.out);
            let folded = Stacks { ops: opened.ops, out: st.out.push(inner.tree()) };
            assert(opened.ops.drop_last() =~= st.ops);
            assert(close(folded) == Ok::<Stacks, SpecError>(
                Stacks { ops: st.ops, out: folded.out },
            ));
            assert(st.ops + e.waiting() =~= st.ops);
            assert(st.out + e.built() =~= st.out.push(inner.tree()));
        },
        Infix::Negate(inner) => {
            let t = SpecToken::Una(Op::NEG);
            let pushed = Stacks { ops: st.ops.push(t), out: st.out };
            lemma_run_concat(st, seq![t], inner.tokens());
            lemma_run_one(st, t);
            assert(reduce(st, Op::NEG) == Ok::<Stacks, SpecError>(st));
            lemma_read(*inner, pushed);
            assert(pushed.ops + inner.waiting() =~= st.ops + e.waiting());
        },
        Infix::Binary(l, op, r) => {
            let t = SpecToken::Bin(op);
            lemma_run_concat(st, l.tokens() + seq![t], r.tokens());
            lemma_run_concat(st, l.tokens(), seq![t]);
            lemma_read(*l, st);
            let left = Stacks { ops: st.ops + l.waiting(), out: st.out + l.built() };
            lemma_run_one(left, t);
            lemma_collapse_waiting(*l, st.out);
            assert forall|k: int| 0 <= k < l.waiting().len() implies (
            #[trigger] l.waiting()[k]).op() is Some && binds_first(l.waiting()[k].op()->0, op) by {
                lemma_waiting_binds(*l, k);
            }
            lemma_reduce_through(st.ops, l.waiting(), left.out, op);
            let folded = Stacks { ops: st.ops, out: st.out.push(l.tree()) };
            assert(reduce(folded, op) == Ok::<Stacks, SpecError>(folded));
            let pushed = Stacks { ops: st.ops.push(t), out: folded.out };
            assert(step(left, t) == Ok::<Stacks, SpecError>(pushed));
            lemma_read(*r, pushed);
            assert(pushed.ops + r.waiting() =~= st.ops + e.waiting());
            assert(pushed.out + r.built() =~= st.out + e.built());
        },
    }
}

/// The parser gives a written expression the grouping that precedence and
/// associativity give it: for numbers, variables, parentheses, the negation
/// and the five binary operators, with `+ - * /` grouping to the left and `^`
/// to the right, the tree of the tokens is the tree of that grouping.
pub proof fn lemma_parse_standard(e: Infix)
    requires
        e.standard(),
    ensures
        tree_of(e.tokens()) == Ok::<SpecNode, SpecError>(e.tree()),
{
    let st = Stacks::empty();
    lemma_read(e, st);
    let read = Stacks { ops: st.ops + e.waiting(), out: st.out + e.built() };
    lemma_collapse_waiting(e, st.out);
    assert forall|k: int| 0 <= k < e.waiting().len() implies !(#[trigger] e.waiting()[k] is LP) by {
        lemma_waiting_binds(e, k);
    }
    lemma_unwind_through(st.ops, e.waiting(), read.out);
    assert(unwind(Stacks { ops: st.ops, out: st.out.push(e.tree()) }) == Ok::<
        Seq<SpecNode>,
        SpecError,
    >(st.out.push(e.tree())));
    assert(finish(read) == Ok::<SpecNode, SpecError>(e.tree()));
}

/// The tokens of an expression are such as the scanner makes them, and no
/// two of them merge when nothing is written between them.
proof fn lemma_tokens_legible(e: Infix)
    requires
        e.standard(),
        e.writable(),
    ensures
        e.tokens().len() > 0,
        !(e.tokens()[0] is Bin) && !(e.tokens()[0] is RP),
        ends_value(e.tokens().last()),
        fits(e.tokens(), false),
        forall|k: int|
            0 <= k && k + 1 < e.tokens().len() ==> !merges(#[trigger] e.tokens()[k], e.tokens()[k + 1]),
    decreases e,
{
    let ts = e.tokens();
    match e {
        Infix::Atom(t) => {},
        Infix::Group(inner) => {
            lemma_tokens_legible(*inner);
            let a = inner.tokens();
            let m = a.len() as int;
            assert(ts.len() == m + 2);
            assert(ts[0] == SpecToken::LP);
            assert(ts[m + 1] == SpecToken::RP);
            assert forall|k: int| 1 <= k <= m implies #[trigger] ts[k] == a[k - 1] by {}
            assert forall|k: int| 0 <= k < ts.len() implies {
                let t = #[trigger] ts[k];
                let before = if k == 0 {
                    false
                } else {
                    ends_value(ts[k - 1])
                };
                &&& t.wf()
                &&& !(t is Fn)
                &&& (t == SpecToken::Bin(Op::SUB) ==> before)
                &&& (t == SpecToken::Una(Op::NEG) ==> !before)
            } by {
                if 1 <= k <= m {
                    assert(ts[k] == a[k - 1]);
                    if k >= 2 {
                        assert(ts[k - 1] == a[k - 2]);
                    }
                }
            }
            assert forall|k: int| 0 <= k && k + 1 < ts.len() implies !merges(
                #[trigger] ts[k],
                ts[k + 1],
            ) by {
                if 1 <= k < m {
                    assert(ts[k] == a[k - 1]);
                    assert(ts[k + 1] == a[k]);
                }
            }
        },
        Infix::Negate(inner) => {
            lemma_tokens_legible(*inner);
            let a = inner.tokens();
            let m = a.len() as int;
            assert(ts.len() == m + 1);
            assert(ts[0] == SpecToken::Una(Op::NEG));
            assert forall|k: int| 1 <= k <= m implies #[trigger] ts[k] == a[k - 1] by {}
            assert forall|k: int| 0 <= k < ts.len() implies {
                let t = #[trigger] ts[k];
                let before = if k == 0 {
                    false
                } else {
                    ends_value(ts[k - 1])
                };
                &&& t.wf()
                &&& !(t is Fn)
                &&& (t == SpecToken::Bin(Op::SUB) ==> before)
                &&& (t == SpecToken::Una(Op::NEG) ==> !before)
            } by {
                if 1 <= k {
                    assert(ts[k] == a[k - 1]);
                    if k >= 2 {
                        assert(ts[k - 1] == a[k - 2]);
                    }
                }
            }
            assert forall|k: int| 0 <= k && k + 1 < ts.len() implies !merges(
                #[trigger] ts[k],
                ts[k + 1],
            ) by {
                if 1 <= k {
                    assert(ts[k] == a[k - 1]);
                    assert(ts[k + 1] == a[k]);
                }
            }
        },
        Infix::Binary(l, op, r) => {
            lemma_tokens_legible(*l);
            lemma_tokens_legible(*r);
            let a = l.tokens();
            let b = r.tokens();
            let m = a.len() as int;
            assert(ts.len() == m + 1 + b.len());
            assert forall|k: int| 0 <= k < m implies #[trigger] ts[k] == a[k] by {}
            assert(ts[m] == SpecToken::Bin(op));
            assert forall|k: int| m < k < ts.len() implies #[trigger] ts[k] == b[k - m - 1] by {}
            assert(ts[0] == a[0]);
            assert(ts.last() == b.last());
            assert forall|k: int| 0 <= k < ts.len() implies {
                let t = #[trigger] ts[k];
                let before = if k == 0 {
                    false
                } else {
                    ends_value(ts[k - 1])
                };
                &&& t.wf()
                &&& !(t is Fn)
                &&& (t == SpecToken::Bin(Op::SUB) ==> before)
                &&& (t == SpecToken::Una(Op::NEG) ==> !before)
            } by {
                if k < m {
                    assert(ts[k] == a[k]);
                    if k >= 1 {
                        assert(ts[k - 1] == a[k - 1]);
                    }
                } else if k == m {
                    assert(ts[k - 1] == a[m - 1]);
                } else {
                    assert(ts[k] == b[k - m - 1]);
                    if k >= m + 2 {
                        assert(ts[k - 1] == b[k - m - 2]);
                    }
                }
            }
            assert forall|k: int| 0 <= k && k + 1 < ts.len() implies !merges(
                #[trigger] ts[k],
                ts[k + 1],
            ) by {
                if k + 1 < m {
                    assert(ts[k] == a[k]);
                    assert(ts[k + 1] == a[k + 1]);
                } else if k > m {
                    assert(ts[k] == b[k - m - 1]);
                    assert(ts[k + 1] == b[k - m]);
                }
            }
        },
    }
}

/// However a standard expression is spaced out, the parser gives its text
/// the grouping that precedence and associativity give it: the tree of the
/// text is the tree of that grouping. The text may start with a gap, and has
/// a gap, which may be empty, behind each token.
pub proof fn lemma_parse_written(e: Infix, lead: Seq<char>, gaps: Seq<Seq<char>>)
    requires
        e.standard(),
        e.writable(),
        blank(lead),
        gaps.len() == e.tokens().len(),
        forall|k: int| 0 <= k < gaps.len() ==> blank(#[trigger] gaps[k]),
    ensures
        tokens_of(lead + written(e.tokens(), gaps)) == Ok::<Seq<SpecToken>, SpecError>(e.tokens()),
        parse_of(lead + written(e.tokens(), gaps)) == Ok::<SpecNode, SpecError>(e.tree()),
{
    lemma_tokens_legible(e);
    assert(apart(e.tokens(), gaps));
    lemma_tokens_of_written(lead, e.tokens(), gaps);
    lemma_parse_standard(e);
}

/// The value of the tree of an expression is what the expression is worth.
pub proof fn lemma_value_is_worth(e: Infix, env: Map<Seq<char>, u64>, a: Arithmetic)
    requires
        e.standard(),
    ensures
        value(e.tree(), env, a) == e.worth(env, a),
    decreases e,
{
    match e {
        Infix::Atom(_) => {},
        Infix::Group(inner) => {
            lemma_value_is_worth(*inner, env, a);
        },
        Infix::Negate(inner) => {
            lemma_value_is_worth(*inner, env, a);
        },
        Infix::Binary(l, _, r) => {
            lemma_value_is_worth(*l, env, a);
            lemma_value_is_worth(*r, env, a);
        },
    }
}

/// The tree of an expression without variables always has a reduction.
proof fn lemma_arithmetic_reduces(e: Infix, env: Map<Seq<char>, u64>)
    requires
        e.arithmetic(),
    ensures
        reduction(e.tree(), env) is Ok,
    decreases e,
{
    match e {
        Infix::Atom(_) => {},
        Infix::Group(inner) => {
            lemma_arithmetic_reduces(*inner, env);
        },
        Infix::Negate(_) => {},
        Infix::Binary(l, _, r) => {
            lemma_arithmetic_reduces(*l, env);
            lemma_arithmetic_reduces(*r, env);
        },
    }
}

/// Expressions of numbers, parentheses and `+ - * /` are parsed and
/// evaluated as infix arithmetic reads them, with `*` and `/` binding before
/// `+` and `-` and operators of one precedence grouping from left to right:
/// however such an expression is spaced out, its text parses to the tree of
/// that reading, the tree has a reduction, and the steps of the reduction
/// leave on an empty stack what the expression is worth, in any arithmetic.
pub proof fn lemma_parse_arithmetic(
    e: Infix,
    lead: Seq<char>,
    gaps: Seq<Seq<char>>,
    env: Map<Seq<char>, u64>,
    a: Arithmetic,
)
    requires
        e.arithmetic(),
        e.standard(),
        e.writable(),
        blank(lead),
        gaps.len() == e.tokens().len(),
        forall|k: int| 0 <= k < gaps.len() ==> blank(#[trigger] gaps[k]),
    ensures
        parse_of(lead + written(e.tokens(), gaps)) == Ok::<SpecNode, SpecError>(e.tree()),
        reduction(e.tree(), env) is Ok,
        execute(reduction(e.tree(), env)->Ok_0, Seq::empty(), a) == Some(seq![e.worth(env, a)]),
{
    lemma_parse_written(e, lead, gaps);
    lemma_arithmetic_reduces(e, env);
    lemma_steps_compute(e.tree(), env, a, Seq::empty());
    lemma_value_is_worth(e, env, a);
    assert(Seq::<u64>::empty().push(e.worth(env, a)) =~= seq![e.worth(env, a)]);
}

} // verus!
