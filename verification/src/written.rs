//! Tokens written out as text, and the proof that the scanner reads them back.
//!
//! A sequence of tokens is written by spelling each token and putting a gap
//! of characters that the scanner passes over behind it. Where the tokens
//! are such as the scanner makes, and no gap is left out between two tokens
//! that would run together, scanning the text gives the tokens back.
use vstd::prelude::*;
use crate::error::SpecError;
use crate::lexer::{
    ends_value, lemma_name_end, lemma_number_end, lex, name_end, number_end, symbol, tokens_of,
};
use crate::token::{is_digit, is_letter, is_numeric, Op, SpecToken};

verus! {

/// The character that stands for an operator.
pub open spec fn op_char(op: Op) -> char {
    match op {
        Op::SUM => '+',
        Op::SUB => '-',
        Op::MUL => '*',
        Op::DIV => '/',
        Op::EXP => '^',
        Op::FAC => '!',
        Op::NEG => '-',
    }
}

/// The text of a single token.
pub open spec fn spelling(t: SpecToken) -> Seq<char> {
    match t {
        SpecToken::Num(text) => text,
        SpecToken::Var(name) => name,
        SpecToken::Fn(name) => name,
        SpecToken::Bin(op) => seq![op_char(op)],
        SpecToken::Una(op) => seq![op_char(op)],
        SpecToken::LP => seq!['('],
        SpecToken::RP => seq![')'],
    }
}

/// A character that the scanner passes over wherever it stands: it opens no
/// number and no name, makes no token, and is not the point.
pub open spec fn is_blank(c: char) -> bool {
    !is_digit(c) && !is_letter(c) && c != '.' && symbol(c, false) is None
}

/// A run of characters that the scanner passes over.
pub open spec fn blank(gap: Seq<char>) -> bool {
    forall|k: int| 0 <= k < gap.len() ==> is_blank(#[trigger] gap[k])
}

/// The text of a sequence of tokens, each followed by its gap.
pub open spec fn written(tokens: Seq<SpecToken>, gaps: Seq<Seq<char>>) -> Seq<char>
    decreases tokens.len(),
{
    if tokens.len() == 0 {
        Seq::empty()
    } else {
        spelling(tokens[0]) + gaps[0] + written(tokens.drop_first(), gaps.drop_first())
    }
}

/// Whether the tokens are such as the scanner makes them, where
/// `after_value` says whether a value ended just before the first: each is
/// well formed, none names a function, a subtraction stands behind the end
/// of a value, and a negation stands elsewhere.
pub open spec fn fits(tokens: Seq<SpecToken>, after_value: bool) -> bool {
    forall|k: int|
        0 <= k < tokens.len() ==> {
            let t = #[trigger] tokens[k];
            let before = if k == 0 {
                after_value
            } else {
                ends_value(tokens[k - 1])
            };
            &&& t.wf()
            &&& !(t is Fn)
            &&& (t == SpecToken::Bin(Op::SUB) ==> before)
            &&& (t == SpecToken::Una(Op::NEG) ==> !before)
        }
}

/// Whether two tokens written with nothing between them read as something
/// else: two numbers and two names as one, a name and a left parenthesis as
/// a function.
pub open spec fn merges(t: SpecToken, u: SpecToken) -> bool {
    (t is Num && u is Num) || (t is Var && (u is Var || u is LP))
}

/// Whether the gaps keep the tokens apart: there is one behind each token,
/// each is passed over by the scanner, and none is empty between two tokens
/// that would merge.
pub open spec fn apart(tokens: Seq<SpecToken>, gaps: Seq<Seq<char>>) -> bool {
    &&& gaps.len() == tokens.len()
    &&& forall|k: int|
        0 <= k < tokens.len() ==> {
            &&& blank(#[trigger] gaps[k])
            &&& (gaps[k].len() == 0 && k + 1 < tokens.len() ==> !merges(tokens[k], tokens[k + 1]))
        }
}

proof fn lemma_number_end_shift(p: Seq<char>, s: Seq<char>, i: int)
    requires
        0 <= i,
    ensures
        number_end(p + s, p.len() + i) == p.len() + number_end(s, i),
    decreases s.len() - i,
{
    if i < s.len() {
        assert((p + s)[p.len() + i] == s[i]);
        if is_numeric(s[i]) {
            lemma_number_end_shift(p, s, i + 1);
        }
    }
}

proof fn lemma_name_end_shift(p: Seq<char>, s: Seq<char>, i: int)
    requires
        0 <= i,
    ensures
        name_end(p + s, p.len() + i) == p.len() + name_end(s, i),
    decreases s.len() - i,
{
    if i < s.len() {
        assert((p + s)[p.len() + i] == s[i]);
        if is_letter(s[i]) {
            lemma_name_end_shift(p, s, i + 1);
        }
    }
}

/// What the scanner reads from a position on does not depend on the text
/// before that position.
pub proof fn lemma_lex_shift(p: Seq<char>, s: Seq<char>, i: int, after_value: bool)
    requires
        0 <= i,
    ensures
        lex(p + s, p.len() + i, after_value) == lex(s, i, after_value),
    decreases s.len() - i,
{
    let t = p + s;
    let n = p.len() as int;
    if i < s.len() {
        assert(t[n + i] == s[i]);
        if is_digit(s[i]) {
            lemma_number_end_shift(p, s, i + 1);
            lemma_number_end(s, i + 1);
            let j = number_end(s, i + 1);
            assert(t.subrange(n + i, n + j) =~= s.subrange(i, j));
            lemma_lex_shift(p, s, j, true);
        } else if is_letter(s[i]) {
            lemma_name_end_shift(p, s, i + 1);
            lemma_name_end(s, i + 1);
            let j = name_end(s, i + 1);
            assert(t.subrange(n + i, n + j) =~= s.subrange(i, j));
            if j < s.len() {
                assert(t[n + j] == s[j]);
            }
            lemma_lex_shift(p, s, j, false);
            lemma_lex_shift(p, s, j, true);
        } else {
            match symbol(s[i], after_value) {
                Some(tok) => {
                    lemma_lex_shift(p, s, i + 1, ends_value(tok));
                },
                None => {
                    lemma_lex_shift(p, s, i + 1, after_value);
                },
            }
        }
    }
}

/// The scanner passes over a gap.
pub proof fn lemma_lex_gap(gap: Seq<char>, s: Seq<char>, after_value: bool)
    requires
        blank(gap),
    ensures
        lex(gap + s, 0, after_value) == lex(s, 0, after_value),
    decreases gap.len(),
{
    if gap.len() == 0 {
        assert(gap + s =~= s);
    } else {
        let c = gap[0];
        let rest = gap.drop_first() + s;
        assert(gap + s =~= seq![c] + rest);
        assert((seq![c] + rest)[0] == c);
        assert(is_blank(c));
        assert(symbol(c, after_value) is None);
        lemma_lex_shift(seq![c], rest, 0, after_value);
        assert forall|k: int| 0 <= k < gap.drop_first().len() implies is_blank(
            #[trigger] gap.drop_first()[k],
        ) by {
            assert(gap.drop_first()[k] == gap[k + 1]);
        }
        lemma_lex_gap(gap.drop_first(), s, after_value);
    }
}

proof fn lemma_number_end_at(s: Seq<char>, i: int, j: int)
    requires
        0 <= i <= j <= s.len(),
        forall|k: int| i <= k < j ==> is_numeric(#[trigger] s[k]),
        j < s.len() ==> !is_numeric(s[j]),
    ensures
        number_end(s, i) == j,
    decreases j - i,
{
    if i < j {
        lemma_number_end_at(s, i + 1, j);
    }
}

proof fn lemma_name_end_at(s: Seq<char>, i: int, j: int)
    requires
        0 <= i <= j <= s.len(),
        forall|k: int| i <= k < j ==> is_letter(#[trigger] s[k]),
        j < s.len() ==> !is_letter(s[j]),
    ensures
        name_end(s, i) == j,
    decreases j - i,
{
    if i < j {
        lemma_name_end_at(s, i + 1, j);
    }
}

/// The text of well-formed tokens starts with the first character of the
/// first token.
proof fn lemma_written_starts(tokens: Seq<SpecToken>, gaps: Seq<Seq<char>>)
    requires
        tokens.len() > 0,
        tokens[0].wf(),
    ensures
        spelling(tokens[0]).len() > 0,
        written(tokens, gaps).len() > 0,
        written(tokens, gaps)[0] == spelling(tokens[0])[0],
{
}

/// What the tokens after the first are, and what holds of them.
proof fn lemma_rest_fits(tokens: Seq<SpecToken>, gaps: Seq<Seq<char>>, after_value: bool)
    requires
        tokens.len() > 0,
        fits(tokens, after_value),
        apart(tokens, gaps),
    ensures
        fits(tokens.drop_first(), ends_value(tokens[0])),
        apart(tokens.drop_first(), gaps.drop_first()),
{
    let rest = tokens.drop_first();
    assert forall|k: int| 0 <= k < rest.len() implies {
        let t = #[trigger] rest[k];
        let before = if k == 0 {
            ends_value(tokens[0])
        } else {
            ends_value(rest[k - 1])
        };
        &&& t.wf()
        &&& !(t is Fn)
        &&& (t == SpecToken::Bin(Op::SUB) ==> before)
        &&& (t == SpecToken::Una(Op::NEG) ==> !before)
    } by {
        assert(rest[k] == tokens[k + 1]);
        if k > 0 {
            assert(rest[k - 1] == tokens[k]);
        }
    }
    assert forall|k: int| 0 <= k < rest.len() implies {
        &&& blank(#[trigger] gaps.drop_first()[k])
        &&& (gaps.drop_first()[k].len() == 0 && k + 1 < rest.len() ==> !merges(
            rest[k],
            rest[k + 1],
        ))
    } by {
        assert(gaps.drop_first()[k] == gaps[k + 1]);
        assert(rest[k] == tokens[k + 1]);
        if k + 1 < rest.len() {
            assert(rest[k + 1] == tokens[k + 2]);
        }
    }
}

/// Scanning written tokens gives them back.
pub proof fn lemma_read_back(tokens: Seq<SpecToken>, gaps: Seq<Seq<char>>, after_value: bool)
    requires
        fits(tokens, after_value),
        apart(tokens, gaps),
    ensures
        lex(written(tokens, gaps), 0, after_value) == Ok::<Seq<SpecToken>, SpecError>(tokens),
    decreases tokens.len(),
{
    if tokens.len() == 0 {
        assert(tokens =~= Seq::<SpecToken>::empty());
    } else {
        let t = tokens[0];
        let word = spelling(t);
        let gap = gaps[0];
        let rest = tokens.drop_first();
        let tail = written(rest, gaps.drop_first());
        let text = written(tokens, gaps);
        let n = word.len() as int;
        assert(t.wf() && !(t is Fn));
        assert(blank(gap));
        assert(text =~= word + (gap + tail));
        lemma_rest_fits(tokens, gaps, after_value);
        lemma_read_back(rest, gaps.drop_first(), ends_value(t));
        lemma_lex_gap(gap, tail, ends_value(t));
        lemma_lex_shift(word, gap + tail, 0, ends_value(t));
        // what stands right behind the word
        assert forall|k: int| 0 <= k < n implies text[k] == word[k] by {}
        if n < text.len() {
            if gap.len() > 0 {
                assert(text[n] == gap[0]);
                assert(is_blank(gap[0]));
            } else {
                assert(gap + tail =~= tail);
                assert(rest.len() > 0);
                assert(rest[0] == tokens[1]);
                assert(rest[0].wf() && !(rest[0] is Fn));
                lemma_written_starts(rest, gaps.drop_first());
                assert(text[n] == spelling(rest[0])[0]);
                assert(!merges(t, rest[0]));
            }
        }
        match t {
            SpecToken::Num(_) => {
                assert(is_digit(text[0]));
                assert forall|k: int| 1 <= k < n implies is_numeric(#[trigger] text[k]) by {
                    assert(text[k] == word[k]);
                }
                lemma_number_end_at(text, 1, n);
                assert(text.subrange(0, n) =~= word);
            },
            SpecToken::Var(_) => {
                assert(is_letter(text[0]));
                assert forall|k: int| 1 <= k < n implies is_letter(#[trigger] text[k]) by {
                    assert(text[k] == word[k]);
                }
                lemma_name_end_at(text, 1, n);
                assert(text.subrange(0, n) =~= word);
            },
            _ => {
                assert(n == 1);
                assert(symbol(text[0], after_value) == Some(t));
            },
        }
        assert(lex(text, n, ends_value(t)) == Ok::<Seq<SpecToken>, SpecError>(rest));
        assert(seq![t] + rest =~= tokens);
    }
}

/// Scanning a text made of a gap and of written tokens gives the tokens.
pub proof fn lemma_tokens_of_written(
    lead: Seq<char>,
    tokens: Seq<SpecToken>,
    gaps: Seq<Seq<char>>,
)
    requires
        blank(lead),
        fits(tokens, false),
        apart(tokens, gaps),
    ensures
        tokens_of(lead + written(tokens, gaps)) == Ok::<Seq<SpecToken>, SpecError>(tokens),
{
    lemma_lex_gap(lead, written(tokens, gaps), false);
    lemma_read_back(tokens, gaps, false);
}

} // verus!
