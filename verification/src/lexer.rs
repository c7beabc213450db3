//! The scanner: from text to tokens.
//!
//! The text is read from left to right. A digit opens a numeric literal, a
//! letter opens a name, the parentheses and the operator characters each make
//! one token, and every other character is passed over.
use vstd::prelude::*;
use crate::error::{Error, SpecError};
use crate::token::{is_digit, is_letter, is_name, is_number, is_numeric, Op, SpecToken, Token};

verus! {

/// The first position from `i` on that holds no character of a numeric
/// literal, or the length of `s` if there is none.
pub open spec fn number_end(s: Seq<char>, i: int) -> int
    decreases s.len() - i,
{
    if 0 <= i < s.len() && is_numeric(s[i]) {
        number_end(s, i + 1)
    } else {
        i
    }
}

/// The first position from `i` on that holds no letter, or the length of `s`
/// if there is none.
pub open spec fn name_end(s: Seq<char>, i: int) -> int
    decreases s.len() - i,
{
    if 0 <= i < s.len() && is_letter(s[i]) {
        name_end(s, i + 1)
    } else {
        i
    }
}

/// The run that `number_end` measures lies inside the text, holds numeric
/// characters only, and cannot be extended.
pub proof fn lemma_number_end(s: Seq<char>, i: int)
    requires
        0 <= i <= s.len(),
    ensures
        i <= number_end(s, i) <= s.len(),
        forall|k: int| i <= k < number_end(s, i) ==> is_numeric(#[trigger] s[k]),
        number_end(s, i) < s.len() ==> !is_numeric(s[number_end(s, i)]),
    decreases s.len() - i,
{
    if i < s.len() && is_numeric(s[i]) {
        lemma_number_end(s, i + 1);
    }
}

/// The run that `name_end` measures lies inside the text, holds letters only,
/// and cannot be extended.
pub proof fn lemma_name_end(s: Seq<char>, i: int)
    requires
        0 <= i <= s.len(),
    ensures
        i <= name_end(s, i) <= s.len(),
        forall|k: int| i <= k < name_end(s, i) ==> is_letter(#[trigger] s[k]),
        name_end(s, i) < s.len() ==> !is_letter(s[name_end(s, i)]),
    decreases s.len() - i,
{
    if i < s.len() && is_letter(s[i]) {
        lemma_name_end(s, i + 1);
    }
}

/// The token that a single character makes, if it makes one. A `-` is the
/// subtraction where the token before it ended a value, and the negation
/// everywhere else.
pub open spec fn symbol(c: char, after_value: bool) -> Option<SpecToken> {
    if c == '(' {
        Some(SpecToken::LP)
    } else if c == ')' {
        Some(SpecToken::RP)
    } else if c == '-' {
        if after_value {
            Some(SpecToken::Bin(Op::SUB))
        } else {
            Some(SpecToken::Una(Op::NEG))
        }
    } else if c == '+' {
        Some(SpecToken::Bin(Op::SUM))
    } else if c == '*' {
        Some(SpecToken::Bin(Op::MUL))
    } else if c == '/' {
        Some(SpecToken::Bin(Op::DIV))
    } else if c == '^' {
        Some(SpecToken::Bin(Op::EXP))
    } else if c == '!' {
        Some(SpecToken::Una(Op::FAC))
    } else {
        None
    }
}

/// Whether a token ends a value, so that a `-` right after it subtracts: a
/// number, a variable and a right parenthesis do.
pub open spec fn ends_value(t: SpecToken) -> bool {
    t is Num || t is Var || t is RP
}

/// `rest` with the tokens of `prefix` put before it; an error stays.
pub open spec fn after(
    prefix: Seq<SpecToken>,
    rest: Result<Seq<SpecToken>, SpecError>,
) -> Result<Seq<SpecToken>, SpecError> {
    match rest {
        Ok(ts) => Ok(prefix + ts),
        Err(e) => Err(e),
    }
}

/// The tokens of `s` from position `i` on, where `after_value` says whether
/// the last token before `i` ended a value.
///
/// A numeric literal runs from a digit over all digits and points that
/// follow; with more than one point it is an error that holds its text. A
/// name runs over all letters that follow, and names a function if a `(`
/// comes right behind it, a variable if not.
pub open spec fn lex(s: Seq<char>, i: int, after_value: bool) -> Result<Seq<SpecToken>, SpecError>
    decreases s.len() - i,
{
    if i < 0 || i >= s.len() {
        Ok(Seq::empty())
    } else if is_digit(s[i]) {
        proof {
            lemma_number_end(s, i + 1);
        }
        let j = number_end(s, i + 1);
        let lexeme = s.subrange(i, j);
        if is_number(lexeme) {
            after(seq![SpecToken::Num(lexeme)], lex(s, j, true))
        } else {
            Err(SpecError::Lex(lexeme))
        }
    } else if is_letter(s[i]) {
        proof {
            lemma_name_end(s, i + 1);
        }
        let j = name_end(s, i + 1);
        let name = s.subrange(i, j);
        if j < s.len() && s[j] == '(' {
            after(seq![SpecToken::Fn(name)], lex(s, j, false))
        } else {
            after(seq![SpecToken::Var(name)], lex(s, j, true))
        }
    } else {
        match symbol(s[i], after_value) {
            Some(t) => after(seq![t], lex(s, i + 1, ends_value(t))),
            None => lex(s, i + 1, after_value),
        }
    }
}

/// The tokens of a whole text.
pub open spec fn tokens_of(s: Seq<char>) -> Result<Seq<SpecToken>, SpecError> {
    lex(s, 0, false)
}

/// Whether every token of a sequence is well formed.
pub open spec fn all_wf(tokens: Seq<SpecToken>) -> bool {
    forall|k: int| 0 <= k < tokens.len() ==> (#[trigger] tokens[k]).wf()
}

/// Every token that the scanner makes is well formed: a number holds the
/// text of a number, a name holds letters, and each operator stands in a
/// token of its own arity.
pub proof fn lemma_lex_wf(s: Seq<char>, i: int, after_value: bool)
    requires
        0 <= i,
    ensures
        lex(s, i, after_value) is Ok ==> all_wf(lex(s, i, after_value)->Ok_0),
    decreases s.len() - i,
{
    if i >= s.len() {
    } else if is_digit(s[i]) {
        lemma_number_end(s, i + 1);
        let j = number_end(s, i + 1);
        if is_number(s.subrange(i, j)) {
            lemma_lex_wf(s, j, true);
        }
    } else if is_letter(s[i]) {
        lemma_name_end(s, i + 1);
        let j = name_end(s, i + 1);
        let name = s.subrange(i, j);
        assert(is_name(name)) by {
            assert forall|k: int| 0 <= k < name.len() implies is_letter(#[trigger] name[k]) by {
                assert(name[k] == s[i + k]);
            }
        }
        if j < s.len() && s[j] == '(' {
            lemma_lex_wf(s, j, false);
        } else {
            lemma_lex_wf(s, j, true);
        }
    } else {
        match symbol(s[i], after_value) {
            Some(t) => {
                lemma_lex_wf(s, i + 1, ends_value(t));
            },
            None => {
                lemma_lex_wf(s, i + 1, after_value);
            },
        }
    }
}

/// Every token of a text is well formed.
pub proof fn lemma_tokens_wf(s: Seq<char>)
    ensures
        tokens_of(s) is Ok ==> all_wf(tokens_of(s)->Ok_0),
{
    lemma_lex_wf(s, 0, false);
}

/// The mathematical content of a sequence of tokens.
pub open spec fn token_views(ts: Seq<Token>) -> Seq<SpecToken> {
    ts.map_values(|t: Token| t@)
}

/// The mathematical content of what the scanner returns.
pub open spec fn scanned(r: Result<Vec<Token>, Error>) -> Result<Seq<SpecToken>, SpecError> {
    match r {
        Ok(ts) => Ok(token_views(ts@)),
        Err(e) => Err(e@),
    }
}

proof fn lemma_after_push(
    prefix: Seq<SpecToken>,
    t: SpecToken,
    rest: Result<Seq<SpecToken>, SpecError>,
)
    ensures
        after(prefix, after(seq![t], rest)) == after(prefix.push(t), rest),
{
    if let Ok(ts) = rest {
        assert(prefix + (seq![t] + ts) =~= prefix.push(t) + ts);
    }
}

/// The content of a sequence with one more token is the content of the
/// sequence with the content of the token.
pub proof fn lemma_token_views_push(ts: Seq<Token>, t: Token)
    ensures
        token_views(ts.push(t)) == token_views(ts).push(t@),
{
    assert(token_views(ts.push(t)) =~= token_views(ts).push(t@));
}

fn digit(c: char) -> (b: bool)
    ensures
        b == is_digit(c),
{
    '0' <= c && c <= '9'
}

fn letter(c: char) -> (b: bool)
    ensures
        b == is_letter(c),
{
    ('a' <= c && c <= 'z') || ('A' <= c && c <= 'Z')
}

/// The characters of a text, in order.
fn chars_of(text: &str) -> (chars: Vec<char>)
    ensures
        chars@ == text@,
{
    let mut chars: Vec<char> = Vec::new();
    let it = text.chars();
    for c in iter: it
        invariant
            chars@ == iter.seq().take(iter.index()),
            iter.seq() == text@,
    {
        chars.push(c);
    }
    chars
}

/// The text that the characters from `from` up to `to` spell.
fn text_of(chars: &Vec<char>, from: usize, to: usize) -> (text: String)
    requires
        from <= to <= chars.len(),
    ensures
        text@ == chars@.subrange(from as int, to as int),
{
    let mut text = String::new();
    let mut i: usize = from;
    while i < to
        invariant
            from <= i <= to <= chars.len(),
            text@ == chars@.subrange(from as int, i as int),
        decreases to - i,
    {
        text.push(chars[i]);
        i += 1;
        assert(chars@.subrange(from as int, i as int) =~= chars@.subrange(
            from as int,
            i as int - 1,
        ).push(chars@[i as int - 1]));
    }
    text
}

/// Reads the numeric literal that starts at `*pos` and moves `*pos` behind it.
fn get_literal(chars: &Vec<char>, pos: &mut usize) -> (r: Result<Token, Error>)
    requires
        *old(pos) < chars.len(),
        is_digit(chars@[*old(pos) as int]),
    ensures
        *final(pos) == number_end(chars@, *old(pos) + 1),
        ({
            let lexeme = chars@.subrange(*old(pos) as int, *final(pos) as int);
            if is_number(lexeme) {
                r is Ok && r->Ok_0@ == SpecToken::Num(lexeme)
            } else {
                r is Err && r->Err_0@ == SpecError::Lex(lexeme)
            }
        }),
{
    let start: usize = *pos;
    let mut end: usize = start + 1;
    let mut points: usize = 0;
    let ghost mut first: int = 0;
    let ghost mut second: int = 0;
    while end < chars.len() && (digit(chars[end]) || chars[end] == '.')
        invariant
            start < end <= chars.len(),
            is_digit(chars@[start as int]),
            number_end(chars@, start + 1) == number_end(chars@, end as int),
            forall|k: int| start <= k < end ==> is_numeric(#[trigger] chars@[k]),
            points <= end - start,
            points == 0 ==> forall|k: int| start <= k < end ==> #[trigger] chars@[k] != '.',
            points == 1 ==> start <= first < end && chars@[first] == '.' && forall|k: int|
                start <= k < end && k != first ==> #[trigger] chars@[k] != '.',
            points >= 2 ==> start <= first < second < end && chars@[first] == '.' && chars@[second]
                == '.',
        decreases chars.len() - end,
    {
        if chars[end] == '.' {
            proof {
                if points == 0 {
                    first = end as int;
                } else if points == 1 {
                    second = end as int;
                }
            }
            points += 1;
        }
        end += 1;
    }
    let text = text_of(chars, start, end);
    *pos = end;
    proof {
        let lexeme = chars@.subrange(start as int, end as int);
        assert(forall|k: int| 0 <= k < lexeme.len() ==> lexeme[k] == chars@[start + k]);
        if points >= 2 {
            assert(lexeme[first - start] == '.' && lexeme[second - start] == '.');
        }
    }
    if points <= 1 {
        Ok(Token::Num(text))
    } else {
        Err(Error::Lex(text))
    }
}

/// Reads the name that starts at `*pos` and moves `*pos` behind it. The name
/// is that of a function if a `(` follows it at once.
fn get_ident(chars: &Vec<char>, pos: &mut usize) -> (t: Token)
    requires
        *old(pos) < chars.len(),
        is_letter(chars@[*old(pos) as int]),
    ensures
        *final(pos) == name_end(chars@, *old(pos) + 1),
        ({
            let name = chars@.subrange(*old(pos) as int, *final(pos) as int);
            if *final(pos) < chars.len() && chars@[*final(pos) as int] == '(' {
                t@ == SpecToken::Fn(name)
            } else {
                t@ == SpecToken::Var(name)
            }
        }),
{
    let start: usize = *pos;
    let mut end: usize = start + 1;
    while end < chars.len() && letter(chars[end])
        invariant
            start < end <= chars.len(),
            name_end(chars@, start + 1) == name_end(chars@, end as int),
        decreases chars.len() - end,
    {
        end += 1;
    }
    let lexeme = text_of(chars, start, end);
    *pos = end;
    let is_fn = end < chars.len() && chars[end] == '(';
    match is_fn {
        true => Token::Fn(lexeme),
        false => Token::Var(lexeme),
    }
}

/// Scans a text into its tokens.
///
/// Digits open a numeric literal and letters a name; `(` and `)` and the
/// operator characters `+ - * / ^ !` each make one token; everything else,
/// white space included, is passed over. A `-` subtracts right after a
/// number, a variable or a `)`, and negates elsewhere. The only error is a
/// numeric literal with more than one point.
///
/// For the text `1 + 2` the tokens are `Num("1")`, `Bin(SUM)`, `Num("2")`.
pub fn tokenize(expr: &str) -> (r: Result<Vec<Token>, Error>)
    ensures
        scanned(r) == tokens_of(expr@),
        r is Ok ==> all_wf(token_views(r->Ok_0@)),
{
    proof {
        lemma_tokens_wf(expr@);
    }
    let chars = chars_of(expr);
    let mut tokens: Vec<Token> = Vec::new();
    let mut pos: usize = 0;
    let mut is_sub: bool = false;
    while pos < chars.len()
        invariant
            pos <= chars.len(),
            chars@ == expr@,
            tokens_of(expr@) == after(token_views(tokens@), lex(chars@, pos as int, is_sub)),
        decreases chars.len() - pos,
    {
        let c = chars[pos];
        let ghost before = token_views(tokens@);
        let ghost here = pos as int;
        if digit(c) {
            proof {
                lemma_number_end(chars@, here + 1);
            }
            match get_literal(&chars, &mut pos) {
                Ok(token) => {
                    proof {
                        lemma_after_push(before, token@, lex(chars@, pos as int, true));
                        lemma_token_views_push(tokens@, token);
                    }
                    tokens.push(token);
                },
                Err(e) => {
                    return Err(e);
                },
            }
            is_sub = true;
        } else if letter(c) {
            proof {
                lemma_name_end(chars@, here + 1);
            }
            let token = get_ident(&chars, &mut pos);
            let names_variable = matches!(token, Token::Var(_));
            proof {
                lemma_after_push(before, token@, lex(chars@, pos as int, names_variable));
                lemma_token_views_push(tokens@, token);
            }
            tokens.push(token);
            is_sub = names_variable;
        } else {
            let token = if c == '(' {
                Some(Token::LP)
            } else if c == ')' {
                Some(Token::RP)
            } else if c == '-' {
                if is_sub {
                    Some(Token::Bin(Op::SUB))
                } else {
                    Some(Token::Una(Op::NEG))
                }
            } else if c == '+' || c == '*' || c == '/' || c == '^' {
                match Op::from_char(c) {
                    Ok(op) => Some(Token::Bin(op)),
                    Err(_) => None,
                }
            } else if c == '!' {
                Some(Token::Una(Op::FAC))
            } else {
                None
            };
            pos += 1;
            if let Some(token) = token {
                let value_ended = matches!(token, Token::RP);
                proof {
                    assert(symbol(c, is_sub) == Some(token@));
                    lemma_after_push(before, token@, lex(chars@, pos as int, value_ended));
                    lemma_token_views_push(tokens@, token);
                }
                tokens.push(token);
                is_sub = value_ended;
            } else {
                assert(symbol(c, is_sub) is None);
            }
        }
    }
    assert(token_views(tokens@) + Seq::<SpecToken>::empty() =~= token_views(tokens@));
    Ok(tokens)
}

} // verus!
