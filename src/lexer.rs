use vstd::prelude::*;
use vstd::string::StrSliceExecFns;

use crate::error::{ParsingErr, ParsingErrV};
use crate::text::{all_letters, char_vec, is_digit, is_letter, parse_i32, parse_i32_spec};
use crate::types::{tokens_view, Token, TokenV};

verus! {

/// The kind of run the tokenizer is in the middle of.
#[derive(Debug, Clone, Copy, PartialEq, Eq, Structural)]
pub enum State {
    Whitespace,
    ParsingNumber,
    ParsingVariable,
}

pub open spec fn is_operator_char(c: char) -> bool {
    c == '+' || c == '-' || c == '*' || c == '^' || c == '(' || c == ')'
}

pub open spec fn is_space(c: char) -> bool {
    c == ' ' || c == '\n'
}

/// The token that a finished run of characters stands for.
pub open spec fn token_of(buf: Seq<char>) -> Result<TokenV, ParsingErrV> {
    match parse_i32_spec(buf) {
        Some(v) => Ok(TokenV::Number(v)),
        None => if all_letters(buf) {
            Ok(TokenV::Variable(buf))
        } else {
            Err(ParsingErrV::UnrecognizedExpression(buf))
        },
    }
}

/// `toks` with the token of the pending run `buf` appended, if `buf` is not empty.
pub open spec fn flush(toks: Seq<TokenV>, buf: Seq<char>) -> Result<Seq<TokenV>, ParsingErrV> {
    if buf.len() == 0 {
        Ok(toks)
    } else {
        match token_of(buf) {
            Ok(t) => Ok(toks.push(t)),
            Err(e) => Err(e),
        }
    }
}

/// The tokenizer's configuration: its state, the pending run, the tokens so far.
pub type LexConfig = (State, Seq<char>, Seq<TokenV>);

/// One character of input consumed by the tokenizer.
pub open spec fn lex_step(cfg: LexConfig, c: char) -> Result<LexConfig, ParsingErrV> {
    let (state, buf, toks) = cfg;
    if is_operator_char(c) {
        match flush(toks, buf) {
            Ok(t) => Ok((state, Seq::empty(), t.push(TokenV::Operator(c)))),
            Err(e) => Err(e),
        }
    } else if is_letter(c) {
        if state == State::ParsingVariable {
            Ok((state, buf.push(c), toks))
        } else {
            match flush(toks, buf) {
                Ok(t) => Ok((State::ParsingVariable, seq![c], t)),
                Err(e) => Err(e),
            }
        }
    } else if is_digit(c) {
        if state == State::ParsingNumber {
            Ok((state, buf.push(c), toks))
        } else {
            match flush(toks, buf) {
                Ok(t) => Ok((State::ParsingNumber, seq![c], t)),
                Err(e) => Err(e),
            }
        }
    } else if is_space(c) {
        match flush(toks, buf) {
            Ok(t) => Ok((State::Whitespace, Seq::empty(), t)),
            Err(e) => Err(e),
        }
    } else {
        Err(ParsingErrV::ExpressionParsing)
    }
}

/// The tokenizer's configuration after consuming all of `s`, or its first failure.
pub open spec fn lex_prefix(s: Seq<char>) -> Result<LexConfig, ParsingErrV>
    decreases s.len(),
{
    if s.len() == 0 {
        Ok((State::Whitespace, Seq::empty(), Seq::empty()))
    } else {
        match lex_prefix(s.drop_last()) {
            Ok(cfg) => lex_step(cfg, s.last()),
            Err(e) => Err(e),
        }
    }
}

/// The tokens of an expression text, or the first failure in it.
pub open spec fn tokenize_spec(s: Seq<char>) -> Result<Seq<TokenV>, ParsingErrV> {
    match lex_prefix(s) {
        Ok((_, buf, toks)) => flush(toks, buf),
        Err(e) => Err(e),
    }
}

pub open spec fn token_result(r: Result<Token, ParsingErr>) -> Result<TokenV, ParsingErrV> {
    match r {
        Ok(t) => Ok(t@),
        Err(e) => Err(e@),
    }
}

pub open spec fn tokens_result(r: Result<Vec<Token>, ParsingErr>) -> Result<
    Seq<TokenV>,
    ParsingErrV,
> {
    match r {
        Ok(t) => Ok(tokens_view(t@)),
        Err(e) => Err(e@),
    }
}

/// A failure part way through stays the failure of the whole text.
proof fn lemma_lex_error_persists(s: Seq<char>, k: int)
    requires
        0 <= k <= s.len(),
        lex_prefix(s.take(k)) is Err,
    ensures
        lex_prefix(s) == lex_prefix(s.take(k)),
    decreases s.len() - k,
{
    if k < s.len() {
        assert(s.take(k + 1).drop_last() =~= s.take(k));
        lemma_lex_error_persists(s, k + 1);
    } else {
        assert(s.take(k) =~= s);
    }
}

pub fn matchWhitespace(character: char) -> (r: bool)
    ensures
        r == is_space(character),
{
    match character {
        ' ' => true,
        '\n' => true,
        _ => false,
    }
}

fn is_ascii_letter(c: char) -> (r: bool)
    ensures
        r == is_letter(c),
{
    ('a' <= c && c <= 'z') || ('A' <= c && c <= 'Z')
}

fn all_ascii_letters(s: &str) -> (r: bool)
    ensures
        r == all_letters(s@),
{
    let chars = char_vec(s);
    let mut i: usize = 0;
    while i < chars.len()
        invariant
            chars@ == s@,
            i <= chars.len(),
            all_letters(s@.take(i as int)),
        decreases chars.len() - i,
    {
        if !is_ascii_letter(chars[i]) {
            assert(!is_letter(s@[i as int]));
            return false;
        }
        assert(s@.take(i as int + 1) =~= s@.take(i as int).push(chars[i as int]));
        i = i + 1;
    }
    assert(s@.take(i as int) =~= s@);
    true
}

/// The token for a finished run: a number if it is one, a name if it is all
/// letters, and otherwise an unrecognised expression.
pub fn parseToken(input: String) -> (r: Result<Token, ParsingErr>)
    ensures
        token_result(r) == token_of(input@),
{
    match parse_i32(input.as_str()) {
        Ok(num) => Ok(Token::Number(num)),
        Err(_) => {
            if all_ascii_letters(input.as_str()) {
                Ok(Token::Variable(input))
            } else {
                Err(ParsingErr::UnrecognizedExpression(input))
            }
        },
    }
}

/// Appends the token of the run `input[start..end]` to `tokens`, if the run is not empty.
fn createToken(input: &str, tokens: &mut Vec<Token>, start: usize, end: usize) -> (r: Result<
    (),
    ParsingErr,
>)
    requires
        start <= end <= input@.len(),
    ensures
        match flush(tokens_view(old(tokens)@), input@.subrange(start as int, end as int)) {
            Ok(t) => r is Ok && tokens_view(final(tokens)@) == t,
            Err(e) => r matches Err(x) && x@ == e,
        },
{
    if start < end {
        let piece = input.substring_char(start, end).to_owned();
        match parseToken(piece) {
            Ok(t) => {
                tokens.push(t);
                proof {
                    assert(tokens_view(final(tokens)@) =~= tokens_view(old(tokens)@).push(t@));
                }
                Ok(())
            },
            Err(e) => Err(e),
        }
    } else {
        Ok(())
    }
}

/// Splits an expression text into tokens: runs of digits, runs of letters,
/// and single operator characters, separated by spaces and newlines.
pub fn tokenizeExpression(input: String) -> (r: Result<Vec<Token>, ParsingErr>)
    ensures
        tokens_result(r) == tokenize_spec(input@),
{
    let chars = char_vec(input.as_str());
    let n = chars.len();
    let mut tokens: Vec<Token> = Vec::new();
    let mut state = State::Whitespace;
    let mut start: usize = 0;
    let mut i: usize = 0;
    proof {
        assert(input@.take(0) =~= Seq::<char>::empty());
        assert(input@.subrange(0, 0) =~= Seq::<char>::empty());
        assert(tokens_view(tokens@) =~= Seq::<TokenV>::empty());
    }
    while i < n
        invariant
            chars@ == input@,
            n == input@.len(),
            start <= i <= n,
            lex_prefix(input@.take(i as int)) == Ok::<LexConfig, ParsingErrV>(
                (state, input@.subrange(start as int, i as int), tokens_view(tokens@)),
            ),
        decreases n - i,
    {
        let c = chars[i];
        let ghost s = input@;
        let ghost cfg: LexConfig = (state, s.subrange(start as int, i as int), tokens_view(tokens@));
        proof {
            assert(s.take(i + 1).drop_last() =~= s.take(i as int));
            assert(s.take(i + 1).last() == c);
        }
        if c == '+' || c == '-' || c == '*' || c == '^' || c == '(' || c == ')' {
            match createToken(input.as_str(), &mut tokens, start, i) {
                Ok(()) => {},
                Err(e) => {
                    proof {
                        lemma_lex_error_persists(s, i + 1);
                    }
                    return Err(e);
                },
            }
            tokens.push(Token::Operator(c));
            proof {
                let t = flush(cfg.2, cfg.1)->Ok_0;
                assert(tokens_view(tokens@) =~= t.push(TokenV::Operator(c)));
            }
            start = i + 1;
        } else if is_ascii_letter(c) {
            if state != State::ParsingVariable {
                match createToken(input.as_str(), &mut tokens, start, i) {
                    Ok(()) => {},
                    Err(e) => {
                        proof {
                            lemma_lex_error_persists(s, i + 1);
                        }
                        return Err(e);
                    },
                }
                state = State::ParsingVariable;
                start = i;
            }
        } else if '0' <= c && c <= '9' {
            if state != State::ParsingNumber {
                match createToken(input.as_str(), &mut tokens, start, i) {
                    Ok(()) => {},
                    Err(e) => {
                        proof {
                            lemma_lex_error_persists(s, i + 1);
                        }
                        return Err(e);
                    },
                }
                state = State::ParsingNumber;
                start = i;
            }
        } else if matchWhitespace(c) {
            state = State::Whitespace;
            match createToken(input.as_str(), &mut tokens, start, i) {
                Ok(()) => {},
                Err(e) => {
                    proof {
                        lemma_lex_error_persists(s, i + 1);
                    }
                    return Err(e);
                },
            }
            start = i + 1;
        } else {
            proof {
                lemma_lex_error_persists(s, i + 1);
            }
            return Err(ParsingErr::ExpressionParsing);
        }
        proof {
            assert(s.subrange(start as int, i + 1) =~= if start == i + 1 {
                Seq::<char>::empty()
            } else if start == i {
                seq![c]
            } else {
                s.subrange(start as int, i as int).push(c)
            });
        }
        i = i + 1;
    }
    proof {
        assert(input@.take(n as int) =~= input@);
    }
    match createToken(input.as_str(), &mut tokens, start, n) {
        Ok(()) => Ok(tokens),
        Err(e) => Err(e),
    }
}

} // verus!
