use vstd::prelude::*;

use crate::parser::{digits_end, echo_word, kw_match, lemma_digits_end_bounds, lemma_kw_match_bounds, lemma_ws_end_bounds, ws_end};
use crate::text::{chars_of, is_digit, is_digit_char, is_ws, is_ws_char};

verus! {

/// A classified lexical unit. `Int` and `Str` carry the text they matched
/// (a string token with its quotes).
#[derive(Debug, Clone)]
pub enum Token {
    OpAdd,
    OpSub,
    OpMul,
    OpDiv,
    ParenBegin,
    ParenEnd,
    Int(String),
    Quote,
    Str(String),
    ExpectedWS,
    KwEcho,
    Error,
}

/// The mathematical value of a [`Token`].
pub enum TokenV {
    OpAdd,
    OpSub,
    OpMul,
    OpDiv,
    ParenBegin,
    ParenEnd,
    Int(Seq<char>),
    Quote,
    Str(Seq<char>),
    ExpectedWS,
    KwEcho,
    Error,
}

impl View for Token {
    type V = TokenV;

    open spec fn view(&self) -> TokenV {
        match self {
            Token::OpAdd => TokenV::OpAdd,
            Token::OpSub => TokenV::OpSub,
            Token::OpMul => TokenV::OpMul,
            Token::OpDiv => TokenV::OpDiv,
            Token::ParenBegin => TokenV::ParenBegin,
            Token::ParenEnd => TokenV::ParenEnd,
            Token::Int(t) => TokenV::Int(t@),
            Token::Quote => TokenV::Quote,
            Token::Str(t) => TokenV::Str(t@),
            Token::ExpectedWS => TokenV::ExpectedWS,
            Token::KwEcho => TokenV::KwEcho,
            Token::Error => TokenV::Error,
        }
    }
}

impl PartialEq for Token {
    fn eq(&self, o: &Token) -> (r: bool) {
        match (self, o) {
            (Token::OpAdd, Token::OpAdd) => true,
            (Token::OpSub, Token::OpSub) => true,
            (Token::OpMul, Token::OpMul) => true,
            (Token::OpDiv, Token::OpDiv) => true,
            (Token::ParenBegin, Token::ParenBegin) => true,
            (Token::ParenEnd, Token::ParenEnd) => true,
            (Token::Int(a), Token::Int(b)) => *a == *b,
            (Token::Quote, Token::Quote) => true,
            (Token::Str(a), Token::Str(b)) => *a == *b,
            (Token::ExpectedWS, Token::ExpectedWS) => true,
            (Token::KwEcho, Token::KwEcho) => true,
            (Token::Error, Token::Error) => true,
            _ => false,
        }
    }
}

impl vstd::std_specs::cmp::PartialEqSpecImpl for Token {
    open spec fn obeys_eq_spec() -> bool {
        true
    }

    open spec fn eq_spec(&self, o: &Token) -> bool {
        self@ == o@
    }
}

/// A character that may stand inside a string token.
pub open spec fn is_str_char(c: char) -> bool {
    ('a' <= c && c <= 'z') || ('A' <= c && c <= 'Z') || is_digit(c) || c == '|' || is_ws(c)
}

/// The end of the run of string characters that starts at `i`.
pub open spec fn str_body_end(s: Seq<char>, i: int) -> int
    decreases s.len() - i,
{
    if 0 <= i < s.len() && is_str_char(s[i]) {
        str_body_end(s, i + 1)
    } else {
        i
    }
}

/// The token at offset `i < s.len()`, and the offset just past it: the longest
/// match, where a complete string beats a lone quote and a lone character that
/// no rule accepts is an error token.
pub open spec fn token_at(s: Seq<char>, i: int) -> (TokenV, int) {
    let c = s[i];
    if c == '+' {
        (TokenV::OpAdd, i + 1)
    } else if c == '-' {
        (TokenV::OpSub, i + 1)
    } else if c == '*' {
        (TokenV::OpMul, i + 1)
    } else if c == '/' {
        (TokenV::OpDiv, i + 1)
    } else if c == '(' {
        (TokenV::ParenBegin, i + 1)
    } else if c == ')' {
        (TokenV::ParenEnd, i + 1)
    } else if is_digit(c) {
        (TokenV::Int(s.subrange(i, digits_end(s, i))), digits_end(s, i))
    } else if c == '"' {
        let q = str_body_end(s, i + 1);
        if q < s.len() && s[q] == '"' {
            (TokenV::Str(s.subrange(i, q + 1)), q + 1)
        } else {
            (TokenV::Quote, i + 1)
        }
    } else if is_ws(c) {
        (TokenV::ExpectedWS, ws_end(s, i))
    } else if kw_match(s, i, 0) == 4 {
        (TokenV::KwEcho, i + 4)
    } else {
        (TokenV::Error, i + 1)
    }
}

/// A token that no rule accepts, at this character offset.
#[derive(Debug, Clone, Copy, PartialEq, Eq, Structural, PartialOrd, Ord)]
pub enum LexicalError {
    InvalidToken { at: usize },
}

/// A lexer over one source text, producing `(start, token, end)` triples one at a
/// time; an error token comes out as `Err` and scanning goes on after it.
pub struct Lexer<'a> {
    src: &'a str,
    chars: Vec<char>,
    pos: usize,
}

/// The mathematical value of a [`Lexer`]: the source and the offset reached.
pub struct LexerV {
    pub src: Seq<char>,
    pub pos: int,
}

impl<'a> View for Lexer<'a> {
    type V = LexerV;

    closed spec fn view(&self) -> LexerV {
        LexerV { src: self.src@, pos: self.pos as int }
    }
}

fn str_body_end_exec(s: &Vec<char>, i: usize) -> (r: usize)
    requires
        i <= s.len(),
    ensures
        r == str_body_end(s@, i as int),
        i <= r <= s.len(),
{
    let mut j = i;
    while j < s.len() && (('a' <= s[j] && s[j] <= 'z') || ('A' <= s[j] && s[j] <= 'Z') || is_digit_char(s[j])
        || s[j] == '|' || is_ws_char(s[j]))
        invariant
            i <= j <= s.len(),
            str_body_end(s@, j as int) == str_body_end(s@, i as int),
        decreases s.len() - j,
    {
        j += 1;
    }
    j
}

impl<'a> Lexer<'a> {
    pub closed spec fn inv(&self) -> bool {
        &&& self.chars@ == self.src@
        &&& self.pos <= self.chars@.len()
    }

    /// A lexer at the start of `src`.
    pub fn new(src: &'a str) -> (r: Lexer<'a>)
        ensures
            r.inv(),
            r@.src == src@,
            r@.pos == 0,
            0 <= r@.pos <= r@.src.len(),
    {
        Lexer { src, chars: chars_of(src), pos: 0 }
    }

    /// The next token, or `None` at the end of the source.
    pub fn next(&mut self) -> (r: Option<Result<(usize, Token, usize), LexicalError>>)
        requires
            old(self).inv(),
        ensures
            final(self).inv(),
            final(self)@.src == old(self)@.src,
            0 <= final(self)@.pos <= final(self)@.src.len(),
            old(self)@.pos < old(self)@.src.len() ==> old(self)@.pos < final(self)@.pos,
            old(self)@.pos >= old(self)@.src.len() ==> r is None && final(self)@.pos == old(self)@.pos,
            old(self)@.pos < old(self)@.src.len() ==> ({
                let (tv, e) = token_at(old(self)@.src, old(self)@.pos);
                &&& final(self)@.pos == e
                &&& match r {
                    Some(Ok((st, t, en))) => tv != TokenV::Error && st == old(self)@.pos && en == e && t@ == tv,
                    Some(Err(x)) => tv == TokenV::Error && x == LexicalError::InvalidToken { at: old(self)@.pos as usize },
                    None => false,
                }
            }),
    {
        let s = &self.chars;
        let i = self.pos;
        if i >= s.len() {
            return None;
        }
        let c = s[i];
        let (t, e): (Token, usize) = if c == '+' {
            (Token::OpAdd, i + 1)
        } else if c == '-' {
            (Token::OpSub, i + 1)
        } else if c == '*' {
            (Token::OpMul, i + 1)
        } else if c == '/' {
            (Token::OpDiv, i + 1)
        } else if c == '(' {
            (Token::ParenBegin, i + 1)
        } else if c == ')' {
            (Token::ParenEnd, i + 1)
        } else if is_digit_char(c) {
            proof {
                lemma_digits_end_bounds(s@, i as int);
            }
            let mut d = i;
            while d < s.len() && is_digit_char(s[d])
                invariant
                    i <= d <= s.len(),
                    digits_end(s@, d as int) == digits_end(s@, i as int),
                decreases s.len() - d,
            {
                d += 1;
            }
            (Token::Int(self.src.substring_char(i, d).to_owned()), d)
        } else if c == '"' {
            let q = str_body_end_exec(s, i + 1);
            if q < s.len() && s[q] == '"' {
                (Token::Str(self.src.substring_char(i, q + 1).to_owned()), q + 1)
            } else {
                (Token::Quote, i + 1)
            }
        } else if is_ws_char(c) {
            proof {
                lemma_ws_end_bounds(s@, i as int);
            }
            let mut w = i;
            while w < s.len() && is_ws_char(s[w])
                invariant
                    i <= w <= s.len(),
                    ws_end(s@, w as int) == ws_end(s@, i as int),
                decreases s.len() - w,
            {
                w += 1;
            }
            (Token::ExpectedWS, w)
        } else {
            let word = ['e', 'c', 'h', 'o'];
            let mut k: usize = 0;
            while k < 4 && k < s.len() - i && s[i + k] == word[k]
                invariant
                    0 <= k <= 4,
                    i <= s.len(),
                    word@ == echo_word(),
                    kw_match(s@, i as int, k as int) == kw_match(s@, i as int, 0),
                decreases 4 - k,
            {
                k += 1;
            }
            proof {
                lemma_kw_match_bounds(s@, i as int, 0);
            }
            if k == 4 {
                (Token::KwEcho, i + 4)
            } else {
                (Token::Error, i + 1)
            }
        };
        self.pos = e;
        match t {
            Token::Error => Some(Err(LexicalError::InvalidToken { at: i })),
            _ => Some(Ok((i, t, e))),
        }
    }
}

} // verus!
