use vstd::prelude::*;
use crate::span::Span;

verus! {

/// The closed set of lexical error kinds.
#[derive(Clone, Copy, PartialEq, Eq, Structural, Debug)]
pub enum LexErr {
    IntegerOverflow,
    InvalidStringEscape,
}

/// Keywords, operators and punctuation: the token forms that carry no
/// payload of their own.
#[derive(Clone, Copy, PartialEq, Eq, Structural, Debug)]
pub enum Sym {
    // keywords
    Let,
    If,
    Else,
    Print,
    True,
    False,
    While,
    For,
    // operators
    Plus,
    PlusEq,
    Minus,
    MinusEq,
    Star,
    StarEq,
    Slash,
    SlashEq,
    Eq,
    Bang,
    EqEq,
    Ne,
    Gt,
    Ge,
    Lt,
    Le,
    Tilde,
    Pipe,
    PipeEq,
    And,
    AndEq,
    Caret,
    CaretEq,
    Question,
    Percent,
    PercentEq,
    Shl,
    ShlEq,
    Shr,
    ShrEq,
    // punctuation
    LeftBrace,
    RightBrace,
    LeftBracket,
    RightBracket,
    LeftParen,
    RightParen,
    Comma,
    Semi,
}

/// A token of the source language. Identifier and string payloads hold
/// raw bytes of source text (strings fully escape-decoded).
#[derive(Clone, PartialEq, Eq, Debug)]
pub enum Token {
    Ident(Vec<u8>),
    Number(i64),
    Str(Vec<u8>),
    Sym(Sym),
    Error(LexErr),
}

/// Mathematical model of a token: payloads as sequences.
pub enum TokM {
    Ident(Seq<u8>),
    Number(i64),
    Str(Seq<u8>),
    Sym(Sym),
    Error(LexErr),
}

pub open spec fn view_tok(t: Token) -> TokM {
    match t {
        Token::Ident(b) => TokM::Ident(b@),
        Token::Number(n) => TokM::Number(n),
        Token::Str(b) => TokM::Str(b@),
        Token::Sym(s) => TokM::Sym(s),
        Token::Error(e) => TokM::Error(e),
    }
}

/// Model of a span-tagged token.
pub struct TokSp {
    pub tok: TokM,
    pub span: Span,
}

pub open spec fn view_sptok(t: crate::span::Spanned<Token>) -> TokSp {
    TokSp { tok: view_tok(t.node), span: t.span }
}

pub open spec fn view_toks(ts: Seq<crate::span::Spanned<Token>>) -> Seq<TokSp> {
    ts.map_values(|t: crate::span::Spanned<Token>| view_sptok(t))
}

} // verus!

verus! {

/// Copies a byte vector; payloads of tokens are plain bytes.
pub fn copy_bytes(w: &Vec<u8>) -> (r: Vec<u8>)
    ensures
        r@ == w@,
{
    let mut r: Vec<u8> = Vec::new();
    let mut k: usize = 0;
    while k < w.len()
        invariant
            k <= w.len(),
            r@ =~= w@.subrange(0, k as int),
        decreases w.len() - k,
    {
        r.push(w[k]);
        proof {
            assert(r@ =~= w@.subrange(0, k as int + 1));
        }
        k = k + 1;
    }
    proof {
        assert(r@ =~= w@);
    }
    r
}

/// Whether a token is exactly the given keyword, operator or
/// punctuation form.
pub fn is_sym(t: &Token, s: Sym) -> (r: bool)
    ensures
        r == (view_tok(*t) == TokM::Sym(s)),
{
    match t {
        Token::Sym(x) => *x == s,
        _ => false,
    }
}

} // verus!
