//! A front-to-back pipeline for a small scripting language: a tokenizer,
//! a recursive-descent parser producing a span-tagged syntax tree, and a
//! tree-walking evaluator. Token spans index raw source bytes; syntax-node
//! spans index the token sequence; every diagnostic of any stage resolves
//! to a concrete byte range of the original source. Each stage is proved
//! equal to a reference definition stated as specification functions.
use vstd::prelude::*;

pub mod ast;
pub mod diag;
pub mod interp;
pub mod laws;
pub mod lexer;
pub mod parser;
pub mod span;
pub mod token;

use crate::ast::{view_stmts, SpStmt};
use crate::diag::{error_diag, mk_error_diag, view_diag, view_diags, Diag};
use crate::interp::{empty_env, run_stmts, run_stmts_m, view_env, Env};
use crate::lexer::{lex_diags, lex_toks};
use crate::parser::p_program;
use crate::span::{Span, Spanned};
use crate::token::{view_toks, TokSp, Token};

verus! {

/// Tokenizes raw source bytes: the ordered span-tagged token sequence
/// and the lexical diagnostics. Tokenizing never aborts, so the token
/// list is always present; a single pass surfaces every lexical
/// problem.
pub fn lex(src: &[u8]) -> (r: (Option<Vec<Spanned<Token>>>, Vec<Diag>))
    ensures
        r.0 is Some,
        view_toks(r.0->0@) == lex_toks(src@),
        view_diags(r.1@) == lex_diags(src@),
{
    let (toks, diags) = crate::lexer::lexer(src);
    (Some(toks), diags)
}

/// Parses the token sequence: the ordered top-level statement sequence
/// and the syntax diagnostics. Recovery always yields a node list, so
/// it is always present; diagnostics are anchored to source byte
/// ranges through the offending token's span.
pub fn parse(toks: &Vec<Spanned<Token>>) -> (r: (Option<Vec<SpStmt>>, Vec<Diag>))
    ensures
        r.0 is Some,
        view_stmts(r.0->0@) == p_program(view_toks(toks@), 0).0,
        view_diags(r.1@) == p_program(view_toks(toks@), 0).1,
{
    let (stmts, diags) = crate::parser::parser(toks);
    (Some(stmts), diags)
}

/// The byte range of the original source that a token-index span
/// covers, computed at diagnostic-construction time; a span that does
/// not index the token sequence becomes the empty range.
pub open spec fn token_byte_span(ts: Seq<TokSp>, sp: Span) -> Span {
    if sp.start < sp.end && sp.end <= ts.len() {
        Span { start: ts[sp.start as int].span.start, end: ts[sp.end - 1].span.end }
    } else {
        Span { start: 0, end: 0 }
    }
}

fn token_byte_span_x(toks: &Vec<Spanned<Token>>, sp: Span) -> (r: Span)
    ensures
        r == token_byte_span(view_toks(toks@), sp),
{
    if sp.start < sp.end && sp.end <= toks.len() {
        Span { start: toks[sp.start].span.start, end: toks[sp.end - 1].span.end }
    } else {
        Span { start: 0, end: 0 }
    }
}

/// Evaluates the parsed top-level sequence against a fresh
/// environment. On success the mutated environment (bindings and
/// output buffer) comes back whole; the first fatal runtime error
/// halts execution and comes back as one diagnostic anchored at the
/// source byte range that its node's token indices cover.
pub fn interp(toks: &Vec<Spanned<Token>>, prog: &Vec<SpStmt>) -> (r: Result<Env, Diag>)
    ensures
        match run_stmts_m(empty_env(), view_stmts(prog@)) {
            Ok(em) => r is Ok && view_env(r->Ok_0) == em,
            Err(er) => r is Err && view_diag(r->Err_0) == error_diag(
                er.message,
                token_byte_span(view_toks(toks@), er.span),
            ),
        },
{
    let mut env = Env::default();
    match run_stmts(&mut env, prog) {
        Ok(_) => Ok(env),
        Err(er) => Err(mk_error_diag(er.message, token_byte_span_x(toks, er.span))),
    }
}

} // verus!
