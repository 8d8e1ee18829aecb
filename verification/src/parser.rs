use vstd::prelude::*;
use crate::ast::{
    view_spexpr, view_spstmt, view_stmts, BinOp, Expr, ExprM, Lit, LitM, SpExpr, SpExprM, SpStmt,
    SpStmtM, Stmt, StmtM,
};
use crate::diag::{error_diag, mk_error_diag, view_diag, view_diags, Diag, DiagM, DiagMsg};
use crate::lexer::mk_span;
use crate::span::{Span, Spanned};
use crate::token::{view_tok, view_toks, Sym, TokM, TokSp, Token};

verus! {

// ---------------------------------------------------------------------
// The reference parse: recursive descent over token kinds. Statement
// spans index the token sequence; diagnostics are anchored to byte
// ranges of the original source through the offending token's span.
// ---------------------------------------------------------------------

/// The binary operator a token denotes in an infix position, if any.
pub open spec fn bin_op_of(t: TokM) -> Option<BinOp> {
    match t {
        TokM::Sym(s) => match s {
            Sym::Plus => Some(BinOp::Add),
            Sym::Minus => Some(BinOp::Sub),
            Sym::Star => Some(BinOp::Mul),
            Sym::Slash => Some(BinOp::Div),
            Sym::Gt => Some(BinOp::Gt),
            Sym::Ge => Some(BinOp::Ge),
            Sym::Lt => Some(BinOp::Lt),
            Sym::Le => Some(BinOp::Le),
            Sym::Eq => Some(BinOp::Eq),
            Sym::Ne => Some(BinOp::Ne),
            _ => None,
        },
        _ => None,
    }
}

/// An atom: a literal, an identifier access, a lexical-error marker, or
/// a parenthesized inline expression. Atom spans index tokens.
pub open spec fn p_atom(ts: Seq<TokSp>, i: int) -> Option<(SpExprM, int)>
    decreases ts.len() - i, 1int when 0 <= i <= ts.len()
{
    if i >= ts.len() {
        None
    } else {
        match ts[i].tok {
            TokM::Ident(w) => Some(
                (SpExprM { node: ExprM::Access(w), span: mk_span(i, i + 1) }, i + 1),
            ),
            TokM::Number(n) => Some(
                (SpExprM { node: ExprM::Lit(LitM::Int(n)), span: mk_span(i, i + 1) }, i + 1),
            ),
            TokM::Str(w) => Some(
                (SpExprM { node: ExprM::Lit(LitM::Str(w)), span: mk_span(i, i + 1) }, i + 1),
            ),
            TokM::Error(k) => Some(
                (SpExprM { node: ExprM::Lit(LitM::LexErr(k)), span: mk_span(i, i + 1) }, i + 1),
            ),
            TokM::Sym(sym) => if sym == Sym::True {
                Some(
                    (
                        SpExprM { node: ExprM::Lit(LitM::Bool(true)), span: mk_span(i, i + 1) },
                        i + 1,
                    ),
                )
            } else if sym == Sym::False {
                Some(
                    (
                        SpExprM { node: ExprM::Lit(LitM::Bool(false)), span: mk_span(i, i + 1) },
                        i + 1,
                    ),
                )
            } else if sym == Sym::LeftParen {
                match p_inline(ts, i + 1) {
                    Some((e, j)) => if j < ts.len() && ts[j].tok == TokM::Sym(Sym::RightParen) {
                        Some(
                            (
                                SpExprM { node: ExprM::Group(Box::new(e)), span: mk_span(i, j + 1) },
                                j + 1,
                            ),
                        )
                    } else {
                        None
                    },
                    None => None,
                }
            } else {
                None
            },
        }
    }
}

/// An inline expression: a unary form, or an atom optionally followed
/// by one binary operator and one more atom. Operands bind at the atom
/// level alone.
pub open spec fn p_inline(ts: Seq<TokSp>, i: int) -> Option<(SpExprM, int)>
    decreases ts.len() - i, 2int when 0 <= i <= ts.len()
{
    if i >= ts.len() {
        None
    } else if ts[i].tok == TokM::Sym(Sym::Bang) {
        match p_atom(ts, i + 1) {
            Some((a, j)) => Some(
                (SpExprM { node: ExprM::Not(Box::new(a)), span: mk_span(i, j) }, j),
            ),
            None => None,
        }
    } else if ts[i].tok == TokM::Sym(Sym::Minus) {
        match p_atom(ts, i + 1) {
            Some((a, j)) => Some(
                (SpExprM { node: ExprM::Neg(Box::new(a)), span: mk_span(i, j) }, j),
            ),
            None => None,
        }
    } else {
        match p_atom(ts, i) {
            Some((a, j)) => if i < j && j < ts.len() && bin_op_of(ts[j].tok) is Some {
                match p_atom(ts, j + 1) {
                    Some((b, k)) => Some(
                        (
                            SpExprM {
                                node: ExprM::Bin(
                                    bin_op_of(ts[j].tok)->0,
                                    Box::new(a),
                                    Box::new(b),
                                ),
                                span: mk_span(i, k),
                            },
                            k,
                        ),
                    ),
                    None => None,
                }
            } else {
                Some((a, j))
            },
            None => None,
        }
    }
}

/// A let-binding: `let` IDENT `=` inline-expr `;`.
pub open spec fn p_let(ts: Seq<TokSp>, i: int) -> Option<(SpStmtM, int)>
    decreases ts.len() - i, 3int when 0 <= i <= ts.len()
{
    if i + 2 < ts.len() && ts[i].tok == TokM::Sym(Sym::Let) && ts[i + 1].tok is Ident && ts[i
        + 2].tok == TokM::Sym(Sym::Eq) {
        match p_inline(ts, i + 3) {
            Some((e, j)) => if j < ts.len() && ts[j].tok == TokM::Sym(Sym::Semi) {
                Some(
                    (
                        SpStmtM {
                            node: StmtM::Let { ident: ts[i + 1].tok->Ident_0, init: e },
                            span: mk_span(i, j + 1),
                        },
                        j + 1,
                    ),
                )
            } else {
                None
            },
            None => None,
        }
    } else {
        None
    }
}

/// A block: `{` statement* `}`.
pub open spec fn p_block(ts: Seq<TokSp>, i: int) -> Option<(SpStmtM, int)>
    decreases ts.len() - i, 4int when 0 <= i <= ts.len()
{
    if i < ts.len() && ts[i].tok == TokM::Sym(Sym::LeftBrace) {
        let r = p_stmts(ts, i + 1);
        if r.1 < ts.len() && ts[r.1].tok == TokM::Sym(Sym::RightBrace) {
            Some(
                (
                    SpStmtM { node: StmtM::Block { stmts: r.0 }, span: mk_span(i, r.1 + 1) },
                    r.1 + 1,
                ),
            )
        } else {
            None
        }
    } else {
        None
    }
}

/// A conditional: `if` block, optionally `else` followed by a block, a
/// further conditional (an else-if chain), or nothing. The minimal
/// grammar gives `if` no condition operand.
pub open spec fn p_if(ts: Seq<TokSp>, i: int) -> Option<(SpStmtM, int)>
    decreases ts.len() - i, 5int when 0 <= i <= ts.len()
{
    if i < ts.len() && ts[i].tok == TokM::Sym(Sym::If) {
        match p_block(ts, i + 1) {
            Some((blk, j)) => if i < j && j < ts.len() && ts[j].tok == TokM::Sym(Sym::Else) {
                match p_block(ts, j + 1) {
                    Some((eb, k)) => Some(
                        (
                            SpStmtM {
                                node: StmtM::If {
                                    then_branch: Box::new(blk),
                                    else_branch: Some(Box::new(eb)),
                                },
                                span: mk_span(i, k),
                            },
                            k,
                        ),
                    ),
                    None => match p_if(ts, j + 1) {
                        Some((ei, k)) => Some(
                            (
                                SpStmtM {
                                    node: StmtM::If {
                                        then_branch: Box::new(blk),
                                        else_branch: Some(Box::new(ei)),
                                    },
                                    span: mk_span(i, k),
                                },
                                k,
                            ),
                        ),
                        // a bare `else` with no branch is accepted and
                        // consumed
                        None => Some(
                            (
                                SpStmtM {
                                    node: StmtM::If {
                                        then_branch: Box::new(blk),
                                        else_branch: None,
                                    },
                                    span: mk_span(i, j + 1),
                                },
                                j + 1,
                            ),
                        ),
                    },
                }
            } else {
                Some(
                    (
                        SpStmtM {
                            node: StmtM::If { then_branch: Box::new(blk), else_branch: None },
                            span: mk_span(i, j),
                        },
                        j,
                    ),
                )
            },
            None => None,
        }
    } else {
        None
    }
}

/// One statement: a block, a let-binding or a conditional, told apart
/// by their leading token.
pub open spec fn p_stmt(ts: Seq<TokSp>, i: int) -> Option<(SpStmtM, int)>
    decreases ts.len() - i, 6int when 0 <= i <= ts.len()
{
    if i < ts.len() {
        if ts[i].tok == TokM::Sym(Sym::LeftBrace) {
            p_block(ts, i)
        } else if ts[i].tok == TokM::Sym(Sym::Let) {
            p_let(ts, i)
        } else if ts[i].tok == TokM::Sym(Sym::If) {
            p_if(ts, i)
        } else {
            None
        }
    } else {
        None
    }
}

/// As many statements as parse, greedily, with where they end.
pub open spec fn p_stmts(ts: Seq<TokSp>, i: int) -> (Seq<SpStmtM>, int)
    decreases ts.len() - i, 7int when 0 <= i <= ts.len()
{
    match p_stmt(ts, i) {
        Some((s, j)) => if i < j <= ts.len() {
            let r = p_stmts(ts, j);
            (seq![s] + r.0, r.1)
        } else {
            (seq![s], j)
        },
        None => (Seq::empty(), i),
    }
}

/// The whole parse with skip-and-resynchronize recovery: where no
/// statement parses, the offending token is skipped, one diagnostic is
/// recorded against its source byte range, and parsing resumes, so
/// several syntax errors can surface in one pass.
pub open spec fn p_program(ts: Seq<TokSp>, i: int) -> (Seq<SpStmtM>, Seq<DiagM>)
    decreases ts.len() - i, 8int when 0 <= i <= ts.len()
{
    if i >= ts.len() {
        (Seq::empty(), Seq::empty())
    } else {
        match p_stmt(ts, i) {
            Some((s, j)) => if i < j <= ts.len() {
                let r = p_program(ts, j);
                (seq![s] + r.0, r.1)
            } else {
                (seq![s], Seq::empty())
            },
            None => {
                let d = error_diag(DiagMsg::UnexpectedToken, ts[i].span);
                let r = p_program(ts, i + 1);
                (r.0, seq![d] + r.1)
            },
        }
    }
}

} // verus!

verus! {

// ---------------------------------------------------------------------
// The executable parser, proved equal to the reference parse.
// ---------------------------------------------------------------------

use crate::token::{copy_bytes, is_sym};

fn parse_atom(toks: &Vec<Spanned<Token>>, i: usize) -> (r: Option<(SpExpr, usize)>)
    requires
        i <= toks.len(),
    ensures
        match r {
            Some((e, j)) => i < j <= toks.len() && p_atom(view_toks(toks@), i as int) == Some(
                (view_spexpr(e), j as int),
            ),
            None => p_atom(view_toks(toks@), i as int) is None,
        },
    decreases toks.len() - i, 1int,
{
    if i >= toks.len() {
        return None;
    }
    let sp = Span { start: i, end: i + 1 };
    match &toks[i].node {
        Token::Ident(w) => Some((SpExpr { node: Expr::Access(copy_bytes(w)), span: sp }, i + 1)),
        Token::Number(n) => Some((SpExpr { node: Expr::Lit(Lit::Int(*n)), span: sp }, i + 1)),
        Token::Str(w) => Some(
            (SpExpr { node: Expr::Lit(Lit::Str(copy_bytes(w))), span: sp }, i + 1),
        ),
        Token::Error(k) => Some((SpExpr { node: Expr::Lit(Lit::LexErr(*k)), span: sp }, i + 1)),
        Token::Sym(sym) => {
            if *sym == Sym::True {
                Some((SpExpr { node: Expr::Lit(Lit::Bool(true)), span: sp }, i + 1))
            } else if *sym == Sym::False {
                Some((SpExpr { node: Expr::Lit(Lit::Bool(false)), span: sp }, i + 1))
            } else if *sym == Sym::LeftParen {
                match parse_inline(toks, i + 1) {
                    Some((e, j)) => {
                        if j < toks.len() && is_sym(&toks[j].node, Sym::RightParen) {
                            Some(
                                (
                                    SpExpr {
                                        node: Expr::Group(Box::new(e)),
                                        span: Span { start: i, end: j + 1 },
                                    },
                                    j + 1,
                                ),
                            )
                        } else {
                            None
                        }
                    },
                    None => None,
                }
            } else {
                None
            }
        },
    }
}

/// The infix binary operator a token spells, if any.
fn bin_op_of_x(t: &Token) -> (r: Option<BinOp>)
    ensures
        r == bin_op_of(view_tok(*t)),
{
    match t {
        Token::Sym(s) => match s {
            Sym::Plus => Some(BinOp::Add),
            Sym::Minus => Some(BinOp::Sub),
            Sym::Star => Some(BinOp::Mul),
            Sym::Slash => Some(BinOp::Div),
            Sym::Gt => Some(BinOp::Gt),
            Sym::Ge => Some(BinOp::Ge),
            Sym::Lt => Some(BinOp::Lt),
            Sym::Le => Some(BinOp::Le),
            Sym::Eq => Some(BinOp::Eq),
            Sym::Ne => Some(BinOp::Ne),
            _ => None,
        },
        _ => None,
    }
}

fn parse_inline(toks: &Vec<Spanned<Token>>, i: usize) -> (r: Option<(SpExpr, usize)>)
    requires
        i <= toks.len(),
    ensures
        match r {
            Some((e, j)) => i < j <= toks.len() && p_inline(view_toks(toks@), i as int) == Some(
                (view_spexpr(e), j as int),
            ),
            None => p_inline(view_toks(toks@), i as int) is None,
        },
    decreases toks.len() - i, 2int,
{
    if i >= toks.len() {
        return None;
    }
    if is_sym(&toks[i].node, Sym::Bang) {
        match parse_atom(toks, i + 1) {
            Some((a, j)) => Some(
                (SpExpr { node: Expr::Not(Box::new(a)), span: Span { start: i, end: j } }, j),
            ),
            None => None,
        }
    } else if is_sym(&toks[i].node, Sym::Minus) {
        match parse_atom(toks, i + 1) {
            Some((a, j)) => Some(
                (SpExpr { node: Expr::Neg(Box::new(a)), span: Span { start: i, end: j } }, j),
            ),
            None => None,
        }
    } else {
        match parse_atom(toks, i) {
            Some((a, j)) => {
                if j < toks.len() {
                    match bin_op_of_x(&toks[j].node) {
                        Some(op) => {
                            match parse_atom(toks, j + 1) {
                                Some((b, k)) => Some(
                                    (
                                        SpExpr {
                                            node: Expr::Bin(op, Box::new(a), Box::new(b)),
                                            span: Span { start: i, end: k },
                                        },
                                        k,
                                    ),
                                ),
                                None => None,
                            }
                        },
                        None => Some((a, j)),
                    }
                } else {
                    Some((a, j))
                }
            },
            None => None,
        }
    }
}

fn parse_let(toks: &Vec<Spanned<Token>>, i: usize) -> (r: Option<(SpStmt, usize)>)
    requires
        i <= toks.len(),
    ensures
        match r {
            Some((s, j)) => i < j <= toks.len() && p_let(view_toks(toks@), i as int) == Some(
                (view_spstmt(s), j as int),
            ),
            None => p_let(view_toks(toks@), i as int) is None,
        },
    decreases toks.len() - i, 3int,
{
    if toks.len() - i > 2 && is_sym(&toks[i].node, Sym::Let) && is_sym(
        &toks[i + 2].node,
        Sym::Eq,
    ) {
        let name = match &toks[i + 1].node {
            Token::Ident(w) => Some(copy_bytes(w)),
            _ => None,
        };
        match name {
            Some(name) => {
                match parse_inline(toks, i + 3) {
                    Some((e, j)) => {
                        if j < toks.len() && is_sym(&toks[j].node, Sym::Semi) {
                            Some(
                                (
                                    SpStmt {
                                        node: Stmt::Let { ident: name, init: e },
                                        span: Span { start: i, end: j + 1 },
                                    },
                                    j + 1,
                                ),
                            )
                        } else {
                            None
                        }
                    },
                    None => None,
                }
            },
            None => None,
        }
    } else {
        None
    }
}

fn parse_block(toks: &Vec<Spanned<Token>>, i: usize) -> (r: Option<(SpStmt, usize)>)
    requires
        i <= toks.len(),
    ensures
        match r {
            Some((s, j)) => i < j <= toks.len() && p_block(view_toks(toks@), i as int) == Some(
                (view_spstmt(s), j as int),
            ),
            None => p_block(view_toks(toks@), i as int) is None,
        },
    decreases toks.len() - i, 4int,
{
    if i < toks.len() && is_sym(&toks[i].node, Sym::LeftBrace) {
        let (ss, j) = parse_stmts(toks, i + 1);
        if j < toks.len() && is_sym(&toks[j].node, Sym::RightBrace) {
            Some(
                (
                    SpStmt { node: Stmt::Block { stmts: ss }, span: Span { start: i, end: j + 1 } },
                    j + 1,
                ),
            )
        } else {
            None
        }
    } else {
        None
    }
}

fn parse_if(toks: &Vec<Spanned<Token>>, i: usize) -> (r: Option<(SpStmt, usize)>)
    requires
        i <= toks.len(),
    ensures
        match r {
            Some((s, j)) => i < j <= toks.len() && p_if(view_toks(toks@), i as int) == Some(
                (view_spstmt(s), j as int),
            ),
            None => p_if(view_toks(toks@), i as int) is None,
        },
    decreases toks.len() - i, 5int,
{
    if i < toks.len() && is_sym(&toks[i].node, Sym::If) {
        match parse_block(toks, i + 1) {
            Some((blk, j)) => {
                if j < toks.len() && is_sym(&toks[j].node, Sym::Else) {
                    match parse_block(toks, j + 1) {
                        Some((eb, k)) => Some(
                            (
                                SpStmt {
                                    node: Stmt::If {
                                        then_branch: Box::new(blk),
                                        else_branch: Some(Box::new(eb)),
                                    },
                                    span: Span { start: i, end: k },
                                },
                                k,
                            ),
                        ),
                        None => match parse_if(toks, j + 1) {
                            Some((ei, k)) => Some(
                                (
                                    SpStmt {
                                        node: Stmt::If {
                                            then_branch: Box::new(blk),
                                            else_branch: Some(Box::new(ei)),
                                        },
                                        span: Span { start: i, end: k },
                                    },
                                    k,
                                ),
                            ),
                            None => Some(
                                (
                                    SpStmt {
                                        node: Stmt::If {
                                            then_branch: Box::new(blk),
                                            else_branch: None,
                                        },
                                        span: Span { start: i, end: j + 1 },
                                    },
                                    j + 1,
                                ),
                            ),
                        },
                    }
                } else {
                    Some(
                        (
                            SpStmt {
                                node: Stmt::If { then_branch: Box::new(blk), else_branch: None },
                                span: Span { start: i, end: j },
                            },
                            j,
                        ),
                    )
                }
            },
            None => None,
        }
    } else {
        None
    }
}

fn parse_stmt(toks: &Vec<Spanned<Token>>, i: usize) -> (r: Option<(SpStmt, usize)>)
    requires
        i <= toks.len(),
    ensures
        match r {
            Some((s, j)) => i < j <= toks.len() && p_stmt(view_toks(toks@), i as int) == Some(
                (view_spstmt(s), j as int),
            ),
            None => p_stmt(view_toks(toks@), i as int) is None,
        },
    decreases toks.len() - i, 6int,
{
    if i < toks.len() {
        if is_sym(&toks[i].node, Sym::LeftBrace) {
            parse_block(toks, i)
        } else if is_sym(&toks[i].node, Sym::Let) {
            parse_let(toks, i)
        } else if is_sym(&toks[i].node, Sym::If) {
            parse_if(toks, i)
        } else {
            None
        }
    } else {
        None
    }
}

fn parse_stmts(toks: &Vec<Spanned<Token>>, i: usize) -> (r: (Vec<SpStmt>, usize))
    requires
        i <= toks.len(),
    ensures
        i <= r.1 <= toks.len(),
        p_stmts(view_toks(toks@), i as int).0 == view_stmts(r.0@),
        p_stmts(view_toks(toks@), i as int).1 == r.1 as int,
    decreases toks.len() - i, 7int,
{
    let ghost ts = view_toks(toks@);
    let mut acc: Vec<SpStmt> = Vec::new();
    let mut cur = i;
    loop
        invariant
            i <= cur <= toks.len(),
            ts == view_toks(toks@),
            p_stmts(ts, i as int).0 =~= view_stmts(acc@) + p_stmts(ts, cur as int).0,
            p_stmts(ts, i as int).1 == p_stmts(ts, cur as int).1,
        ensures
            p_stmts(ts, cur as int).0 =~= Seq::<SpStmtM>::empty(),
            p_stmts(ts, cur as int).1 == cur as int,
            i <= cur <= toks.len(),
            p_stmts(ts, i as int).0 =~= view_stmts(acc@) + p_stmts(ts, cur as int).0,
            p_stmts(ts, i as int).1 == p_stmts(ts, cur as int).1,
        decreases toks.len() - cur,
    {
        let ghost curpre = cur as int;
        let ghost accpre = acc@;
        match parse_stmt(toks, cur) {
            Some((s, j)) => {
                acc.push(s);
                cur = j;
                proof {
                    crate::ast::lemma_view_stmts_push(accpre, s);
                    assert(p_stmts(ts, curpre).0 =~= seq![view_spstmt(s)] + p_stmts(
                        ts,
                        cur as int,
                    ).0);
                    assert(view_stmts(accpre) + (seq![view_spstmt(s)] + p_stmts(ts, cur as int).0)
                        =~= view_stmts(acc@) + p_stmts(ts, cur as int).0);
                }
            },
            None => {
                break;
            },
        }
    }
    proof {
        assert(view_stmts(acc@) + Seq::<SpStmtM>::empty() =~= view_stmts(acc@));
    }
    (acc, cur)
}

/// Parses the token sequence into the ordered top-level statement
/// sequence and the syntax diagnostics of the reference parse, with
/// skip-and-resynchronize recovery: an unexpected token is skipped and
/// reported against its source byte range.
pub fn parser(toks: &Vec<Spanned<Token>>) -> (r: (Vec<SpStmt>, Vec<Diag>))
    ensures
        view_stmts(r.0@) == p_program(view_toks(toks@), 0).0,
        view_diags(r.1@) == p_program(view_toks(toks@), 0).1,
{
    let ghost ts = view_toks(toks@);
    let mut acc: Vec<SpStmt> = Vec::new();
    let mut diags: Vec<Diag> = Vec::new();
    let mut cur: usize = 0;
    while cur < toks.len()
        invariant
            cur <= toks.len(),
            ts == view_toks(toks@),
            p_program(ts, 0).0 =~= view_stmts(acc@) + p_program(ts, cur as int).0,
            p_program(ts, 0).1 =~= view_diags(diags@) + p_program(ts, cur as int).1,
        decreases toks.len() - cur,
    {
        let ghost curpre = cur as int;
        let ghost accpre = acc@;
        let ghost diagspre = diags@;
        match parse_stmt(toks, cur) {
            Some((s, j)) => {
                acc.push(s);
                cur = j;
                proof {
                    crate::ast::lemma_view_stmts_push(accpre, s);
                    assert(p_program(ts, curpre).0 =~= seq![view_spstmt(s)] + p_program(
                        ts,
                        cur as int,
                    ).0);
                    assert(view_stmts(accpre) + (seq![view_spstmt(s)] + p_program(
                        ts,
                        cur as int,
                    ).0) =~= view_stmts(acc@) + p_program(ts, cur as int).0);
                }
            },
            None => {
                let d = mk_error_diag(DiagMsg::UnexpectedToken, toks[cur].span);
                diags.push(d);
                cur = cur + 1;
                proof {
                    assert(ts[curpre].span == toks@[curpre].span);
                    assert(p_program(ts, curpre).1 =~= seq![
                        error_diag(DiagMsg::UnexpectedToken, ts[curpre].span),
                    ] + p_program(ts, cur as int).1);
                    assert(view_diags(diags@) =~= view_diags(diagspre).push(view_diag(d)));
                    assert(view_diags(diagspre) + (seq![view_diag(d)] + p_program(
                        ts,
                        cur as int,
                    ).1) =~= view_diags(diags@) + p_program(ts, cur as int).1);
                }
            },
        }
    }
    proof {
        assert(p_program(ts, cur as int).0 =~= Seq::<SpStmtM>::empty());
        assert(p_program(ts, cur as int).1 =~= Seq::<DiagM>::empty());
        assert(view_stmts(acc@) + Seq::<SpStmtM>::empty() =~= view_stmts(acc@));
        assert(view_diags(diags@) + Seq::<DiagM>::empty() =~= view_diags(diags@));
    }
    (acc, diags)
}

} // verus!
