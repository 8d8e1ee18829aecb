use vstd::prelude::*;
use crate::span::Span;
use crate::token::LexErr;

verus! {

/// Binary operator forms of the expression grammar.
#[derive(Clone, Copy, PartialEq, Eq, Structural, Debug)]
pub enum BinOp {
    Add,
    Sub,
    Mul,
    Div,
    Gt,
    Ge,
    Lt,
    Le,
    Eq,
    Ne,
}

/// A literal in expression position: a runtime scalar, or a lexical
/// error marker carried through from tokenizing (evaluating it raises
/// the corresponding fatal error).
#[derive(Clone, PartialEq, Eq, Debug)]
pub enum Lit {
    Bool(bool),
    Int(i64),
    Str(Vec<u8>),
    LexErr(LexErr),
}

pub enum LitM {
    Bool(bool),
    Int(i64),
    Str(Seq<u8>),
    LexErr(LexErr),
}

pub open spec fn view_lit(l: Lit) -> LitM {
    match l {
        Lit::Bool(b) => LitM::Bool(b),
        Lit::Int(n) => LitM::Int(n),
        Lit::Str(w) => LitM::Str(w@),
        Lit::LexErr(k) => LitM::LexErr(k),
    }
}

/// A span-tagged expression; the span indexes the token sequence.
pub struct SpExpr {
    pub node: Expr,
    pub span: Span,
}

/// An inline expression. Operands bind at the atom level alone, so a
/// longer chain of operators needs explicit parentheses. Expressions
/// never contain statements, and evaluating one never mutates the
/// environment.
pub enum Expr {
    Lit(Lit),
    Access(Vec<u8>),
    Group(Box<SpExpr>),
    Not(Box<SpExpr>),
    Neg(Box<SpExpr>),
    Bin(BinOp, Box<SpExpr>, Box<SpExpr>),
}

pub enum ExprM {
    Lit(LitM),
    Access(Seq<u8>),
    Group(Box<SpExprM>),
    Not(Box<SpExprM>),
    Neg(Box<SpExprM>),
    Bin(BinOp, Box<SpExprM>, Box<SpExprM>),
}

/// Model of a span-tagged expression; the span indexes the token
/// sequence.
pub struct SpExprM {
    pub node: ExprM,
    pub span: Span,
}

pub open spec fn view_expr(e: Expr) -> ExprM
    decreases e,
{
    match e {
        Expr::Lit(l) => ExprM::Lit(view_lit(l)),
        Expr::Access(w) => ExprM::Access(w@),
        Expr::Group(b) => ExprM::Group(Box::new(view_spexpr(*b))),
        Expr::Not(b) => ExprM::Not(Box::new(view_spexpr(*b))),
        Expr::Neg(b) => ExprM::Neg(Box::new(view_spexpr(*b))),
        Expr::Bin(op, l, r) => ExprM::Bin(op, Box::new(view_spexpr(*l)), Box::new(view_spexpr(*r))),
    }
}

pub open spec fn view_spexpr(e: SpExpr) -> SpExprM
    decreases e,
{
    SpExprM { node: view_expr(e.node), span: e.span }
}

/// A span-tagged statement; the span indexes the token sequence.
pub struct SpStmt {
    pub node: Stmt,
    pub span: Span,
}

/// A statement: the three top-level forms of the grammar.
pub enum Stmt {
    Let { ident: Vec<u8>, init: SpExpr },
    Block { stmts: Vec<SpStmt> },
    If { then_branch: Box<SpStmt>, else_branch: Option<Box<SpStmt>> },
}

pub enum StmtM {
    Let { ident: Seq<u8>, init: SpExprM },
    Block { stmts: Seq<SpStmtM> },
    If { then_branch: Box<SpStmtM>, else_branch: Option<Box<SpStmtM>> },
}

/// Model of a span-tagged statement; the span indexes the token
/// sequence.
pub struct SpStmtM {
    pub node: StmtM,
    pub span: Span,
}

pub open spec fn view_stmt(s: Stmt) -> StmtM
    decreases s,
{
    match s {
        Stmt::Let { ident, init } => StmtM::Let { ident: ident@, init: view_spexpr(init) },
        Stmt::Block { stmts } => StmtM::Block { stmts: view_stmts(stmts@) },
        Stmt::If { then_branch, else_branch } => StmtM::If {
            then_branch: Box::new(view_spstmt(*then_branch)),
            else_branch: match else_branch {
                Some(b) => Some(Box::new(view_spstmt(*b))),
                None => None,
            },
        },
    }
}

pub open spec fn view_spstmt(s: SpStmt) -> SpStmtM
    decreases s,
{
    SpStmtM { node: view_stmt(s.node), span: s.span }
}

pub open spec fn view_stmts(ss: Seq<SpStmt>) -> Seq<SpStmtM>
    decreases ss,
{
    if ss.len() == 0 {
        Seq::empty()
    } else {
        seq![view_spstmt(ss[0])] + view_stmts(ss.drop_first())
    }
}

/// The view of a statement sequence is the element-wise view.
pub proof fn lemma_view_stmts(ss: Seq<SpStmt>)
    ensures
        view_stmts(ss).len() == ss.len(),
        forall|k: int| 0 <= k < ss.len() ==> #[trigger] view_stmts(ss)[k] == view_spstmt(ss[k]),
    decreases ss.len(),
{
    if ss.len() > 0 {
        lemma_view_stmts(ss.drop_first());
    }
}

/// Views distribute over push.
pub proof fn lemma_view_stmts_push(ss: Seq<SpStmt>, s: SpStmt)
    ensures
        view_stmts(ss.push(s)) =~= view_stmts(ss).push(view_spstmt(s)),
    decreases ss.len(),
{
    lemma_view_stmts(ss.push(s));
    lemma_view_stmts(ss);
}

} // verus!
