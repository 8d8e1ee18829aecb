use vstd::prelude::*;
use crate::ast::{
    lemma_view_stmts, view_spexpr, view_spstmt, view_stmts, BinOp, Expr, ExprM, Lit, LitM, SpExpr,
    SpExprM, SpStmt, SpStmtM, Stmt, StmtM,
};
use crate::diag::{DiagMsg, ValueKind};
use crate::span::Span;
use crate::token::{copy_bytes, LexErr};

verus! {

// ---------------------------------------------------------------------
// Runtime values and the environment.
// ---------------------------------------------------------------------

/// A runtime scalar: the only value types of the language.
#[derive(Clone, PartialEq, Eq, Debug)]
pub enum Value {
    Bool(bool),
    Int(i64),
    Str(Vec<u8>),
}

pub enum ValM {
    Bool(bool),
    Int(i64),
    Str(Seq<u8>),
}

pub open spec fn view_val(v: Value) -> ValM {
    match v {
        Value::Bool(b) => ValM::Bool(b),
        Value::Int(n) => ValM::Int(n),
        Value::Str(w) => ValM::Str(w@),
    }
}

pub open spec fn kind_of(v: ValM) -> ValueKind {
    match v {
        ValM::Bool(_) => ValueKind::Boolean,
        ValM::Int(_) => ValueKind::Integer,
        ValM::Str(_) => ValueKind::Str,
    }
}

/// A fatal runtime error: its kind and the token-index span of the
/// originating node. Evaluation halts at the first one.
#[derive(Clone, Copy, PartialEq, Eq, Structural, Debug)]
pub struct RtErr {
    pub message: DiagMsg,
    pub span: Span,
}

/// The mutable execution environment: bindings from identifiers to
/// values, and the accumulating output buffer. One is created per
/// program execution and owned by it alone.
#[derive(Debug)]
pub struct Env {
    pub vars: Vec<(Vec<u8>, Value)>,
    pub out: Vec<u8>,
}

/// Model of an environment: a mapping and the output bytes.
pub struct EnvM {
    pub vars: Map<Seq<u8>, ValM>,
    pub out: Seq<u8>,
}

/// The mapping a binding list denotes: later entries override earlier
/// ones.
pub open spec fn vars_map(l: Seq<(Vec<u8>, Value)>) -> Map<Seq<u8>, ValM>
    decreases l.len(),
{
    if l.len() == 0 {
        Map::empty()
    } else {
        vars_map(l.drop_last()).insert(l.last().0@, view_val(l.last().1))
    }
}

pub open spec fn view_env(e: Env) -> EnvM {
    EnvM { vars: vars_map(e.vars@), out: e.out@ }
}

/// The fresh environment an execution starts from.
pub open spec fn empty_env() -> EnvM {
    EnvM { vars: Map::empty(), out: Seq::empty() }
}

impl Default for Env {
    /// A fresh environment: no bindings, empty output.
    fn default() -> (r: Env)
        ensures
            view_env(r) == empty_env(),
    {
        let r = Env { vars: Vec::new(), out: Vec::new() };
        proof {
            assert(view_env(r).vars =~= empty_env().vars);
            assert(view_env(r).out =~= empty_env().out);
        }
        r
    }
}

/// Bindings beyond `k` that never match `name` do not affect the
/// mapping at `name`.
proof fn lemma_vars_map_prefix(l: Seq<(Vec<u8>, Value)>, name: Seq<u8>, k: int)
    requires
        0 <= k <= l.len(),
        forall|m: int| k <= m < l.len() ==> l[m].0@ != name,
    ensures
        vars_map(l).contains_key(name) == vars_map(l.take(k)).contains_key(name),
        vars_map(l).contains_key(name) ==> vars_map(l)[name] == vars_map(l.take(k))[name],
    decreases l.len(),
{
    if k == l.len() {
        assert(l.take(k) =~= l);
    } else {
        let l2 = l.drop_last();
        assert(l.last().0@ != name);
        lemma_vars_map_prefix(l2, name, k);
        assert(l2.take(k) =~= l.take(k));
    }
}

fn bytes_eq(a: &Vec<u8>, b: &[u8]) -> (r: bool)
    ensures
        r == (a@ == b@),
{
    if a.len() != b.len() {
        return false;
    }
    let mut k: usize = 0;
    while k < a.len()
        invariant
            k <= a.len(),
            a@.len() == b@.len(),
            forall|m: int| 0 <= m < k ==> a@[m] == b@[m],
        decreases a.len() - k,
    {
        if a[k] != b[k] {
            return false;
        }
        k = k + 1;
    }
    proof {
        assert(a@ =~= b@);
    }
    true
}

fn clone_value(v: &Value) -> (r: Value)
    ensures
        view_val(r) == view_val(*v),
{
    match v {
        Value::Bool(b) => Value::Bool(*b),
        Value::Int(n) => Value::Int(*n),
        Value::Str(w) => Value::Str(copy_bytes(w)),
    }
}

impl Env {
    /// The value bound to an identifier, if any: the most recent
    /// binding wins.
    pub fn get(&self, name: &[u8]) -> (r: Option<Value>)
        ensures
            match r {
                Some(v) => view_env(*self).vars.contains_key(name@) && view_val(v) == view_env(
                    *self,
                ).vars[name@],
                None => !view_env(*self).vars.contains_key(name@),
            },
    {
        let mut k = self.vars.len();
        while k > 0
            invariant
                k <= self.vars.len(),
                forall|m: int| k <= m < self.vars@.len() ==> self.vars@[m].0@ != name@,
            decreases k,
        {
            k = k - 1;
            if bytes_eq(&self.vars[k].0, name) {
                proof {
                    lemma_vars_map_prefix(self.vars@, name@, k as int + 1);
                    assert(self.vars@.take(k as int + 1).last() == self.vars@[k as int]);
                    assert(self.vars@.take(k as int + 1).drop_last() =~= self.vars@.take(
                        k as int,
                    ));
                }
                return Some(clone_value(&self.vars[k].1));
            }
        }
        proof {
            lemma_vars_map_prefix(self.vars@, name@, 0);
            assert(self.vars@.take(0) =~= Seq::<(Vec<u8>, Value)>::empty());
        }
        None
    }

    /// The output accumulated so far. No evaluation rule of the
    /// minimal language writes to it, so it stays empty.
    pub fn output(&self) -> (r: &Vec<u8>)
        ensures
            r@ == view_env(*self).out,
    {
        &self.out
    }

    /// Inserts or overwrites one binding.
    fn set(&mut self, name: Vec<u8>, v: Value)
        ensures
            view_env(*final(self)).vars == view_env(*old(self)).vars.insert(name@, view_val(v)),
            view_env(*final(self)).out == view_env(*old(self)).out,
    {
        let ghost lpre = self.vars@;
        let ghost n = name@;
        let ghost vm = view_val(v);
        self.vars.push((name, v));
        proof {
            assert(self.vars@.drop_last() =~= lpre);
            assert(self.vars@.last().0@ == n);
            assert(view_val(self.vars@.last().1) == vm);
        }
    }
}

// ---------------------------------------------------------------------
// The reference evaluation. Expressions are pure; statements thread
// the environment. Evaluation halts at the first fatal error.
// ---------------------------------------------------------------------

/// The fatal error kind a lexical error marker raises when evaluated.
pub open spec fn lex_err_msg(k: LexErr) -> DiagMsg {
    match k {
        LexErr::IntegerOverflow => DiagMsg::IntegerOverflow,
        LexErr::InvalidStringEscape => DiagMsg::InvalidStringEscape,
    }
}

/// Arithmetic and comparison on two integers. Overflowing arithmetic
/// is a fatal integer-overflow error, never a silent wraparound;
/// division by zero is its own fatal error.
pub open spec fn eval_arith(op: BinOp, a: i64, b: i64, span: Span) -> Result<ValM, RtErr> {
    match op {
        BinOp::Add => match a.checked_add(b) {
            Some(v) => Ok(ValM::Int(v)),
            None => Err(RtErr { message: DiagMsg::IntegerOverflow, span }),
        },
        BinOp::Sub => match a.checked_sub(b) {
            Some(v) => Ok(ValM::Int(v)),
            None => Err(RtErr { message: DiagMsg::IntegerOverflow, span }),
        },
        BinOp::Mul => match a.checked_mul(b) {
            Some(v) => Ok(ValM::Int(v)),
            None => Err(RtErr { message: DiagMsg::IntegerOverflow, span }),
        },
        BinOp::Div => if b == 0 {
            Err(RtErr { message: DiagMsg::DivisionByZero, span })
        } else {
            match a.checked_div(b) {
                Some(v) => Ok(ValM::Int(v)),
                None => Err(RtErr { message: DiagMsg::IntegerOverflow, span }),
            }
        },
        BinOp::Gt => Ok(ValM::Bool(a > b)),
        BinOp::Ge => Ok(ValM::Bool(a >= b)),
        BinOp::Lt => Ok(ValM::Bool(a < b)),
        BinOp::Le => Ok(ValM::Bool(a <= b)),
        BinOp::Eq => Ok(ValM::Bool(a == b)),
        BinOp::Ne => Ok(ValM::Bool(a != b)),
    }
}

/// One binary operation. Equality accepts matching integer or boolean
/// operands; every other form requires integers; a mismatch is a fatal
/// error naming the expected and actual kinds, anchored at the
/// offending operand.
pub open spec fn eval_bin(
    op: BinOp,
    lv: ValM,
    rv: ValM,
    lspan: Span,
    rspan: Span,
    span: Span,
) -> Result<ValM, RtErr> {
    match (op, lv, rv) {
        (BinOp::Eq, ValM::Bool(a), ValM::Bool(b)) => Ok(ValM::Bool(a == b)),
        (BinOp::Ne, ValM::Bool(a), ValM::Bool(b)) => Ok(ValM::Bool(a != b)),
        _ => match lv {
            ValM::Int(a) => match rv {
                ValM::Int(b) => eval_arith(op, a, b, span),
                _ => Err(
                    RtErr {
                        message: DiagMsg::TypeMismatch {
                            expected: ValueKind::Integer,
                            actual: kind_of(rv),
                        },
                        span: rspan,
                    },
                ),
            },
            _ => Err(
                RtErr {
                    message: DiagMsg::TypeMismatch {
                        expected: ValueKind::Integer,
                        actual: kind_of(lv),
                    },
                    span: lspan,
                },
            ),
        },
    }
}

/// What an expression evaluates to under the given bindings. Literals
/// yield their value; a lexical error marker raises its error; an
/// access fails on an unbound identifier; unary not requires a
/// boolean and unary negate an integer, each anchored at its operand.
pub open spec fn eval_expr_m(env: Map<Seq<u8>, ValM>, e: SpExprM) -> Result<ValM, RtErr>
    decreases e,
{
    match e.node {
        ExprM::Lit(l) => match l {
            LitM::Bool(b) => Ok(ValM::Bool(b)),
            LitM::Int(n) => Ok(ValM::Int(n)),
            LitM::Str(w) => Ok(ValM::Str(w)),
            LitM::LexErr(k) => Err(RtErr { message: lex_err_msg(k), span: e.span }),
        },
        ExprM::Access(w) => if env.contains_key(w) {
            Ok(env[w])
        } else {
            Err(RtErr { message: DiagMsg::UnboundIdentifier, span: e.span })
        },
        ExprM::Group(b) => eval_expr_m(env, *b),
        ExprM::Not(b) => match eval_expr_m(env, *b) {
            Ok(v) => match v {
                ValM::Bool(x) => Ok(ValM::Bool(!x)),
                _ => Err(
                    RtErr {
                        message: DiagMsg::TypeMismatch {
                            expected: ValueKind::Boolean,
                            actual: kind_of(v),
                        },
                        span: b.span,
                    },
                ),
            },
            Err(er) => Err(er),
        },
        ExprM::Neg(b) => match eval_expr_m(env, *b) {
            Ok(v) => match v {
                ValM::Int(x) => if x == -0x8000_0000_0000_0000 {
                    Err(RtErr { message: DiagMsg::IntegerOverflow, span: e.span })
                } else {
                    Ok(ValM::Int((-x) as i64))
                },
                _ => Err(
                    RtErr {
                        message: DiagMsg::TypeMismatch {
                            expected: ValueKind::Integer,
                            actual: kind_of(v),
                        },
                        span: b.span,
                    },
                ),
            },
            Err(er) => Err(er),
        },
        ExprM::Bin(op, l, r) => match eval_expr_m(env, *l) {
            Ok(lv) => match eval_expr_m(env, *r) {
                Ok(rv) => eval_bin(op, lv, rv, l.span, r.span, e.span),
                Err(er) => Err(er),
            },
            Err(er) => Err(er),
        },
    }
}

/// What one statement does to the environment. A let-binding evaluates
/// its right-hand side and inserts or overwrites the binding; a block
/// runs its statements in order; a conditional has no condition slot
/// in the minimal grammar, so its then-branch runs unconditionally and
/// its else branch never runs.
pub open spec fn run_stmt_m(env: EnvM, s: SpStmtM) -> Result<EnvM, RtErr>
    decreases s,
{
    match s.node {
        StmtM::Let { ident, init } => match eval_expr_m(env.vars, init) {
            Ok(v) => Ok(EnvM { vars: env.vars.insert(ident, v), out: env.out }),
            Err(er) => Err(er),
        },
        StmtM::Block { stmts } => run_stmts_m(env, stmts),
        StmtM::If { then_branch, else_branch } => run_stmt_m(env, *then_branch),
    }
}

/// Statements run in order, threading the environment; the first fatal
/// error halts the rest.
pub open spec fn run_stmts_m(env: EnvM, ss: Seq<SpStmtM>) -> Result<EnvM, RtErr>
    decreases ss,
{
    if ss.len() == 0 {
        Ok(env)
    } else {
        match run_stmt_m(env, ss[0]) {
            Ok(e2) => run_stmts_m(e2, ss.drop_first()),
            Err(er) => Err(er),
        }
    }
}

} // verus!

verus! {

// ---------------------------------------------------------------------
// The executable evaluator, proved equal to the reference evaluation.
// ---------------------------------------------------------------------

fn lex_err_msg_x(k: LexErr) -> (r: DiagMsg)
    ensures
        r == lex_err_msg(k),
{
    match k {
        LexErr::IntegerOverflow => DiagMsg::IntegerOverflow,
        LexErr::InvalidStringEscape => DiagMsg::InvalidStringEscape,
    }
}

fn kind_of_x(v: &Value) -> (r: ValueKind)
    ensures
        r == kind_of(view_val(*v)),
{
    match v {
        Value::Bool(_) => ValueKind::Boolean,
        Value::Int(_) => ValueKind::Integer,
        Value::Str(_) => ValueKind::Str,
    }
}

fn eval_bin_x(op: BinOp, lv: Value, rv: Value, lspan: Span, rspan: Span, span: Span) -> (r:
    Result<Value, RtErr>)
    ensures
        match r {
            Ok(v) => eval_bin(op, view_val(lv), view_val(rv), lspan, rspan, span) == Ok::<
                ValM,
                RtErr,
            >(view_val(v)),
            Err(er) => eval_bin(op, view_val(lv), view_val(rv), lspan, rspan, span) == Err::<
                ValM,
                RtErr,
            >(er),
        },
{
    match (op, &lv, &rv) {
        (BinOp::Eq, Value::Bool(a), Value::Bool(b)) => Ok(Value::Bool(*a == *b)),
        (BinOp::Ne, Value::Bool(a), Value::Bool(b)) => Ok(Value::Bool(*a != *b)),
        _ => {
            match &lv {
                Value::Int(a) => {
                    match &rv {
                        Value::Int(b) => {
                            let a = *a;
                            let b = *b;
                            match op {
                                BinOp::Add => match a.checked_add(b) {
                                    Some(v) => Ok(Value::Int(v)),
                                    None => Err(
                                        RtErr { message: DiagMsg::IntegerOverflow, span },
                                    ),
                                },
                                BinOp::Sub => match a.checked_sub(b) {
                                    Some(v) => Ok(Value::Int(v)),
                                    None => Err(
                                        RtErr { message: DiagMsg::IntegerOverflow, span },
                                    ),
                                },
                                BinOp::Mul => match a.checked_mul(b) {
                                    Some(v) => Ok(Value::Int(v)),
                                    None => Err(
                                        RtErr { message: DiagMsg::IntegerOverflow, span },
                                    ),
                                },
                                BinOp::Div => {
                                    if b == 0 {
                                        Err(RtErr { message: DiagMsg::DivisionByZero, span })
                                    } else {
                                        match a.checked_div(b) {
                                            Some(v) => Ok(Value::Int(v)),
                                            None => Err(
                                                RtErr {
                                                    message: DiagMsg::IntegerOverflow,
                                                    span,
                                                },
                                            ),
                                        }
                                    }
                                },
                                BinOp::Gt => Ok(Value::Bool(a > b)),
                                BinOp::Ge => Ok(Value::Bool(a >= b)),
                                BinOp::Lt => Ok(Value::Bool(a < b)),
                                BinOp::Le => Ok(Value::Bool(a <= b)),
                                BinOp::Eq => Ok(Value::Bool(a == b)),
                                BinOp::Ne => Ok(Value::Bool(a != b)),
                            }
                        },
                        _ => Err(
                            RtErr {
                                message: DiagMsg::TypeMismatch {
                                    expected: ValueKind::Integer,
                                    actual: kind_of_x(&rv),
                                },
                                span: rspan,
                            },
                        ),
                    }
                },
                _ => Err(
                    RtErr {
                        message: DiagMsg::TypeMismatch {
                            expected: ValueKind::Integer,
                            actual: kind_of_x(&lv),
                        },
                        span: lspan,
                    },
                ),
            }
        },
    }
}

/// Evaluates one expression against the environment's bindings.
fn eval_expr(env: &Env, e: &SpExpr) -> (r: Result<Value, RtErr>)
    ensures
        match r {
            Ok(v) => eval_expr_m(view_env(*env).vars, view_spexpr(*e)) == Ok::<ValM, RtErr>(
                view_val(v),
            ),
            Err(er) => eval_expr_m(view_env(*env).vars, view_spexpr(*e)) == Err::<ValM, RtErr>(
                er,
            ),
        },
    decreases *e,
{
    match &e.node {
        Expr::Lit(l) => match l {
            Lit::Bool(b) => Ok(Value::Bool(*b)),
            Lit::Int(n) => Ok(Value::Int(*n)),
            Lit::Str(w) => Ok(Value::Str(copy_bytes(w))),
            Lit::LexErr(k) => Err(RtErr { message: lex_err_msg_x(*k), span: e.span }),
        },
        Expr::Access(w) => match env.get(w.as_slice()) {
            Some(v) => Ok(v),
            None => Err(RtErr { message: DiagMsg::UnboundIdentifier, span: e.span }),
        },
        Expr::Group(b) => eval_expr(env, b),
        Expr::Not(b) => match eval_expr(env, b) {
            Ok(v) => match v {
                Value::Bool(x) => Ok(Value::Bool(!x)),
                _ => Err(
                    RtErr {
                        message: DiagMsg::TypeMismatch {
                            expected: ValueKind::Boolean,
                            actual: kind_of_x(&v),
                        },
                        span: b.span,
                    },
                ),
            },
            Err(er) => Err(er),
        },
        Expr::Neg(b) => match eval_expr(env, b) {
            Ok(v) => match v {
                Value::Int(x) => {
                    if x == -0x8000_0000_0000_0000 {
                        Err(RtErr { message: DiagMsg::IntegerOverflow, span: e.span })
                    } else {
                        Ok(Value::Int(-x))
                    }
                },
                _ => Err(
                    RtErr {
                        message: DiagMsg::TypeMismatch {
                            expected: ValueKind::Integer,
                            actual: kind_of_x(&v),
                        },
                        span: b.span,
                    },
                ),
            },
            Err(er) => Err(er),
        },
        Expr::Bin(op, l, r) => match eval_expr(env, l) {
            Ok(lv) => match eval_expr(env, r) {
                Ok(rv) => eval_bin_x(*op, lv, rv, l.span, r.span, e.span),
                Err(er) => Err(er),
            },
            Err(er) => Err(er),
        },
    }
}

/// Runs one statement, mutating the environment in place.
pub fn run_stmt(env: &mut Env, s: &SpStmt) -> (r: Result<(), RtErr>)
    ensures
        match r {
            Ok(_) => run_stmt_m(view_env(*old(env)), view_spstmt(*s)) == Ok::<EnvM, RtErr>(
                view_env(*final(env)),
            ),
            Err(er) => run_stmt_m(view_env(*old(env)), view_spstmt(*s)) == Err::<EnvM, RtErr>(
                er,
            ),
        },
    decreases *s,
{
    match &s.node {
        Stmt::Let { ident, init } => match eval_expr(env, init) {
            Ok(v) => {
                env.set(copy_bytes(ident), v);
                Ok(())
            },
            Err(er) => Err(er),
        },
        Stmt::Block { stmts } => run_stmts(env, stmts),
        Stmt::If { then_branch, else_branch: _ } => run_stmt(env, then_branch),
    }
}

/// Runs a statement sequence in order, threading the environment;
/// halts at the first fatal error.
pub fn run_stmts(env: &mut Env, ss: &Vec<SpStmt>) -> (r: Result<(), RtErr>)
    ensures
        match r {
            Ok(_) => run_stmts_m(view_env(*old(env)), view_stmts(ss@)) == Ok::<EnvM, RtErr>(
                view_env(*final(env)),
            ),
            Err(er) => run_stmts_m(view_env(*old(env)), view_stmts(ss@)) == Err::<EnvM, RtErr>(
                er,
            ),
        },
    decreases ss@,
{
    let ghost ssm = view_stmts(ss@);
    proof {
        lemma_view_stmts(ss@);
        assert(ssm.skip(0) =~= ssm);
    }
    let mut k: usize = 0;
    while k < ss.len()
        invariant
            k <= ss.len(),
            ssm == view_stmts(ss@),
            ssm.len() == ss@.len(),
            forall|m: int| 0 <= m < ss@.len() ==> #[trigger] ssm[m] == view_spstmt(ss@[m]),
            run_stmts_m(view_env(*old(env)), ssm) == run_stmts_m(
                view_env(*env),
                ssm.skip(k as int),
            ),
        decreases ss.len() - k,
    {
        let ghost envpre = view_env(*env);
        proof {
            assert(ssm.skip(k as int)[0] == ssm[k as int]);
            assert(ssm.skip(k as int).drop_first() =~= ssm.skip(k as int + 1));
            assert(decreases_to!(ss@ => ss@[k as int]));
        }
        match run_stmt(env, &ss[k]) {
            Ok(_) => {
                k = k + 1;
            },
            Err(er) => {
                proof {
                    assert(run_stmts_m(envpre, ssm.skip(k as int)) == Err::<EnvM, RtErr>(er));
                }
                return Err(er);
            },
        }
    }
    proof {
        assert(ssm.skip(ss@.len() as int) =~= Seq::<SpStmtM>::empty());
    }
    Ok(())
}

} // verus!
