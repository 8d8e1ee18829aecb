use vstd::prelude::*;
use crate::lexer::{digits_end, digits_val, is_digit, scan_token, mk_span};
use crate::token::{LexErr, TokM, TokSp};

verus! {

/// A digit run exceeding the 64-bit signed range yields an
/// overflow-marked token, never a silent wraparound; a run within
/// range yields exactly its value. Stated of the one-step scan at any
/// position that starts a digit run.
pub proof fn lemma_digit_run_overflow(s: Seq<u8>, i: int)
    requires
        0 <= i < s.len(),
        is_digit(s[i]),
    ensures
        scan_token(s, i).tok == Some(
            TokSp {
                tok: if digits_val(s, i, digits_end(s, i)) > 0x7fff_ffff_ffff_ffff {
                    TokM::Error(LexErr::IntegerOverflow)
                } else {
                    TokM::Number(digits_val(s, i, digits_end(s, i)) as i64)
                },
                span: mk_span(i, digits_end(s, i)),
            },
        ),
{
}

} // verus!

verus! {

use crate::lexer::{
    decode_str, ident_end, ident_token, is_comment_start, is_ident_byte, is_ws, keyword_of,
    lex_from, number_token, op1_of, op2_of, op3_of, op_at, skip_trivia, str_close, str_token,
    ScanRes,
};

// ---------------------------------------------------------------------
// Round-trip of token spellings. `spells(w, t)` says the byte run `w`
// is a valid spelling of the token `t`; the laws below show that a
// text assembled from valid spellings with whitespace and comments
// between them tokenizes back to exactly those tokens, whatever the
// trivia.
// ---------------------------------------------------------------------

pub open spec fn all_digits(w: Seq<u8>) -> bool {
    forall|k: int| 0 <= k < w.len() ==> is_digit(#[trigger] w[k])
}

pub open spec fn all_ident_bytes(w: Seq<u8>) -> bool {
    forall|k: int| 0 <= k < w.len() ==> is_ident_byte(#[trigger] w[k])
}

pub open spec fn all_ws(w: Seq<u8>) -> bool {
    forall|k: int| 0 <= k < w.len() ==> is_ws(#[trigger] w[k])
}

/// The byte run `w` is a valid spelling of the token `t`.
pub open spec fn spells(w: Seq<u8>, t: TokM) -> bool {
    match t {
        TokM::Number(n) => w.len() > 0 && all_digits(w) && digits_val(w, 0, w.len() as int)
            == n as int,
        TokM::Ident(name) => w == name && w.len() > 0 && all_ident_bytes(w) && keyword_of(w)
            is None,
        TokM::Sym(sym) => (w.len() == 1 && op1_of(w[0]) == Some(sym)) || (w.len() == 2 && op2_of(
            w[0],
            w[1],
        ) == Some(sym)) || (w.len() == 3 && op3_of(w[0], w[1], w[2]) == Some(sym)) || (
        keyword_of(w) == Some(sym)),
        TokM::Str(content) => w.len() >= 2 && w[0] == 39 && str_close(w, 1) == Some(
            w.len() - 1,
        ) && decode_str(w, 1, w.len() - 1) == Some(content),
        TokM::Error(_) => false,
    }
}

/// A maximal digit run within equal bytes ends where the run ends.
proof fn lemma_digits_end_concat(s: Seq<u8>, i: int, n: int)
    requires
        0 <= i, 0 <= n, i + n <= s.len(),
        forall|k: int| i <= k < i + n ==> is_digit(#[trigger] s[k]),
        i + n == s.len() || !is_digit(s[i + n]),
    ensures
        digits_end(s, i) == i + n,
    decreases n,
{
    if n > 0 {
        assert(is_digit(s[i]));
        lemma_digits_end_concat(s, i + 1, n - 1);
    }
}

/// The value of a digit run does not depend on what surrounds it.
proof fn lemma_digits_val_concat(s: Seq<u8>, i: int, w: Seq<u8>, j: int)
    requires
        0 <= i, i + w.len() <= s.len(),
        s.subrange(i, i + w.len() as int) == w,
        0 <= j <= w.len(),
    ensures
        digits_val(s, i, i + j) == digits_val(w, 0, j),
    decreases j,
{
    if j > 0 {
        lemma_digits_val_concat(s, i, w, j - 1);
        assert(w[j - 1] == s.subrange(i, i + w.len() as int)[j - 1]);
    }
}

/// A maximal identifier run within equal bytes ends where the run ends.
proof fn lemma_ident_end_concat(s: Seq<u8>, i: int, n: int)
    requires
        0 <= i, 0 <= n, i + n <= s.len(),
        forall|k: int| i <= k < i + n ==> is_ident_byte(#[trigger] s[k]),
        i + n == s.len() || !is_ident_byte(s[i + n]),
    ensures
        ident_end(s, i) == i + n,
    decreases n,
{
    if n > 0 {
        assert(is_ident_byte(s[i]));
        lemma_ident_end_concat(s, i + 1, n - 1);
    }
}

/// The closing quote of a string literal is found at the same relative
/// position within equal bytes.
proof fn lemma_str_close_concat(s: Seq<u8>, i: int, w: Seq<u8>, m: int)
    requires
        0 <= i, i + w.len() <= s.len(),
        s.subrange(i, i + w.len() as int) == w,
        0 <= m <= w.len(),
        str_close(w, m) == Some(w.len() - 1),
    ensures
        str_close(s, i + m) == Some(i + w.len() - 1),
    decreases w.len() - m,
{
    assert(w[m] == s.subrange(i, i + w.len() as int)[m]);
    if m < w.len() && w[m] != 39 {
        if w[m] == 92 {
            assert(m + 1 < w.len());
            lemma_str_close_concat(s, i, w, m + 2);
        } else {
            lemma_str_close_concat(s, i, w, m + 1);
        }
    } else {
        assert(m == w.len() - 1 && w[m] == 39);
    }
}

/// Escape decoding yields the same content at the same relative
/// positions within equal bytes.
proof fn lemma_decode_concat(s: Seq<u8>, i: int, w: Seq<u8>, m: int)
    requires
        0 <= i, i + w.len() <= s.len(),
        s.subrange(i, i + w.len() as int) == w,
        0 <= m <= w.len() - 1,
        w.len() >= 1,
    ensures
        decode_str(s, i + m, i + w.len() - 1) == decode_str(w, m, w.len() - 1),
    decreases w.len() - m,
{
    let q = w.len() - 1;
    assert(forall|k: int| 0 <= k < w.len() ==> #[trigger] w[k] == s.subrange(
        i,
        i + w.len() as int,
    )[k]);
    if m < q {
        if w[m] == 92 {
            if m + 1 < q {
                lemma_decode_concat(s, i, w, m + 2);
            }
        } else {
            lemma_decode_concat(s, i, w, m + 1);
        }
    }
}

} // verus!

verus! {

/// Scanning at the start of a valid spelling followed by whitespace or
/// the end of the input yields exactly that token, no diagnostic, and
/// stops at the spelling's end: the spelling round-trips.
proof fn lemma_scan_spelling(s: Seq<u8>, i: int, w: Seq<u8>, t: TokM)
    requires
        0 <= i, i + w.len() <= s.len(),
        s.subrange(i, i + w.len() as int) == w,
        spells(w, t),
        i + w.len() == s.len() || is_ws(s[i + w.len() as int]),
    ensures
        scan_token(s, i) == (ScanRes {
            tok: Some(TokSp { tok: t, span: mk_span(i, i + w.len() as int) }),
            diag: None,
            end: i + w.len() as int,
        }),
{
    let n = w.len() as int;
    assert(forall|k: int| 0 <= k < n ==> #[trigger] w[k] == s.subrange(i, i + n)[k]);
    assert(forall|k: int| i <= k < i + n ==> #[trigger] s[k] == w[k - i]);
    match t {
        TokM::Number(v) => {
            assert(forall|k: int| i <= k < i + n ==> is_digit(#[trigger] s[k]));
            lemma_digits_end_concat(s, i, n);
            lemma_digits_val_concat(s, i, w, n);
            assert(number_token(s, i, i + n) == TokM::Number(v));
        },
        TokM::Ident(name) => {
            assert(forall|k: int| i <= k < i + n ==> is_ident_byte(#[trigger] s[k]));
            lemma_ident_end_concat(s, i, n);
            assert(!is_digit(s[i]));
            assert(ident_token(s.subrange(i, i + n)) == TokM::Ident(name));
        },
        TokM::Sym(sym) => {
            if keyword_of(w) == Some(sym) {
                assert(all_ident_bytes(w));
                assert(w.len() > 0);
                assert(forall|k: int| i <= k < i + n ==> is_ident_byte(#[trigger] s[k]));
                lemma_ident_end_concat(s, i, n);
                assert(!is_digit(s[i]));
                assert(s.subrange(i, i + n) == w);
                assert(ident_token(s.subrange(i, i + n)) == TokM::Sym(sym));
            } else {
                // an operator or punctuation spelling
                assert(!is_digit(s[i]) && !is_ident_byte(s[i]) && s[i] != 39);
                if n == 1 {
                    assert(op1_of(w[0]) == Some(sym));
                    if i + 2 < s.len() {
                        assert(i + 1 < s.len());
                        assert(is_ws(s[i + 1]));
                        assert(op3_of(s[i], s[i + 1], s[i + 2]) is None);
                    }
                    if i + 1 < s.len() {
                        assert(is_ws(s[i + 1]));
                        assert(op2_of(s[i], s[i + 1]) is None);
                    }
                    assert(op_at(s, i) == Some((sym, i + 1)));
                } else if n == 2 {
                    assert(op2_of(w[0], w[1]) == Some(sym));
                    if i + 2 < s.len() {
                        assert(is_ws(s[i + 2]));
                        assert(op3_of(s[i], s[i + 1], s[i + 2]) is None);
                    }
                    assert(op_at(s, i) == Some((sym, i + 2)));
                } else {
                    assert(n == 3);
                    assert(op3_of(w[0], w[1], w[2]) == Some(sym));
                    assert(op_at(s, i) == Some((sym, i + 3)));
                }
            }
        },
        TokM::Str(content) => {
            assert(s[i] == 39);
            assert(!is_digit(s[i]) && !is_ident_byte(s[i]));
            lemma_str_close_concat(s, i, w, 1);
            lemma_decode_concat(s, i, w, 1);
            assert(str_token(s, i + 1, i + n - 1) == TokM::Str(content));
        },
        TokM::Error(_) => {
            assert(false);
        },
    }
}

} // verus!

verus! {

use crate::diag::DiagM;

/// The text assembled from `sps.len()` spellings with the given
/// separators around them: `seps[0] + sps[0] + seps[1] + ... +
/// sps[n-1] + seps[n]`.
pub open spec fn render(seps: Seq<Seq<u8>>, sps: Seq<Seq<u8>>) -> Seq<u8>
    decreases sps.len() when seps.len() == sps.len() + 1
{
    if sps.len() == 0 {
        seps[0]
    } else {
        seps[0] + sps[0] + render(seps.drop_first(), sps.drop_first())
    }
}

/// The conditions under which a spelling sequence round-trips: every
/// spelling is valid for its token; every separator is well-formed
/// trivia (whitespace and closed comments); two tokens always have a
/// nonempty separator between them; and a separator that follows a
/// token leads with whitespace, so that it cannot fuse with the token
/// before it. Leading and trailing trivia may be empty.
pub open spec fn render_ok(seps: Seq<Seq<u8>>, sps: Seq<Seq<u8>>, toks: Seq<TokM>) -> bool {
    &&& seps.len() == sps.len() + 1
    &&& sps.len() == toks.len()
    &&& (forall|k: int| 0 <= k < toks.len() ==> spells(#[trigger] sps[k], toks[k]))
    &&& (forall|k: int| 0 <= k < seps.len() ==> trivia_from(#[trigger] seps[k], 0))
    &&& (forall|k: int| 1 <= k < sps.len() ==> (#[trigger] seps[k]).len() > 0)
    &&& (forall|k: int|
        1 <= k < seps.len() ==> ((#[trigger] seps[k]).len() > 0 ==> is_ws(seps[k][0])))
}

#[verifier::rlimit(50)]
proof fn lemma_lex_render_from(
    s: Seq<u8>,
    i: int,
    seps: Seq<Seq<u8>>,
    sps: Seq<Seq<u8>>,
    toks: Seq<TokM>,
)
    requires
        0 <= i <= s.len(),
        s.skip(i) == render(seps, sps),
        render_ok(seps, sps, toks),
    ensures
        lex_from(s, i).0.map_values(|tsp: TokSp| tsp.tok) == toks,
        lex_from(s, i).1 == Seq::<DiagM>::empty(),
    decreases toks.len(),
{
    assert(forall|k: int| i <= k < s.len() ==> #[trigger] s[k] == s.skip(i)[k - i]);
    if sps.len() == 0 {
        let n = seps[0].len() as int;
        assert(s.skip(i).len() == s.len() - i);
        assert(s.len() - i == n);
        assert(s.subrange(i, i + n) =~= seps[0]);
        lemma_skip_trivia_concat(s, i, seps[0], 0);
        assert(lex_from(s, i).0 =~= Seq::<TokSp>::empty());
        assert(lex_from(s, i).0.map_values(|tsp: TokSp| tsp.tok) =~= toks);
        assert(lex_from(s, i).1 =~= Seq::<DiagM>::empty());
    } else {
        let w0 = seps[0];
        let sp0 = sps[0];
        let t0 = toks[0];
        let rest = render(seps.drop_first(), sps.drop_first());
        let j = i + w0.len() as int;
        let e = j + sp0.len() as int;
        assert(spells(sp0, t0));
        assert(sp0.len() > 0);
        assert(s.skip(i) == w0 + sp0 + rest);
        assert(s.skip(i).len() == s.len() - i);
        assert((w0 + sp0 + rest).len() == w0.len() + sp0.len() + rest.len());
        assert(s.len() - i == w0.len() + sp0.len() + rest.len());
        // bytes of the leading separator, the spelling, and what follows
        assert(forall|k: int| i <= k < j ==> #[trigger] s[k] == w0[k - i]);
        assert(forall|k: int| j <= k < e ==> #[trigger] s[k] == sp0[k - j]);
        assert(s.subrange(j, e) =~= sp0);
        assert(forall|k: int| e <= k < s.len() ==> #[trigger] s[k] == rest[k - e]);
        // what follows the spelling is whitespace or the end
        assert(e == s.len() || is_ws(s[e])) by {
            if e < s.len() {
                assert(rest.len() > 0);
                if sps.len() == 1 {
                    assert(rest == seps.drop_first()[0]);
                    assert(seps.drop_first()[0] == seps[1]);
                    assert(is_ws(rest[0]));
                } else {
                    assert(seps[1].len() > 0);
                    assert(rest == seps[1] + sps[1] + render(
                        seps.drop_first().drop_first(),
                        sps.drop_first().drop_first(),
                    ));
                    assert(rest[0] == seps[1][0]);
                    assert(is_ws(rest[0]));
                }
                assert(s[e] == rest[0]);
            }
        }
        // the spelling's first byte stops the whitespace skip
        assert(!is_ws(s[j])) by {
            assert(s[j] == sp0[0]);
            match t0 {
                TokM::Number(_) => {
                    assert(is_digit(sp0[0]));
                },
                TokM::Ident(_) => {
                    assert(is_ident_byte(sp0[0]));
                },
                TokM::Sym(_) => {},
                TokM::Str(_) => {},
                TokM::Error(_) => {},
            }
        }
        assert(!is_comment_start(s, j)) by {
            if j + 1 < s.len() && s[j] == 47 {
                // only a slash or slash-equals spelling starts with a
                // slash; neither puts a second slash next
                if sp0.len() >= 2 {
                    assert(s[j + 1] == sp0[1]);
                    assert(sp0[1] != 47);
                } else {
                    assert(j + 1 == e);
                    assert(is_ws(s[e]));
                }
            }
        }
        assert(s.subrange(i, j) =~= w0);
        lemma_skip_trivia_concat(s, i, w0, 0);
        assert(skip_trivia(s, i) == j);
        lemma_scan_spelling(s, j, sp0, t0);
        assert(lex_from(s, i).0 =~= seq![
            TokSp { tok: t0, span: mk_span(j, e) },
        ] + lex_from(s, e).0);
        assert(lex_from(s, i).1 =~= lex_from(s, e).1);
        // the rest of the text renders the rest of the tokens
        assert(s.skip(e) =~= rest);
        lemma_lex_render_from(s, e, seps.drop_first(), sps.drop_first(), toks.drop_first());
        assert(lex_from(s, i).0.map_values(|tsp: TokSp| tsp.tok) =~= seq![t0] + lex_from(
            s,
            e,
        ).0.map_values(|tsp: TokSp| tsp.tok));
        assert(seq![t0] + toks.drop_first() =~= toks);
    }
}

/// Round-trip: a text assembled from any syntactically valid token
/// spelling sequence, with any whitespace and comments around the
/// spellings (none required at the edges, any nonempty run between
/// two tokens), tokenizes back to exactly those tokens, in order,
/// with no lexical diagnostic.
pub proof fn lemma_tokenizing_round_trip(seps: Seq<Seq<u8>>, sps: Seq<Seq<u8>>, toks: Seq<TokM>)
    requires
        render_ok(seps, sps, toks),
    ensures
        crate::lexer::lex_toks(render(seps, sps)).map_values(|tsp: TokSp| tsp.tok) == toks,
        crate::lexer::lex_diags(render(seps, sps)) == Seq::<DiagM>::empty(),
{
    let s = render(seps, sps);
    assert(s.skip(0) =~= s);
    lemma_lex_render_from(s, 0, seps, sps, toks);
}

/// Inserting or removing whitespace or comments between tokens never
/// changes the token sequence: two renderings of the same spellings
/// with different separators tokenize to the same tokens.
pub proof fn lemma_whitespace_insensitive(
    seps1: Seq<Seq<u8>>,
    seps2: Seq<Seq<u8>>,
    sps: Seq<Seq<u8>>,
    toks: Seq<TokM>,
)
    requires
        render_ok(seps1, sps, toks),
        render_ok(seps2, sps, toks),
    ensures
        crate::lexer::lex_toks(render(seps1, sps)).map_values(|tsp: TokSp| tsp.tok)
            == crate::lexer::lex_toks(render(seps2, sps)).map_values(|tsp: TokSp| tsp.tok),
{
    lemma_tokenizing_round_trip(seps1, sps, toks);
    lemma_tokenizing_round_trip(seps2, sps, toks);
}

} // verus!

verus! {

use crate::lexer::{lemma_skip_to_eol, skip_to_eol};

/// The bytes of `w` from `m` on are well-formed trivia: whitespace and
/// comments, each comment closed by a newline inside `w`.
pub open spec fn trivia_from(w: Seq<u8>, m: int) -> bool
    decreases w.len() - m when 0 <= m <= w.len() via trivia_from_dec
{
    if m >= w.len() {
        true
    } else if is_ws(w[m]) {
        trivia_from(w, m + 1)
    } else if m + 1 < w.len() && w[m] == 47 && w[m + 1] == 47 {
        skip_to_eol(w, m + 2) < w.len() && trivia_from(w, skip_to_eol(w, m + 2))
    } else {
        false
    }
}

#[via_fn]
proof fn trivia_from_dec(w: Seq<u8>, m: int) {
    if m < w.len() && !is_ws(w[m]) && m + 1 < w.len() && w[m] == 47 && w[m + 1] == 47 {
        lemma_skip_to_eol(w, m + 2);
    }
}

/// The end of a line is found at the same relative position within
/// equal bytes, provided the newline lies inside the window.
proof fn lemma_skip_to_eol_concat(s: Seq<u8>, i: int, w: Seq<u8>, m: int)
    requires
        0 <= i, i + w.len() <= s.len(),
        s.subrange(i, i + w.len() as int) == w,
        0 <= m <= w.len(),
        skip_to_eol(w, m) < w.len(),
    ensures
        skip_to_eol(s, i + m) == i + skip_to_eol(w, m),
    decreases w.len() - m,
{
    assert(forall|k: int| 0 <= k < w.len() ==> #[trigger] w[k] == s.subrange(
        i,
        i + w.len() as int,
    )[k]);
    if m < w.len() && w[m] != 10 {
        lemma_skip_to_eol_concat(s, i, w, m + 1);
    }
}

/// Well-formed trivia within equal bytes is skipped exactly to its
/// end, when what follows starts neither whitespace nor a comment.
proof fn lemma_skip_trivia_concat(s: Seq<u8>, i: int, w: Seq<u8>, m: int)
    requires
        0 <= i, i + w.len() <= s.len(),
        s.subrange(i, i + w.len() as int) == w,
        0 <= m <= w.len(),
        trivia_from(w, m),
        i + w.len() == s.len() || (!is_ws(s[i + w.len() as int]) && !is_comment_start(
            s,
            i + w.len() as int,
        )),
    ensures
        skip_trivia(s, i + m) == i + w.len(),
    decreases w.len() - m,
{
    assert(forall|k: int| 0 <= k < w.len() ==> #[trigger] w[k] == s.subrange(
        i,
        i + w.len() as int,
    )[k]);
    if m >= w.len() {
    } else if is_ws(w[m]) {
        assert(is_ws(s[i + m]));
        lemma_skip_trivia_concat(s, i, w, m + 1);
    } else {
        let e = skip_to_eol(w, m + 2);
        assert(is_comment_start(s, i + m));
        lemma_skip_to_eol_concat(s, i, w, m + 2);
        lemma_skip_to_eol(w, m + 2);
        lemma_skip_trivia_concat(s, i, w, e);
    }
}

/// All-whitespace runs are well-formed trivia.
pub proof fn lemma_all_ws_trivia(w: Seq<u8>, m: int)
    requires
        0 <= m <= w.len(),
        all_ws(w),
    ensures
        trivia_from(w, m),
    decreases w.len() - m,
{
    if m < w.len() {
        lemma_all_ws_trivia(w, m + 1);
    }
}

} // verus!

verus! {

use crate::ast::{ExprM, SpExprM, SpStmtM, StmtM};
use crate::interp::{empty_env, eval_expr_m, run_stmt_m, run_stmts_m, EnvM, ValM};
use crate::parser::{p_atom, p_block, p_if, p_inline, p_let, p_program, p_stmt, p_stmts};

// ---------------------------------------------------------------------
// Every error resolves to a concrete byte range: parsed nodes carry
// token-index spans that lie within the token sequence, and a runtime
// error always carries the span of such a node, so its diagnostic is
// anchored at real token byte ranges.
// ---------------------------------------------------------------------

/// Every span of the expression indexes tokens: nonempty and within
/// the first `n`.
pub open spec fn expr_wf(e: SpExprM, n: int) -> bool
    decreases e,
{
    &&& e.span.start < e.span.end <= n
    &&& match e.node {
        ExprM::Lit(_) => true,
        ExprM::Access(_) => true,
        ExprM::Group(b) => expr_wf(*b, n),
        ExprM::Not(b) => expr_wf(*b, n),
        ExprM::Neg(b) => expr_wf(*b, n),
        ExprM::Bin(_, l, r) => expr_wf(*l, n) && expr_wf(*r, n),
    }
}

/// Every span of the statement indexes tokens.
pub open spec fn stmt_wf(s: SpStmtM, n: int) -> bool
    decreases s,
{
    &&& s.span.start < s.span.end <= n
    &&& match s.node {
        StmtM::Let { ident, init } => expr_wf(init, n),
        StmtM::Block { stmts } => stmts_wf(stmts, n),
        StmtM::If { then_branch, else_branch } => stmt_wf(*then_branch, n) && match else_branch {
            Some(b) => stmt_wf(*b, n),
            None => true,
        },
    }
}

pub open spec fn stmts_wf(ss: Seq<SpStmtM>, n: int) -> bool
    decreases ss,
{
    if ss.len() == 0 {
        true
    } else {
        stmt_wf(ss[0], n) && stmts_wf(ss.drop_first(), n)
    }
}

proof fn lemma_p_atom_wf(ts: Seq<TokSp>, i: int)
    requires
        0 <= i <= ts.len(),
        ts.len() <= usize::MAX,
    ensures
        match p_atom(ts, i) {
            Some((e, j)) => i < j <= ts.len() && expr_wf(e, ts.len() as int) && e.span.start == i
                && e.span.end == j,
            None => true,
        },
    decreases ts.len() - i, 1int,
{
    if i < ts.len() {
        lemma_p_inline_wf(ts, i + 1);
    }
}

proof fn lemma_p_inline_wf(ts: Seq<TokSp>, i: int)
    requires
        0 <= i <= ts.len(),
        ts.len() <= usize::MAX,
    ensures
        match p_inline(ts, i) {
            Some((e, j)) => i < j <= ts.len() && expr_wf(e, ts.len() as int) && e.span.start == i
                && e.span.end == j,
            None => true,
        },
    decreases ts.len() - i, 2int,
{
    if i < ts.len() {
        lemma_p_atom_wf(ts, i + 1);
        lemma_p_atom_wf(ts, i);
        match p_atom(ts, i) {
            Some((a, j)) => {
                if j < ts.len() {
                    lemma_p_atom_wf(ts, j + 1);
                }
            },
            None => {},
        }
    }
}

proof fn lemma_p_let_wf(ts: Seq<TokSp>, i: int)
    requires
        0 <= i <= ts.len(),
        ts.len() <= usize::MAX,
    ensures
        match p_let(ts, i) {
            Some((s, j)) => i < j <= ts.len() && stmt_wf(s, ts.len() as int) && s.span.start == i
                && s.span.end == j,
            None => true,
        },
    decreases ts.len() - i, 3int,
{
    if i + 2 < ts.len() {
        lemma_p_inline_wf(ts, i + 3);
    }
}

proof fn lemma_p_block_wf(ts: Seq<TokSp>, i: int)
    requires
        0 <= i <= ts.len(),
        ts.len() <= usize::MAX,
    ensures
        match p_block(ts, i) {
            Some((s, j)) => i < j <= ts.len() && stmt_wf(s, ts.len() as int) && s.span.start == i
                && s.span.end == j,
            None => true,
        },
    decreases ts.len() - i, 4int,
{
    if i < ts.len() {
        lemma_p_stmts_wf(ts, i + 1);
    }
}

proof fn lemma_p_if_wf(ts: Seq<TokSp>, i: int)
    requires
        0 <= i <= ts.len(),
        ts.len() <= usize::MAX,
    ensures
        match p_if(ts, i) {
            Some((s, j)) => i < j <= ts.len() && stmt_wf(s, ts.len() as int) && s.span.start == i
                && s.span.end == j,
            None => true,
        },
    decreases ts.len() - i, 5int,
{
    if i < ts.len() {
        lemma_p_block_wf(ts, i + 1);
        match p_block(ts, i + 1) {
            Some((blk, j)) => {
                if i < j && j < ts.len() {
                    lemma_p_block_wf(ts, j + 1);
                    lemma_p_if_wf(ts, j + 1);
                }
            },
            None => {},
        }
    }
}

proof fn lemma_p_stmt_wf(ts: Seq<TokSp>, i: int)
    requires
        0 <= i <= ts.len(),
        ts.len() <= usize::MAX,
    ensures
        match p_stmt(ts, i) {
            Some((s, j)) => i < j <= ts.len() && stmt_wf(s, ts.len() as int) && s.span.start == i
                && s.span.end == j,
            None => true,
        },
    decreases ts.len() - i, 6int,
{
    if i < ts.len() {
        lemma_p_block_wf(ts, i);
        lemma_p_let_wf(ts, i);
        lemma_p_if_wf(ts, i);
    }
}

proof fn lemma_p_stmts_wf(ts: Seq<TokSp>, i: int)
    requires
        0 <= i <= ts.len(),
        ts.len() <= usize::MAX,
    ensures
        i <= p_stmts(ts, i).1 <= ts.len(),
        stmts_wf(p_stmts(ts, i).0, ts.len() as int),
    decreases ts.len() - i, 7int,
{
    lemma_p_stmt_wf(ts, i);
    match p_stmt(ts, i) {
        Some((s, j)) => {
            lemma_p_stmts_wf(ts, j);
            let r = p_stmts(ts, j);
            assert((seq![s] + r.0).drop_first() =~= r.0);
        },
        None => {},
    }
}

/// Every node the whole parse produces carries spans that index the
/// token sequence.
pub proof fn lemma_p_program_wf(ts: Seq<TokSp>, i: int)
    requires
        0 <= i <= ts.len(),
        ts.len() <= usize::MAX,
    ensures
        stmts_wf(p_program(ts, i).0, ts.len() as int),
    decreases ts.len() - i, 8int,
{
    if i < ts.len() {
        lemma_p_stmt_wf(ts, i);
        match p_stmt(ts, i) {
            Some((s, j)) => {
                lemma_p_program_wf(ts, j);
                let r = p_program(ts, j);
                assert((seq![s] + r.0).drop_first() =~= r.0);
            },
            None => {
                lemma_p_program_wf(ts, i + 1);
            },
        }
    }
}

proof fn lemma_eval_expr_err_wf(env: Map<Seq<u8>, ValM>, e: SpExprM, n: int)
    requires
        expr_wf(e, n),
    ensures
        match eval_expr_m(env, e) {
            Err(er) => er.span.start < er.span.end <= n,
            Ok(_) => true,
        },
    decreases e,
{
    match e.node {
        ExprM::Group(b) => {
            assert(expr_wf(*b, n));
            lemma_eval_expr_err_wf(env, *b, n);
            assert(eval_expr_m(env, e) == eval_expr_m(env, *b));
            match eval_expr_m(env, *b) {
                Err(er) => {
                    assert(er.span.start < er.span.end <= n);
                },
                Ok(_) => {},
            }
        },
        ExprM::Not(b) => {
            lemma_eval_expr_err_wf(env, *b, n);
            assert(expr_wf(*b, n));
            assert(e.span.start < e.span.end <= n);
            assert(match eval_expr_m(env, e) {
                Err(er) => er.span.start < er.span.end <= n,
                Ok(_) => true,
            });
        },
        ExprM::Neg(b) => {
            lemma_eval_expr_err_wf(env, *b, n);
            assert(expr_wf(*b, n));
            assert(e.span.start < e.span.end <= n);
            assert(match eval_expr_m(env, e) {
                Err(er) => er.span.start < er.span.end <= n,
                Ok(_) => true,
            });
        },
        ExprM::Bin(_, l, r) => {
            lemma_eval_expr_err_wf(env, *l, n);
            lemma_eval_expr_err_wf(env, *r, n);
            assert(expr_wf(*l, n));
            assert(expr_wf(*r, n));
            assert(e.span.start < e.span.end <= n);
            assert((*l).span.start < (*l).span.end <= n);
            assert((*r).span.start < (*r).span.end <= n);
            assert(match eval_expr_m(env, e) {
                Err(er) => er.span.start < er.span.end <= n,
                Ok(_) => true,
            });
        },
        ExprM::Lit(_) => {
            assert(match eval_expr_m(env, e) {
                Err(er) => er.span.start < er.span.end <= n,
                Ok(_) => true,
            });
        },
        ExprM::Access(_) => {
            assert(match eval_expr_m(env, e) {
                Err(er) => er.span.start < er.span.end <= n,
                Ok(_) => true,
            });
        },
    }
}

proof fn lemma_run_stmt_err_wf(env: EnvM, s: SpStmtM, n: int)
    requires
        stmt_wf(s, n),
    ensures
        match run_stmt_m(env, s) {
            Err(er) => er.span.start < er.span.end <= n,
            Ok(_) => true,
        },
    decreases s,
{
    match s.node {
        StmtM::Let { ident, init } => {
            lemma_eval_expr_err_wf(env.vars, init, n);
        },
        StmtM::Block { stmts } => {
            lemma_run_stmts_err_wf(env, stmts, n);
        },
        StmtM::If { then_branch, else_branch } => {
            lemma_run_stmt_err_wf(env, *then_branch, n);
        },
    }
}

proof fn lemma_run_stmts_err_wf(env: EnvM, ss: Seq<SpStmtM>, n: int)
    requires
        stmts_wf(ss, n),
    ensures
        match run_stmts_m(env, ss) {
            Err(er) => er.span.start < er.span.end <= n,
            Ok(_) => true,
        },
    decreases ss,
{
    if ss.len() > 0 {
        lemma_run_stmt_err_wf(env, ss[0], n);
        match run_stmt_m(env, ss[0]) {
            Ok(e2) => {
                lemma_run_stmts_err_wf(e2, ss.drop_first(), n);
            },
            Err(_) => {},
        }
    }
}

/// Every error resolves to a concrete byte range of the original
/// source: a fatal runtime error of a parsed program carries a
/// nonempty token-index span that lies within the token sequence, so
/// its diagnostic is anchored at the byte ranges of real tokens.
pub proof fn lemma_runtime_errors_anchored(ts: Seq<TokSp>)
    requires
        ts.len() <= usize::MAX,
    ensures
        match run_stmts_m(empty_env(), p_program(ts, 0).0) {
            Err(er) => er.span.start < er.span.end <= ts.len(),
            Ok(_) => true,
        },
{
    lemma_p_program_wf(ts, 0);
    lemma_run_stmts_err_wf(empty_env(), p_program(ts, 0).0, ts.len() as int);
}

} // verus!
