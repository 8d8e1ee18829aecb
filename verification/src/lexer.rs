use vstd::prelude::*;
use crate::diag::{error_diag, mk_error_diag, view_diag, view_diags, Diag, DiagM, DiagMsg};
use crate::span::{Span, Spanned};
use crate::token::{view_tok, view_toks, LexErr, Sym, TokM, TokSp, Token};

verus! {

// ---------------------------------------------------------------------
// Byte classes (ASCII codes: 9 tab, 10 newline, 13 return, 32 space,
// 39 single quote, 47 slash, 48..=57 digits, 92 backslash,
// 95 underscore, 97..=122 lower-case letters).
// ---------------------------------------------------------------------

pub open spec fn is_ws(b: u8) -> bool {
    b == 32 || b == 9 || b == 10 || b == 13
}

pub open spec fn is_digit(b: u8) -> bool {
    48 <= b <= 57
}

pub open spec fn is_ident_byte(b: u8) -> bool {
    (97 <= b <= 122) || b == 95
}

/// A comment starts with two slashes.
pub open spec fn is_comment_start(s: Seq<u8>, i: int) -> bool {
    i + 1 < s.len() && s[i] == 47 && s[i + 1] == 47
}

// ---------------------------------------------------------------------
// Trivia: whitespace and `//`-to-end-of-line comments.
// ---------------------------------------------------------------------

/// First index at or after `i` holding a newline, or the end of input.
pub open spec fn skip_to_eol(s: Seq<u8>, i: int) -> int
    decreases s.len() - i when 0 <= i <= s.len()
{
    if i < s.len() && s[i] != 10 {
        skip_to_eol(s, i + 1)
    } else {
        i
    }
}

pub proof fn lemma_skip_to_eol(s: Seq<u8>, i: int)
    requires
        0 <= i <= s.len(),
    ensures
        i <= skip_to_eol(s, i) <= s.len(),
    decreases s.len() - i,
{
    if i < s.len() && s[i] != 10 {
        lemma_skip_to_eol(s, i + 1);
    }
}

/// First index at or after `i` that starts neither whitespace nor a
/// comment: where the next token, if any, begins.
pub open spec fn skip_trivia(s: Seq<u8>, i: int) -> int
    decreases s.len() - i when 0 <= i <= s.len() via skip_trivia_dec
{
    if i < s.len() && is_ws(s[i]) {
        skip_trivia(s, i + 1)
    } else if is_comment_start(s, i) {
        skip_trivia(s, skip_to_eol(s, i + 2))
    } else {
        i
    }
}

#[via_fn]
proof fn skip_trivia_dec(s: Seq<u8>, i: int) {
    if !(i < s.len() && is_ws(s[i])) && is_comment_start(s, i) {
        lemma_skip_to_eol(s, i + 2);
    }
}

pub proof fn lemma_skip_trivia(s: Seq<u8>, i: int)
    requires
        0 <= i <= s.len(),
    ensures
        i <= skip_trivia(s, i) <= s.len(),
    decreases s.len() - i,
{
    if i < s.len() && is_ws(s[i]) {
        lemma_skip_trivia(s, i + 1);
    } else if is_comment_start(s, i) {
        lemma_skip_to_eol(s, i + 2);
        lemma_skip_trivia(s, skip_to_eol(s, i + 2));
    }
}

// ---------------------------------------------------------------------
// Digit runs and integer literals.
// ---------------------------------------------------------------------

/// End of the maximal digit run starting at `i`.
pub open spec fn digits_end(s: Seq<u8>, i: int) -> int
    decreases s.len() - i when 0 <= i <= s.len()
{
    if i < s.len() && is_digit(s[i]) {
        digits_end(s, i + 1)
    } else {
        i
    }
}

pub proof fn lemma_digits_end(s: Seq<u8>, i: int)
    requires
        0 <= i <= s.len(),
    ensures
        i <= digits_end(s, i) <= s.len(),
    decreases s.len() - i,
{
    if i < s.len() && is_digit(s[i]) {
        lemma_digits_end(s, i + 1);
    }
}

/// Value of the decimal digit run `s[i..j]`, as an unbounded integer.
pub open spec fn digits_val(s: Seq<u8>, i: int, j: int) -> int
    decreases j - i when 0 <= i <= j <= s.len()
{
    if i < j {
        digits_val(s, i, j - 1) * 10 + (s[j - 1] - 48)
    } else {
        0
    }
}

/// The token a maximal digit run denotes: its value as a 64-bit signed
/// integer, or an overflow marker when the value does not fit.
pub open spec fn number_token(s: Seq<u8>, i: int, j: int) -> TokM {
    if digits_val(s, i, j) <= 0x7fff_ffff_ffff_ffff {
        TokM::Number(digits_val(s, i, j) as i64)
    } else {
        TokM::Error(LexErr::IntegerOverflow)
    }
}

// ---------------------------------------------------------------------
// Identifier runs and keywords.
// ---------------------------------------------------------------------

/// End of the maximal identifier run (lower-case letters, underscore)
/// starting at `i`.
pub open spec fn ident_end(s: Seq<u8>, i: int) -> int
    decreases s.len() - i when 0 <= i <= s.len()
{
    if i < s.len() && is_ident_byte(s[i]) {
        ident_end(s, i + 1)
    } else {
        i
    }
}

pub proof fn lemma_ident_end(s: Seq<u8>, i: int)
    requires
        0 <= i <= s.len(),
    ensures
        i <= ident_end(s, i) <= s.len(),
    decreases s.len() - i,
{
    if i < s.len() && is_ident_byte(s[i]) {
        lemma_ident_end(s, i + 1);
    }
}

/// The eight reserved spellings, which take priority over identically
/// spelled identifiers.
pub open spec fn keyword_of(w: Seq<u8>) -> Option<Sym> {
    if w.len() == 3 && w[0] == 108 && w[1] == 101 && w[2] == 116 {  // let
        Some(Sym::Let)
    } else if w.len() == 2 && w[0] == 105 && w[1] == 102 {  // if
        Some(Sym::If)
    } else if w.len() == 4 && w[0] == 101 && w[1] == 108 && w[2] == 115 && w[3] == 101 {  // else
        Some(Sym::Else)
    } else if w.len() == 5 && w[0] == 112 && w[1] == 114 && w[2] == 105 && w[3] == 110 && w[4]
        == 116 {  // print
        Some(Sym::Print)
    } else if w.len() == 4 && w[0] == 116 && w[1] == 114 && w[2] == 117 && w[3] == 101 {  // true
        Some(Sym::True)
    } else if w.len() == 5 && w[0] == 102 && w[1] == 97 && w[2] == 108 && w[3] == 115 && w[4]
        == 101 {  // false
        Some(Sym::False)
    } else if w.len() == 5 && w[0] == 119 && w[1] == 104 && w[2] == 105 && w[3] == 108 && w[4]
        == 101 {  // while
        Some(Sym::While)
    } else if w.len() == 3 && w[0] == 102 && w[1] == 111 && w[2] == 114 {  // for
        Some(Sym::For)
    } else {
        None
    }
}

pub open spec fn ident_token(w: Seq<u8>) -> TokM {
    match keyword_of(w) {
        Some(k) => TokM::Sym(k),
        None => TokM::Ident(w),
    }
}

// ---------------------------------------------------------------------
// String literals: single-quote delimited, backslash escapes.
// ---------------------------------------------------------------------

/// Index of the closing quote of a string whose content starts at `i`
/// (just after the opening quote), honouring backslash escapes; `None`
/// when the literal is unterminated.
pub open spec fn str_close(s: Seq<u8>, i: int) -> Option<int>
    decreases s.len() - i when 0 <= i <= s.len()
{
    if i >= s.len() {
        None
    } else if s[i] == 39 {
        Some(i)
    } else if s[i] == 92 {
        if i + 1 < s.len() {
            str_close(s, i + 2)
        } else {
            None
        }
    } else {
        str_close(s, i + 1)
    }
}

pub proof fn lemma_str_close(s: Seq<u8>, i: int)
    requires
        0 <= i <= s.len(),
    ensures
        str_close(s, i) is Some ==> i <= str_close(s, i)->0 < s.len()
            && s[str_close(s, i)->0] == 39,
    decreases s.len() - i,
{
    if i < s.len() && s[i] != 39 {
        if s[i] == 92 {
            if i + 1 < s.len() {
                lemma_str_close(s, i + 2);
            }
        } else {
            lemma_str_close(s, i + 1);
        }
    }
}

/// What a backslash escape denotes: `n`, `t`, `r`, `0`, backslash and
/// quote are accepted; anything else invalidates the literal.
pub open spec fn escape_of(b: u8) -> Option<u8> {
    if b == 110 {  // n
        Some(10)
    } else if b == 116 {  // t
        Some(9)
    } else if b == 114 {  // r
        Some(13)
    } else if b == 48 {  // 0
        Some(0)
    } else if b == 92 {  // backslash
        Some(92)
    } else if b == 39 {  // quote
        Some(39)
    } else {
        None
    }
}

/// Escape-decoded content of `s[i..j]`; `None` on an invalid escape.
pub open spec fn decode_str(s: Seq<u8>, i: int, j: int) -> Option<Seq<u8>>
    decreases j - i when 0 <= i && j <= s.len()
{
    if i >= j {
        Some(Seq::empty())
    } else if s[i] == 92 {
        if i + 1 < j {
            match escape_of(s[i + 1]) {
                Some(b) => match decode_str(s, i + 2, j) {
                    Some(rest) => Some(seq![b] + rest),
                    None => None,
                },
                None => None,
            }
        } else {
            None
        }
    } else {
        match decode_str(s, i + 1, j) {
            Some(rest) => Some(seq![s[i]] + rest),
            None => None,
        }
    }
}

/// The token of a terminated string literal with content `s[i..j]`.
pub open spec fn str_token(s: Seq<u8>, i: int, j: int) -> TokM {
    match decode_str(s, i, j) {
        Some(content) => TokM::Str(content),
        None => TokM::Error(LexErr::InvalidStringEscape),
    }
}

// ---------------------------------------------------------------------
// Operators and punctuation, matched longest spelling first.
// ---------------------------------------------------------------------

pub open spec fn op3_of(a: u8, b: u8, c: u8) -> Option<Sym> {
    if a == 60 && b == 60 && c == 61 {  // <<=
        Some(Sym::ShlEq)
    } else if a == 62 && b == 62 && c == 61 {  // >>=
        Some(Sym::ShrEq)
    } else {
        None
    }
}

pub open spec fn op2_of(a: u8, b: u8) -> Option<Sym> {
    if b == 61 {  // second byte =
        if a == 43 {
            Some(Sym::PlusEq)
        } else if a == 45 {
            Some(Sym::MinusEq)
        } else if a == 42 {
            Some(Sym::StarEq)
        } else if a == 47 {
            Some(Sym::SlashEq)
        } else if a == 61 {
            Some(Sym::EqEq)
        } else if a == 33 {
            Some(Sym::Ne)
        } else if a == 62 {
            Some(Sym::Ge)
        } else if a == 60 {
            Some(Sym::Le)
        } else if a == 124 {
            Some(Sym::PipeEq)
        } else if a == 38 {
            Some(Sym::AndEq)
        } else if a == 94 {
            Some(Sym::CaretEq)
        } else if a == 37 {
            Some(Sym::PercentEq)
        } else {
            None
        }
    } else if a == 60 && b == 60 {  // <<
        Some(Sym::Shl)
    } else if a == 62 && b == 62 {  // >>
        Some(Sym::Shr)
    } else {
        None
    }
}

pub open spec fn op1_of(a: u8) -> Option<Sym> {
    if a == 43 {  // +
        Some(Sym::Plus)
    } else if a == 45 {  // -
        Some(Sym::Minus)
    } else if a == 42 {  // *
        Some(Sym::Star)
    } else if a == 47 {  // /
        Some(Sym::Slash)
    } else if a == 61 {  // =
        Some(Sym::Eq)
    } else if a == 33 {  // !
        Some(Sym::Bang)
    } else if a == 62 {  // >
        Some(Sym::Gt)
    } else if a == 60 {  // <
        Some(Sym::Lt)
    } else if a == 126 {  // ~
        Some(Sym::Tilde)
    } else if a == 124 {  // |
        Some(Sym::Pipe)
    } else if a == 38 {  // &
        Some(Sym::And)
    } else if a == 94 {  // ^
        Some(Sym::Caret)
    } else if a == 63 {  // ?
        Some(Sym::Question)
    } else if a == 37 {  // %
        Some(Sym::Percent)
    } else if a == 123 {  // {
        Some(Sym::LeftBrace)
    } else if a == 125 {  // }
        Some(Sym::RightBrace)
    } else if a == 91 {  // [
        Some(Sym::LeftBracket)
    } else if a == 93 {  // ]
        Some(Sym::RightBracket)
    } else if a == 40 {  // (
        Some(Sym::LeftParen)
    } else if a == 41 {  // )
        Some(Sym::RightParen)
    } else if a == 44 {  // ,
        Some(Sym::Comma)
    } else if a == 59 {  // ;
        Some(Sym::Semi)
    } else {
        None
    }
}

/// The longest operator spelling starting at `i`, with its end.
pub open spec fn op_at(s: Seq<u8>, i: int) -> Option<(Sym, int)> {
    if i + 2 < s.len() && op3_of(s[i], s[i + 1], s[i + 2]) is Some {
        Some((op3_of(s[i], s[i + 1], s[i + 2])->0, i + 3))
    } else if i + 1 < s.len() && op2_of(s[i], s[i + 1]) is Some {
        Some((op2_of(s[i], s[i + 1])->0, i + 2))
    } else if i < s.len() && op1_of(s[i]) is Some {
        Some((op1_of(s[i])->0, i + 1))
    } else {
        None
    }
}

// ---------------------------------------------------------------------
// One lexing step.
// ---------------------------------------------------------------------

/// Outcome of scanning one token at a position that holds neither
/// whitespace nor a comment: possibly a token, possibly a diagnostic,
/// and the position where scanning resumes.
pub struct ScanRes {
    pub tok: Option<TokSp>,
    pub diag: Option<DiagM>,
    pub end: int,
}

pub open spec fn mk_span(i: int, j: int) -> Span {
    Span { start: i as usize, end: j as usize }
}

/// Scans the single token starting at `i` (which must be in bounds):
/// a digit run, an identifier or keyword run, a string literal, the
/// longest matching operator spelling, or — for an unmatched byte — no
/// token, one diagnostic and a one-byte skip.
pub open spec fn scan_token(s: Seq<u8>, i: int) -> ScanRes {
    if is_digit(s[i]) {
        let j = digits_end(s, i);
        ScanRes {
            tok: Some(TokSp { tok: number_token(s, i, j), span: mk_span(i, j) }),
            diag: None,
            end: j,
        }
    } else if is_ident_byte(s[i]) {
        let j = ident_end(s, i);
        ScanRes {
            tok: Some(TokSp { tok: ident_token(s.subrange(i, j)), span: mk_span(i, j) }),
            diag: None,
            end: j,
        }
    } else if s[i] == 39 {
        match str_close(s, i + 1) {
            Some(q) => {
                let t = str_token(s, i + 1, q);
                ScanRes {
                    tok: Some(TokSp { tok: t, span: mk_span(i, q + 1) }),
                    diag: if t is Error {
                        Some(error_diag(DiagMsg::InvalidStringEscape, mk_span(i, q + 1)))
                    } else {
                        None
                    },
                    end: q + 1,
                }
            },
            None => ScanRes {
                tok: None,
                diag: Some(error_diag(DiagMsg::UnexpectedCharacter, mk_span(i, i + 1))),
                end: i + 1,
            },
        }
    } else {
        match op_at(s, i) {
            Some((sym, j)) => ScanRes {
                tok: Some(TokSp { tok: TokM::Sym(sym), span: mk_span(i, j) }),
                diag: None,
                end: j,
            },
            None => ScanRes {
                tok: None,
                diag: Some(error_diag(DiagMsg::UnexpectedCharacter, mk_span(i, i + 1))),
                end: i + 1,
            },
        }
    }
}

pub proof fn lemma_scan_token(s: Seq<u8>, i: int)
    requires
        0 <= i < s.len(),
    ensures
        i < scan_token(s, i).end <= s.len(),
    decreases s.len() - i,
{
    if is_digit(s[i]) {
        lemma_digits_end(s, i + 1);
        assert(digits_end(s, i) == digits_end(s, i + 1));
    } else if is_ident_byte(s[i]) {
        lemma_ident_end(s, i + 1);
        assert(ident_end(s, i) == ident_end(s, i + 1));
    } else if s[i] == 39 {
        lemma_str_close(s, i + 1);
    }
}

// ---------------------------------------------------------------------
// The whole tokenizing pass.
// ---------------------------------------------------------------------

/// Tokens and diagnostics of the input from position `i` on: skip
/// trivia, scan one token, repeat. This is the reference meaning of
/// tokenizing; it always terminates and never aborts.
pub open spec fn lex_from(s: Seq<u8>, i: int) -> (Seq<TokSp>, Seq<DiagM>)
    decreases s.len() - i when 0 <= i <= s.len() via lex_from_dec
{
    let j = skip_trivia(s, i);
    if j >= s.len() {
        (Seq::empty(), Seq::empty())
    } else {
        let r = scan_token(s, j);
        let rest = lex_from(s, r.end);
        let toks = match r.tok {
            Some(t) => seq![t] + rest.0,
            None => rest.0,
        };
        let diags = match r.diag {
            Some(d) => seq![d] + rest.1,
            None => rest.1,
        };
        (toks, diags)
    }
}

#[via_fn]
proof fn lex_from_dec(s: Seq<u8>, i: int) {
    lemma_skip_trivia(s, i);
    if skip_trivia(s, i) < s.len() {
        lemma_scan_token(s, skip_trivia(s, i));
    }
}

/// The token sequence of a source text.
pub open spec fn lex_toks(s: Seq<u8>) -> Seq<TokSp> {
    lex_from(s, 0).0
}

/// The lexical diagnostics of a source text.
pub open spec fn lex_diags(s: Seq<u8>) -> Seq<DiagM> {
    lex_from(s, 0).1
}

} // verus!

verus! {

// ---------------------------------------------------------------------
// Executable byte classifiers.
// ---------------------------------------------------------------------

fn is_ws_x(b: u8) -> (r: bool)
    ensures
        r == is_ws(b),
{
    b == 32 || b == 9 || b == 10 || b == 13
}

fn is_digit_x(b: u8) -> (r: bool)
    ensures
        r == is_digit(b),
{
    48 <= b && b <= 57
}

fn is_ident_byte_x(b: u8) -> (r: bool)
    ensures
        r == is_ident_byte(b),
{
    (97 <= b && b <= 122) || b == 95
}

// ---------------------------------------------------------------------
// Executable trivia skipping.
// ---------------------------------------------------------------------

fn skip_to_eol_x(s: &[u8], i: usize) -> (r: usize)
    requires
        i <= s.len(),
    ensures
        r == skip_to_eol(s@, i as int),
        i <= r <= s.len(),
{
    let mut k = i;
    while k < s.len() && s[k] != 10
        invariant
            i <= k <= s.len(),
            skip_to_eol(s@, i as int) == skip_to_eol(s@, k as int),
        decreases s.len() - k,
    {
        k = k + 1;
    }
    k
}

/// Whether position `k` starts trivia: whitespace or a comment.
fn is_trivia_at(s: &[u8], k: usize) -> (r: bool)
    requires
        k <= s.len(),
    ensures
        r == (k < s.len() && (is_ws(s@[k as int]) || is_comment_start(s@, k as int))),
{
    k < s.len() && (is_ws_x(s[k]) || (s[k] == 47 && k + 1 < s.len() && s[k + 1] == 47))
}

fn skip_trivia_x(s: &[u8], i: usize) -> (r: usize)
    requires
        i <= s.len(),
    ensures
        r == skip_trivia(s@, i as int),
        i <= r <= s.len(),
{
    let mut k = i;
    while is_trivia_at(s, k)
        invariant
            i <= k <= s.len(),
            skip_trivia(s@, i as int) == skip_trivia(s@, k as int),
        decreases s.len() - k,
    {
        if is_ws_x(s[k]) {
            k = k + 1;
        } else {
            k = skip_to_eol_x(s, k + 2);
        }
    }
    k
}

} // verus!

verus! {

// ---------------------------------------------------------------------
// Executable token scanners, each proved equal to its specification.
// ---------------------------------------------------------------------

/// Scans the maximal digit run at `i` into an integer token, marking
/// the token as overflowed when the value exceeds the 64-bit signed
/// range instead of wrapping around.
fn scan_number(s: &[u8], i: usize) -> (r: (Token, usize))
    requires
        i < s.len(),
        is_digit(s@[i as int]),
    ensures
        r.1 == digits_end(s@, i as int),
        i < r.1 <= s.len(),
        view_tok(r.0) == number_token(s@, i as int, r.1 as int),
{
    let mut k = i;
    let mut val: u64 = 0;
    let mut big = false;
    while k < s.len() && is_digit_x(s[k])
        invariant
            i <= k <= s.len(),
            digits_end(s@, i as int) == digits_end(s@, k as int),
            !big ==> val == digits_val(s@, i as int, k as int) && val
                <= 9223372036854775807u64,
            big ==> digits_val(s@, i as int, k as int) > 0x7fff_ffff_ffff_ffff,
        decreases s.len() - k,
    {
        let d = (s[k] - 48) as u64;
        proof {
            assert(digits_val(s@, i as int, k as int + 1) == digits_val(
                s@,
                i as int,
                k as int,
            ) * 10 + d);
        }
        if !big {
            if val > 922337203685477580u64 || (val == 922337203685477580u64 && d > 7) {
                big = true;
            } else {
                val = val * 10 + d;
            }
        }
        k = k + 1;
    }
    proof {
        lemma_digits_end(s@, i as int + 1);
    }
    if big {
        (Token::Error(LexErr::IntegerOverflow), k)
    } else {
        (Token::Number(val as i64), k)
    }
}

/// Matches an identifier run against the eight reserved spellings.
fn keyword_of_x(w: &Vec<u8>) -> (r: Option<Sym>)
    ensures
        r == keyword_of(w@),
{
    if w.len() == 3 && w[0] == 108 && w[1] == 101 && w[2] == 116 {
        Some(Sym::Let)
    } else if w.len() == 2 && w[0] == 105 && w[1] == 102 {
        Some(Sym::If)
    } else if w.len() == 4 && w[0] == 101 && w[1] == 108 && w[2] == 115 && w[3] == 101 {
        Some(Sym::Else)
    } else if w.len() == 5 && w[0] == 112 && w[1] == 114 && w[2] == 105 && w[3] == 110 && w[4]
        == 116 {
        Some(Sym::Print)
    } else if w.len() == 4 && w[0] == 116 && w[1] == 114 && w[2] == 117 && w[3] == 101 {
        Some(Sym::True)
    } else if w.len() == 5 && w[0] == 102 && w[1] == 97 && w[2] == 108 && w[3] == 115 && w[4]
        == 101 {
        Some(Sym::False)
    } else if w.len() == 5 && w[0] == 119 && w[1] == 104 && w[2] == 105 && w[3] == 108 && w[4]
        == 101 {
        Some(Sym::While)
    } else if w.len() == 3 && w[0] == 102 && w[1] == 111 && w[2] == 114 {
        Some(Sym::For)
    } else {
        None
    }
}

/// Scans the maximal identifier run at `i`; reserved spellings take
/// priority over identically spelled identifiers.
fn scan_ident(s: &[u8], i: usize) -> (r: (Token, usize))
    requires
        i < s.len(),
        is_ident_byte(s@[i as int]),
    ensures
        r.1 == ident_end(s@, i as int),
        i < r.1 <= s.len(),
        view_tok(r.0) == ident_token(s@.subrange(i as int, r.1 as int)),
{
    let mut k = i;
    let mut w: Vec<u8> = Vec::new();
    while k < s.len() && is_ident_byte_x(s[k])
        invariant
            i <= k <= s.len(),
            ident_end(s@, i as int) == ident_end(s@, k as int),
            w@ =~= s@.subrange(i as int, k as int),
        decreases s.len() - k,
    {
        w.push(s[k]);
        proof {
            assert(w@ =~= s@.subrange(i as int, k as int + 1));
        }
        k = k + 1;
    }
    proof {
        lemma_ident_end(s@, i as int + 1);
    }
    match keyword_of_x(&w) {
        Some(sym) => (Token::Sym(sym), k),
        None => (Token::Ident(w), k),
    }
}

} // verus!


verus! {

fn escape_of_x(b: u8) -> (r: Option<u8>)
    ensures
        r == escape_of(b),
{
    if b == 110 {
        Some(10)
    } else if b == 116 {
        Some(9)
    } else if b == 114 {
        Some(13)
    } else if b == 48 {
        Some(0)
    } else if b == 92 {
        Some(92)
    } else if b == 39 {
        Some(39)
    } else {
        None
    }
}

/// What scanning the token at `i` must hand back, stated against the
/// one-step scan specification.
pub open spec fn scan_matches(
    s: Seq<u8>,
    i: int,
    tok: Option<Token>,
    diag: Option<Diag>,
    end: int,
) -> bool {
    let r = scan_token(s, i);
    &&& (match tok {
        Some(t) => r.tok == Some(TokSp { tok: view_tok(t), span: mk_span(i, end) }),
        None => r.tok is None,
    })
    &&& (match diag {
        Some(d) => r.diag == Some(view_diag(d)),
        None => r.diag is None,
    })
    &&& end == r.end
}

/// Scans a string literal whose opening quote stands at `i`. A
/// terminated literal yields a fully escape-decoded string token — or an
/// invalid-escape error token with a diagnostic, when an unknown escape
/// appears. An unterminated one yields no token, one diagnostic, and a
/// one-byte skip.
fn scan_string(s: &[u8], i: usize) -> (r: (Option<Token>, Option<Diag>, usize))
    requires
        i < s.len(),
        s@[i as int] == 39,
    ensures
        scan_matches(s@, i as int, r.0, r.1, r.2 as int),
        i < r.2 <= s.len(),
{
    // find the closing quote
    let mut k = i + 1;
    while k < s.len() && s[k] != 39
        invariant
            i + 1 <= k <= s.len(),
            str_close(s@, i as int + 1) == str_close(s@, k as int),
        decreases s.len() - k,
    {
        if s[k] == 92 {
            if k + 1 < s.len() {
                k = k + 2;
            } else {
                k = s.len();
            }
        } else {
            k = k + 1;
        }
    }
    if k >= s.len() {
        // unterminated: skip the quote alone, emit a diagnostic
        assert(str_close(s@, i as int + 1) is None);
        let d = mk_error_diag(DiagMsg::UnexpectedCharacter, Span { start: i, end: i + 1 });
        return (None, Some(d), i + 1);
    }
    let q = k;
    assert(str_close(s@, i as int + 1) == Some(q as int));
    // decode the content between the quotes
    let mut m = i + 1;
    let mut buf: Vec<u8> = Vec::new();
    while m < q
        invariant
            i + 1 <= m <= q < s.len(),
            s@[i as int] == 39,
            str_close(s@, i as int + 1) == Some(q as int),
            str_close(s@, m as int) == Some(q as int),
            decode_str(s@, i as int + 1, q as int) == match decode_str(s@, m as int, q as int) {
                Some(rest) => Some(buf@ + rest),
                None => None,
            },
        decreases q - m,
    {
        let ghost mpre = m as int;
        let ghost bufpre = buf@;
        if s[m] == 92 {
            proof {
                // a backslash inside the literal always has a byte
                // before the closing quote after it
                assert(str_close(s@, mpre + 2) == Some(q as int));
                lemma_str_close(s@, mpre + 2);
            }
            let e = escape_of_x(s[m + 1]);
            match e {
                Some(b) => {
                    buf.push(b);
                    m = m + 2;
                    proof {
                        lemma_decode_step_escape(s@, mpre, q as int, bufpre, b);
                    }
                },
                None => {
                    // the whole literal is invalidated
                    assert(decode_str(s@, mpre, q as int) is None);
                    let t = Token::Error(LexErr::InvalidStringEscape);
                    let d = mk_error_diag(
                        DiagMsg::InvalidStringEscape,
                        Span { start: i, end: q + 1 },
                    );
                    return (Some(t), Some(d), q + 1);
                },
            }
        } else {
            let b = s[m];
            buf.push(b);
            m = m + 1;
            proof {
                lemma_decode_step_plain(s@, mpre, q as int, bufpre, b);
            }
        }
    }
    proof {
        assert(decode_str(s@, q as int, q as int) == Some(Seq::<u8>::empty()));
        assert(buf@ + Seq::<u8>::empty() =~= buf@);
    }
    (Some(Token::Str(buf)), None, q + 1)
}

/// Decoding one escape prepends its meaning to the rest of the decode.
proof fn lemma_decode_step_escape(s: Seq<u8>, m: int, q: int, pre: Seq<u8>, b: u8)
    requires
        0 <= m < q <= s.len(),
        s[m] == 92,
        m + 1 < q,
        escape_of(s[m + 1]) == Some(b),
    ensures
        match decode_str(s, m, q) {
            Some(rest) => Some(pre + rest) == match decode_str(s, m + 2, q) {
                Some(r2) => Some((pre.push(b)) + r2),
                None => None::<Seq<u8>>,
            },
            None => decode_str(s, m + 2, q) is None,
        },
{
    if decode_str(s, m + 2, q) is Some {
        let r2 = decode_str(s, m + 2, q)->0;
        assert(decode_str(s, m, q) == Some(seq![b] + r2));
        assert(pre + (seq![b] + r2) =~= pre.push(b) + r2);
    }
}

/// Decoding one plain byte prepends it to the rest of the decode.
proof fn lemma_decode_step_plain(s: Seq<u8>, m: int, q: int, pre: Seq<u8>, b: u8)
    requires
        0 <= m < q <= s.len(),
        s[m] != 92,
        s[m] == b,
    ensures
        match decode_str(s, m, q) {
            Some(rest) => Some(pre + rest) == match decode_str(s, m + 1, q) {
                Some(r2) => Some((pre.push(b)) + r2),
                None => None::<Seq<u8>>,
            },
            None => decode_str(s, m + 1, q) is None,
        },
{
    if decode_str(s, m + 1, q) is Some {
        let r2 = decode_str(s, m + 1, q)->0;
        assert(decode_str(s, m, q) == Some(seq![b] + r2));
        assert(pre + (seq![b] + r2) =~= pre.push(b) + r2);
    }
}

} // verus!

verus! {

fn op3_of_x(a: u8, b: u8, c: u8) -> (r: Option<Sym>)
    ensures
        r == op3_of(a, b, c),
{
    if a == 60 && b == 60 && c == 61 {
        Some(Sym::ShlEq)
    } else if a == 62 && b == 62 && c == 61 {
        Some(Sym::ShrEq)
    } else {
        None
    }
}

fn op2_of_x(a: u8, b: u8) -> (r: Option<Sym>)
    ensures
        r == op2_of(a, b),
{
    if b == 61 {
        if a == 43 {
            Some(Sym::PlusEq)
        } else if a == 45 {
            Some(Sym::MinusEq)
        } else if a == 42 {
            Some(Sym::StarEq)
        } else if a == 47 {
            Some(Sym::SlashEq)
        } else if a == 61 {
            Some(Sym::EqEq)
        } else if a == 33 {
            Some(Sym::Ne)
        } else if a == 62 {
            Some(Sym::Ge)
        } else if a == 60 {
            Some(Sym::Le)
        } else if a == 124 {
            Some(Sym::PipeEq)
        } else if a == 38 {
            Some(Sym::AndEq)
        } else if a == 94 {
            Some(Sym::CaretEq)
        } else if a == 37 {
            Some(Sym::PercentEq)
        } else {
            None
        }
    } else if a == 60 && b == 60 {
        Some(Sym::Shl)
    } else if a == 62 && b == 62 {
        Some(Sym::Shr)
    } else {
        None
    }
}

fn op1_of_x(a: u8) -> (r: Option<Sym>)
    ensures
        r == op1_of(a),
{
    if a == 43 {
        Some(Sym::Plus)
    } else if a == 45 {
        Some(Sym::Minus)
    } else if a == 42 {
        Some(Sym::Star)
    } else if a == 47 {
        Some(Sym::Slash)
    } else if a == 61 {
        Some(Sym::Eq)
    } else if a == 33 {
        Some(Sym::Bang)
    } else if a == 62 {
        Some(Sym::Gt)
    } else if a == 60 {
        Some(Sym::Lt)
    } else if a == 126 {
        Some(Sym::Tilde)
    } else if a == 124 {
        Some(Sym::Pipe)
    } else if a == 38 {
        Some(Sym::And)
    } else if a == 94 {
        Some(Sym::Caret)
    } else if a == 63 {
        Some(Sym::Question)
    } else if a == 37 {
        Some(Sym::Percent)
    } else if a == 123 {
        Some(Sym::LeftBrace)
    } else if a == 125 {
        Some(Sym::RightBrace)
    } else if a == 91 {
        Some(Sym::LeftBracket)
    } else if a == 93 {
        Some(Sym::RightBracket)
    } else if a == 40 {
        Some(Sym::LeftParen)
    } else if a == 41 {
        Some(Sym::RightParen)
    } else if a == 44 {
        Some(Sym::Comma)
    } else if a == 59 {
        Some(Sym::Semi)
    } else {
        None
    }
}

/// Matches the longest operator or punctuation spelling at `i`
/// (three bytes, then two, then one), so that a longer operator is
/// never shadowed by a shorter prefix.
fn scan_op(s: &[u8], i: usize) -> (r: Option<(Sym, usize)>)
    requires
        i < s.len(),
    ensures
        match r {
            Some((sym, j)) => op_at(s@, i as int) == Some((sym, j as int)) && i < j <= s.len(),
            None => op_at(s@, i as int) is None,
        },
{
    if s.len() - i > 2 {
        match op3_of_x(s[i], s[i + 1], s[i + 2]) {
            Some(sym) => {
                return Some((sym, i + 3));
            },
            None => {},
        }
    }
    if s.len() - i > 1 {
        match op2_of_x(s[i], s[i + 1]) {
            Some(sym) => {
                return Some((sym, i + 2));
            },
            None => {},
        }
    }
    match op1_of_x(s[i]) {
        Some(sym) => Some((sym, i + 1)),
        None => None,
    }
}

/// Tokenizes raw source bytes into the ordered, span-tagged token
/// sequence and the lexical diagnostics of the reference tokenizing
/// pass. A single pass surfaces every lexical problem: tokenizing
/// never aborts.
pub fn lexer(src: &[u8]) -> (r: (Vec<Spanned<Token>>, Vec<Diag>))
    ensures
        view_toks(r.0@) == lex_toks(src@),
        view_diags(r.1@) == lex_diags(src@),
{
    let mut toks: Vec<Spanned<Token>> = Vec::new();
    let mut diags: Vec<Diag> = Vec::new();
    let mut i: usize = 0;
    loop
        invariant
            i <= src.len(),
            lex_toks(src@) =~= view_toks(toks@) + lex_from(src@, i as int).0,
            lex_diags(src@) =~= view_diags(diags@) + lex_from(src@, i as int).1,
        ensures
            view_toks(toks@) =~= lex_toks(src@),
            view_diags(diags@) =~= lex_diags(src@),
        decreases src.len() - i,
    {
        let j = skip_trivia_x(src, i);
        if j >= src.len() {
            proof {
                assert(lex_from(src@, i as int).0 =~= Seq::<TokSp>::empty());
                assert(lex_from(src@, i as int).1 =~= Seq::<DiagM>::empty());
                assert(view_toks(toks@) + Seq::<TokSp>::empty() =~= view_toks(toks@));
                assert(view_diags(diags@) + Seq::<DiagM>::empty() =~= view_diags(diags@));
            }
            break;
        }
        let ghost ipre = i as int;
        let ghost tokspre = toks@;
        let ghost diagspre = diags@;
        let b = src[j];
        let mut new_i: usize = j;
        if is_digit_x(b) {
            let (t, e) = scan_number(src, j);
            toks.push(Spanned { node: t, span: Span { start: j, end: e } });
            new_i = e;
        } else if is_ident_byte_x(b) {
            let (t, e) = scan_ident(src, j);
            toks.push(Spanned { node: t, span: Span { start: j, end: e } });
            new_i = e;
        } else if b == 39 {
            let (t, d, e) = scan_string(src, j);
            match t {
                Some(t) => toks.push(Spanned { node: t, span: Span { start: j, end: e } }),
                None => {},
            }
            match d {
                Some(d) => diags.push(d),
                None => {},
            }
            new_i = e;
        } else {
            match scan_op(src, j) {
                Some((sym, e)) => {
                    toks.push(
                        Spanned { node: Token::Sym(sym), span: Span { start: j, end: e } },
                    );
                    new_i = e;
                },
                None => {
                    diags.push(
                        mk_error_diag(
                            DiagMsg::UnexpectedCharacter,
                            Span { start: j, end: j + 1 },
                        ),
                    );
                    new_i = j + 1;
                },
            }
        }
        i = new_i;
        proof {
            lemma_lexer_step(src@, ipre, tokspre, toks@, diagspre, diags@, i as int);
        }
    }
    (toks, diags)
}

/// One iteration of the tokenizing loop keeps the loop invariant: the
/// tokens and diagnostics gathered so far, followed by those of the
/// rest of the input, are those of the whole input.
proof fn lemma_lexer_step(
    s: Seq<u8>,
    i: int,
    toks0: Seq<Spanned<Token>>,
    toks1: Seq<Spanned<Token>>,
    diags0: Seq<Diag>,
    diags1: Seq<Diag>,
    e: int,
)
    requires
        0 <= i <= s.len(),
        skip_trivia(s, i) < s.len(),
        e == scan_token(s, skip_trivia(s, i)).end,
        match scan_token(s, skip_trivia(s, i)).tok {
            Some(t) => view_toks(toks1) =~= view_toks(toks0).push(t),
            None => toks1 =~= toks0,
        },
        match scan_token(s, skip_trivia(s, i)).diag {
            Some(d) => view_diags(diags1) =~= view_diags(diags0).push(d),
            None => diags1 =~= diags0,
        },
    ensures
        view_toks(toks0) + lex_from(s, i).0 =~= view_toks(toks1) + lex_from(s, e).0,
        view_diags(diags0) + lex_from(s, i).1 =~= view_diags(diags1) + lex_from(s, e).1,
{
    let j = skip_trivia(s, i);
    let r = scan_token(s, j);
    lemma_skip_trivia(s, i);
    lemma_scan_token(s, j);
    match r.tok {
        Some(t) => {
            assert(lex_from(s, i).0 =~= seq![t] + lex_from(s, e).0);
        },
        None => {
            assert(lex_from(s, i).0 =~= lex_from(s, e).0);
        },
    }
    match r.diag {
        Some(d) => {
            assert(lex_from(s, i).1 =~= seq![d] + lex_from(s, e).1);
        },
        None => {
            assert(lex_from(s, i).1 =~= lex_from(s, e).1);
        },
    }
}

} // verus!
