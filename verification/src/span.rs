use vstd::prelude::*;

verus! {

/// A half-open range of positions. Token spans index bytes of the raw
/// source; syntax-node spans index the token sequence. Well-formed spans
/// satisfy `start <= end`.
#[derive(Clone, Copy, PartialEq, Eq, Structural, Debug)]
pub struct Span {
    pub start: usize,
    pub end: usize,
}

/// A payload tagged with the span it originated from.
#[derive(Clone, PartialEq, Eq, Debug)]
pub struct Spanned<T> {
    pub node: T,
    pub span: Span,
}

} // verus!
