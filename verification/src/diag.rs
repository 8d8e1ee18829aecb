use vstd::prelude::*;
use crate::span::Span;

verus! {

/// Severity of a diagnostic. Every diagnostic the pipeline produces is an
/// error; the field is part of the payload shape an external renderer
/// consumes.
#[derive(Clone, Copy, PartialEq, Eq, Structural, Debug)]
pub enum Severity {
    Error,
}

/// Kinds of runtime values, used by type-mismatch messages.
#[derive(Clone, Copy, PartialEq, Eq, Structural, Debug)]
pub enum ValueKind {
    Boolean,
    Integer,
    Str,
}

/// The closed set of structured diagnostic messages, across all three
/// stages. An external renderer turns these into human-readable text.
#[derive(Clone, Copy, PartialEq, Eq, Structural, Debug)]
pub enum DiagMsg {
    // lexical
    UnexpectedCharacter,
    InvalidStringEscape,
    // syntactic
    UnexpectedToken,
    // runtime
    UnboundIdentifier,
    TypeMismatch { expected: ValueKind, actual: ValueKind },
    IntegerOverflow,
    DivisionByZero,
}

/// One label of a diagnostic: a byte range into the original source and a
/// sub-message for that range.
#[derive(Clone, Copy, PartialEq, Eq, Structural, Debug)]
pub struct Label {
    pub span: Span,
    pub message: DiagMsg,
}

/// A structured diagnostic: severity, a main message, and one or more
/// source-anchored labels.
#[derive(Clone, PartialEq, Eq, Debug)]
pub struct Diag {
    pub severity: Severity,
    pub message: DiagMsg,
    pub labels: Vec<Label>,
}

/// Mathematical model of a diagnostic.
pub struct DiagM {
    pub severity: Severity,
    pub message: DiagMsg,
    pub labels: Seq<Label>,
}

pub open spec fn view_diag(d: Diag) -> DiagM {
    DiagM { severity: d.severity, message: d.message, labels: d.labels@ }
}

pub open spec fn view_diags(ds: Seq<Diag>) -> Seq<DiagM> {
    ds.map_values(|d: Diag| view_diag(d))
}

/// The model of a single-label error diagnostic: the shape every
/// diagnostic of this pipeline takes.
pub open spec fn error_diag(message: DiagMsg, span: Span) -> DiagM {
    DiagM {
        severity: Severity::Error,
        message: message,
        labels: seq![Label { span: span, message: message }],
    }
}

/// Builds the one concrete diagnostic shape the pipeline emits.
pub fn mk_error_diag(message: DiagMsg, span: Span) -> (r: Diag)
    ensures
        view_diag(r) == error_diag(message, span),
{
    let mut labels: Vec<Label> = Vec::new();
    labels.push(Label { span, message });
    let r = Diag { severity: Severity::Error, message, labels };
    proof {
        assert(view_diag(r).labels =~= error_diag(message, span).labels);
        assert(view_diag(r) =~= error_diag(message, span));
    }
    r
}

} // verus!
