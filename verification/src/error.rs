//! Places in the source, and the outcome of a compilation step.
use vstd::prelude::*;

verus! {

/// A part of a source text: the bytes from `start` to `end`.
#[derive(Debug, PartialEq, Eq)]
pub struct Span {
    pub src: String,
    pub start: usize,
    pub end: usize,
    pub path: Option<String>,
}

pub struct SpanView {
    pub src: Seq<char>,
    pub start: usize,
    pub end: usize,
    pub path: Option<Seq<char>>,
}

impl View for Span {
    type V = SpanView;

    open spec fn view(&self) -> SpanView {
        SpanView {
            src: self.src@,
            start: self.start,
            end: self.end,
            path: match self.path {
                Some(path) => Some(path@),
                None => None,
            },
        }
    }
}

impl Clone for Span {
    fn clone(&self) -> (res: Span)
        ensures
            res@ == self@,
    {
        let path = match &self.path {
            Some(path) => Some(path.clone()),
            None => None,
        };
        Span { src: self.src.clone(), start: self.start, end: self.end, path }
    }
}

/// An error of the compiler.
#[derive(Debug, PartialEq, Eq)]
pub enum CompileError {
    /// A condition that the compiler's earlier stages should have ruled out.
    Internal(&'static str, Span),
}

pub enum ErrorView {
    Internal(Seq<char>, SpanView),
}

impl View for CompileError {
    type V = ErrorView;

    open spec fn view(&self) -> ErrorView {
        match self {
            CompileError::Internal(message, span) => ErrorView::Internal(message@, span@),
        }
    }
}

/// A warning of the compiler.
#[derive(Debug, PartialEq, Eq)]
pub struct CompileWarning {
    pub message: String,
    pub span: Span,
}

/// The outcome of a compilation step: its value, if there is one, and what there is to report.
#[derive(Debug, PartialEq, Eq)]
pub struct CompileResult<T> {
    pub value: Option<T>,
    pub warnings: Vec<CompileWarning>,
    pub errors: Vec<CompileError>,
}

impl<T> CompileResult<T> {
    /// The errors that the step reports.
    pub open spec fn error_views(self) -> Seq<ErrorView> {
        self.errors@.map_values(|error: CompileError| error@)
    }
}

/// The outcome of a step that has a value.
pub fn ok<T>(value: T, warnings: Vec<CompileWarning>, errors: Vec<CompileError>) -> (res:
    CompileResult<T>)
    ensures
        res.value == Some(value),
        res.warnings == warnings,
        res.errors == errors,
{
    CompileResult { value: Some(value), warnings, errors }
}

/// Two places in the source that look the same are the same in all their parts.
pub proof fn law_spans_are_told_apart(a: Span, b: Span)
    requires
        a@ == b@,
    ensures
        a.src@ == b.src@,
        a.start == b.start,
        a.end == b.end,
        a.path is None <==> b.path is None,
        a.path is Some ==> a.path->Some_0@ == b.path->Some_0@,
{
}

/// Two errors that look the same have the same message and the same place.
pub proof fn law_errors_are_told_apart(
    a: CompileError,
    b: CompileError,
    message_a: &'static str,
    message_b: &'static str,
    span_a: Span,
    span_b: Span,
)
    requires
        a == CompileError::Internal(message_a, span_a),
        b == CompileError::Internal(message_b, span_b),
        a@ == b@,
    ensures
        message_a@ == message_b@,
        span_a@ == span_b@,
{
}

} // verus!
