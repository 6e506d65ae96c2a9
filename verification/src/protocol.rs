//! Positions, ranges and the other values that requests and replies are made of.

use crate::model::opt_text;
use vstd::prelude::*;

verus! {

/// A place in a document: a line and a column, both counted from zero.
#[derive(Clone, Copy, Debug, PartialEq, Eq, Structural)]
pub struct Position {
    pub line: u32,
    pub character: u32,
}

/// A stretch of a document.
#[derive(Clone, Copy, Debug, PartialEq, Eq, Structural)]
pub struct Range {
    pub start: Position,
    pub end: Position,
}

/// A stretch of one line.
pub open spec fn span_on_line(line: u32, from: u32, to: u32) -> Range {
    Range {
        start: Position { line, character: from },
        end: Position { line, character: to },
    }
}

/// A stretch of one line.
pub fn range_on_line(line: u32, from: u32, to: u32) -> (r: Range)
    ensures
        r == span_on_line(line, from, to),
{
    Range { start: Position { line, character: from }, end: Position { line, character: to } }
}

/// How grave a diagnostic is.
#[derive(Clone, Copy, Debug, PartialEq, Eq, Structural)]
pub enum Severity {
    Error,
    Warning,
    Information,
    Hint,
}

/// A remark on a stretch of a document.
#[derive(Debug)]
pub struct Diagnostic {
    pub range: Range,
    pub severity: Option<Severity>,
    pub source: Option<String>,
    pub message: String,
}

/// What a `Diagnostic` says.
#[verifier::ext_equal]
pub ghost struct DiagnosticView {
    pub range: Range,
    pub severity: Option<Severity>,
    pub source: Option<Seq<char>>,
    pub message: Seq<char>,
}

impl DeepView for Diagnostic {
    type V = DiagnosticView;

    open spec fn deep_view(&self) -> DiagnosticView {
        DiagnosticView {
            range: self.range,
            severity: self.severity,
            source: opt_text(self.source),
            message: self.message@,
        }
    }
}

/// What the diagnostics of this library give as their source.
pub const SOURCE: &'static str = "css-lens";

/// A remark of this library.
pub open spec fn remark(range: Range, severity: Severity, message: Seq<char>) -> DiagnosticView {
    DiagnosticView { range, severity: Some(severity), source: Some(SOURCE@), message }
}

/// A remark of this library.
pub fn make_remark(range: Range, severity: Severity, message: String) -> (r: Diagnostic)
    ensures
        r.deep_view() == remark(range, severity, message@),
{
    Diagnostic { range, severity: Some(severity), source: Some(SOURCE.to_owned()), message }
}

/// A replacement of a stretch of a document.
#[derive(Debug)]
pub struct TextEdit {
    pub range: Range,
    pub new_text: String,
}

/// What a `TextEdit` says.
#[verifier::ext_equal]
pub ghost struct TextEditView {
    pub range: Range,
    pub new_text: Seq<char>,
}

impl DeepView for TextEdit {
    type V = TextEditView;

    open spec fn deep_view(&self) -> TextEditView {
        TextEditView { range: self.range, new_text: self.new_text@ }
    }
}

/// A stretch of a file.
#[derive(Debug)]
pub struct Location {
    pub uri: String,
    pub range: Range,
}

/// What a `Location` says.
#[verifier::ext_equal]
pub ghost struct LocationView {
    pub uri: Seq<char>,
    pub range: Range,
}

impl DeepView for Location {
    type V = LocationView;

    open spec fn deep_view(&self) -> LocationView {
        LocationView { uri: self.uri@, range: self.range }
    }
}

} // verus!
