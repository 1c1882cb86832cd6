//! Diagnostics as the protocol carries them.

use vstd::prelude::*;

use crate::ast::{DiagSeverity, MimirDiag, MimirDiagView, MimirPos, MimirRange};
use crate::ast_features::{document_range, mimir_to_lsp_range};
use crate::document::Range;
use crate::text::copy_str;

verus! {

/// A diagnostic as the protocol carries it. The source is always `mimir`.
#[derive(Debug, Clone, PartialEq, Eq)]
pub struct Diagnostic {
    pub range: Range,
    pub severity: DiagSeverity,
    /// A stable code such as `UnknownModule`.
    pub code: String,
    pub source: String,
    pub message: String,
}

/// A diagnostic as the protocol carries it.
pub struct DiagnosticView {
    pub range: Range,
    pub severity: DiagSeverity,
    pub code: Seq<char>,
    pub source: Seq<char>,
    pub message: Seq<char>,
}

impl View for Diagnostic {
    type V = DiagnosticView;

    open spec fn view(&self) -> DiagnosticView {
        DiagnosticView {
            range: self.range,
            severity: self.severity,
            code: self.code@,
            source: self.source@,
            message: self.message@,
        }
    }
}

/// A diagnostic of the parser.
#[derive(Debug, Clone, PartialEq, Eq)]
pub struct SyntaxDiag {
    pub range: Range,
    pub severity: DiagSeverity,
    pub code: String,
    pub message: String,
}

/// A diagnostic of the parser.
pub struct SyntaxDiagView {
    pub range: Range,
    pub severity: DiagSeverity,
    pub code: Seq<char>,
    pub message: Seq<char>,
}

impl View for SyntaxDiag {
    type V = SyntaxDiagView;

    open spec fn view(&self) -> SyntaxDiagView {
        SyntaxDiagView {
            range: self.range,
            severity: self.severity,
            code: self.code@,
            message: self.message@,
        }
    }
}

/// The protocol's form of a diagnostic.
pub open spec fn lsp_diag(d: MimirDiagView) -> DiagnosticView {
    DiagnosticView {
        range: document_range(d.range),
        severity: d.severity,
        code: d.code,
        source: "mimir"@,
        message: d.message,
    }
}

/// The protocol's form of a diagnostic.
pub fn mimir_diag_to_lsp(d: &MimirDiag) -> (r: Diagnostic)
    ensures
        r@ == lsp_diag(d@),
{
    Diagnostic {
        range: mimir_to_lsp_range(d.range),
        severity: d.severity,
        code: d.code.clone(),
        source: copy_str("mimir"),
        message: d.message.clone(),
    }
}

/// A diagnostic of the parser as one of the library.
pub fn syntax_diag_to_mimir(d: &SyntaxDiag) -> (r: MimirDiag)
    ensures
        document_range(r.range) == d.range,
        r.severity == d.severity,
        r.code@ == d.code@,
        r.message@ == d.message@,
{
    MimirDiag {
        range: MimirRange {
            start: MimirPos { line: d.range.start.line, character: d.range.start.character },
            end: MimirPos { line: d.range.end.line, character: d.range.end.character },
        },
        severity: d.severity,
        code: d.code.clone(),
        message: d.message.clone(),
    }
}

} // verus!
