//! The values the application's use cases exchange.

use vstd::prelude::*;

verus! {

#[derive(Debug, Clone, Copy, PartialEq, Eq, Structural)]
pub enum DiagnosticSeverity {
    Error,
    Warning,
    Information,
}

/// A finding about a document, with the byte span it concerns when known.
#[derive(Debug, Clone)]
pub struct SourceDiagnostic {
    pub code: String,
    pub severity: DiagnosticSeverity,
    pub message: String,
    pub start: Option<usize>,
    pub end: Option<usize>,
}

/// Counts of what a recipe declares.
#[derive(Debug, Clone)]
pub struct RecipeOutline {
    pub title: String,
    pub symbol: String,
    pub protocol_version: String,
    pub type_count: usize,
    pub resource_count: usize,
    pub process_count: usize,
    pub operation_count: usize,
    pub serving_count: usize,
    pub formula_count: usize,
}

/// The outcome of checking a document.
#[derive(Debug, Clone)]
pub struct ValidationReport {
    pub valid: bool,
    pub diagnostics: Vec<SourceDiagnostic>,
    pub outline: Option<RecipeOutline>,
}

/// What creating or renaming a recipe book takes.
#[derive(Debug, Clone)]
pub struct NewRecipeBook {
    pub title: String,
    pub symbol: Option<String>,
    pub description: Option<String>,
}

} // verus!
