//! The shapes the HTTP service sends and receives, and how the
//! application's values become them.

use vstd::prelude::*;
use crate::application::models::{DiagnosticSeverity, SourceDiagnostic};
use crate::application::services;

verus! {

#[derive(Debug)]
pub struct HealthResponse {
    pub status: &'static str,
    pub service: &'static str,
    pub api_version: &'static str,
}

#[derive(Debug, Clone)]
pub struct RecipeSummary {
    pub id: String,
    pub book_id: Option<String>,
    pub symbol: String,
    pub title: String,
    pub protocol_version: String,
    pub updated_at: String,
}

#[derive(Debug, Clone)]
pub struct RecipeDocument {
    pub id: String,
    pub book_id: Option<String>,
    pub symbol: String,
    pub title: String,
    pub protocol_version: String,
    pub updated_at: String,
    pub source_text: String,
}

#[derive(Debug, Clone)]
pub struct Diagnostic {
    /// `"error"`, `"warning"` or `"information"`.
    pub severity: &'static str,
    pub message: String,
    pub start: Option<usize>,
    pub end: Option<usize>,
}

#[derive(Debug, Clone)]
pub struct RecipeOutline {
    pub title: String,
    pub symbol: String,
    pub protocol_version: String,
    pub type_count: usize,
    pub resource_count: usize,
    pub process_count: usize,
    pub operation_count: usize,
    pub serving_count: usize,
}

#[derive(Debug, Clone)]
pub struct ValidationResult {
    pub valid: bool,
    pub diagnostics: Vec<Diagnostic>,
    pub outline: Option<RecipeOutline>,
}

#[derive(Debug, Clone)]
pub struct SaveRecipeRequest {
    pub source_text: String,
}

#[derive(Debug, Clone)]
pub struct ValidateRequest {
    pub source_text: String,
}

#[derive(Debug, Clone)]
pub struct RecipeBookSummary {
    pub id: String,
    pub symbol: String,
    pub title: String,
    pub description: Option<String>,
    pub protocol_version: String,
    pub recipe_count: i64,
    pub updated_at: String,
}

#[derive(Debug, Clone)]
pub struct SaveRecipeBookRequest {
    pub title: String,
    pub symbol: Option<String>,
    pub description: Option<String>,
}

#[derive(Debug, Clone, Default)]
pub struct CreateRecipeRequest {
    pub book_id: Option<String>,
}

#[derive(Debug, Clone)]
pub struct MoveRecipeRequest {
    pub book_id: Option<String>,
    pub position: i64,
}

#[derive(Debug, Clone)]
pub struct ExportRecipeResponse {
    pub file_name: String,
    pub media_type: &'static str,
    pub archive_base64: String,
    pub files: Vec<String>,
}

#[derive(Debug, Clone)]
pub struct UpdateImportSettingsRequest {
    pub openai_api_key: Option<String>,
    pub openai_model: String,
    pub use_local_ocr: bool,
    pub tesseract_command: String,
}

pub open spec fn severity_name(s: DiagnosticSeverity) -> Seq<char> {
    match s {
        DiagnosticSeverity::Error => "error"@,
        DiagnosticSeverity::Warning => "warning"@,
        DiagnosticSeverity::Information => "information"@,
    }
}

/// A finding as the service reports it.
pub fn diagnostic_from(value: SourceDiagnostic) -> (r: Diagnostic)
    ensures
        r.severity@ == severity_name(value.severity),
        r.message == value.message,
        r.start == value.start,
        r.end == value.end,
{
    let severity: &'static str = match value.severity {
        DiagnosticSeverity::Error => "error",
        DiagnosticSeverity::Warning => "warning",
        DiagnosticSeverity::Information => "information",
    };
    Diagnostic { severity, message: value.message, start: value.start, end: value.end }
}

pub fn recipe_summary_from(value: services::RecipeSummary) -> (r: RecipeSummary)
    ensures
        r.id == value.id,
        r.book_id == value.book_id,
        r.symbol == value.symbol,
        r.title == value.title,
        r.protocol_version == value.protocol_version,
        r.updated_at == value.updated_at,
{
    RecipeSummary {
        id: value.id,
        book_id: value.book_id,
        symbol: value.symbol,
        title: value.title,
        protocol_version: value.protocol_version,
        updated_at: value.updated_at,
    }
}

pub fn recipe_book_summary_from(value: services::RecipeBookSummary) -> (r: RecipeBookSummary)
    ensures
        r.id == value.id,
        r.symbol == value.symbol,
        r.title == value.title,
        r.description == value.description,
        r.protocol_version == value.protocol_version,
        r.recipe_count == value.recipe_count,
        r.updated_at == value.updated_at,
{
    RecipeBookSummary {
        id: value.id,
        symbol: value.symbol,
        title: value.title,
        description: value.description,
        protocol_version: value.protocol_version,
        recipe_count: value.recipe_count,
        updated_at: value.updated_at,
    }
}

pub fn outline_from(value: crate::application::models::RecipeOutline) -> (r: RecipeOutline)
    ensures
        r.title == value.title,
        r.symbol == value.symbol,
        r.protocol_version == value.protocol_version,
        r.type_count == value.type_count,
        r.resource_count == value.resource_count,
        r.process_count == value.process_count,
        r.operation_count == value.operation_count,
        r.serving_count == value.serving_count,
{
    RecipeOutline {
        title: value.title,
        symbol: value.symbol,
        protocol_version: value.protocol_version,
        type_count: value.type_count,
        resource_count: value.resource_count,
        process_count: value.process_count,
        operation_count: value.operation_count,
        serving_count: value.serving_count,
    }
}

/// The import settings the service keeps.
#[derive(Debug, Clone)]
pub struct ImportSettings {
    pub openai_api_key: String,
    pub openai_model: String,
    pub use_local_ocr: bool,
    pub tesseract_command: String,
}

impl UpdateImportSettingsRequest {
    /// Apply the request to `existing`: the API key changes only when a
    /// non-blank one is given; every other setting is replaced.
    pub fn merge(self, existing: ImportSettings) -> (r: ImportSettings)
        ensures
            r.openai_api_key == (match self.openai_api_key {
                Some(k) => if crate::application::services::is_blank(k@) {
                    existing.openai_api_key
                } else {
                    k
                },
                None => existing.openai_api_key,
            }),
            r.openai_model == self.openai_model,
            r.use_local_ocr == self.use_local_ocr,
            r.tesseract_command == self.tesseract_command,
    {
        let mut existing = existing;
        match self.openai_api_key {
            Some(key) => {
                if !crate::application::services::blank(key.as_str()) {
                    existing.openai_api_key = key;
                }
            },
            None => {},
        }
        existing.openai_model = self.openai_model;
        existing.use_local_ocr = self.use_local_ocr;
        existing.tesseract_command = self.tesseract_command;
        existing
    }
}

} // verus!
