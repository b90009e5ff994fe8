use culinator::application::error::ApplicationError;
use culinator::application::models::{DiagnosticSeverity, NewRecipeBook, SourceDiagnostic};
use culinator::application::services::{
    blank, BookService, CcpInput, DocumentParser, HaccpMonitoringRecord, HaccpPlanDocument,
    HaccpPlanSummary, HaccpRepository, HaccpService, HazardInput, NewHaccpMonitoringRecord,
    NewHaccpPlan, NewRecipe, RecipeBookRepository, RecipeBookSummary, RecipeDocument,
    RecipeRepository, RecipeService, RecipeSummary, RecipeValidator, SaveHaccpPlanRequest,
};
use std::cell::RefCell;
use culinator::model::Recipe;

#[test]
fn reexports_shared_models_for_compatibility() {
    let error = ApplicationError::not_found("recipe");
    assert_eq!(error.message(), "recipe was not found");
}

struct Books;

fn summary(title: &str) -> RecipeBookSummary {
    RecipeBookSummary {
        id: "1".into(),
        symbol: "s".into(),
        title: title.into(),
        description: None,
        protocol_version: "0.3".into(),
        recipe_count: 0,
        updated_at: "now".into(),
    }
}

impl RecipeBookRepository for Books {
    fn list_recipe_books(&self) -> Result<Vec<RecipeBookSummary>, ApplicationError> {
        Ok(vec![summary("Favorites")])
    }
    fn create_recipe_book(&self, input: NewRecipeBook) -> Result<RecipeBookSummary, ApplicationError> {
        Ok(summary(&input.title))
    }
    fn update_recipe_book(&self, id: &str, input: NewRecipeBook) -> Result<Option<RecipeBookSummary>, ApplicationError> {
        Ok(if id == "1" { Some(summary(&input.title)) } else { None })
    }
    fn delete_recipe_book(&self, id: &str) -> Result<bool, ApplicationError> {
        Ok(id == "1")
    }
}

fn book(title: &str) -> NewRecipeBook {
    NewRecipeBook { title: title.into(), symbol: None, description: None }
}

#[test]
fn blank_titles_are_refused_before_the_repository() {
    let service = BookService::new(Books);
    assert_eq!(
        service.create(book(" \t\n")).err(),
        Some(ApplicationError::InvalidInput("book title cannot be empty".into()))
    );
    assert_eq!(service.create(book("Soups")).unwrap().title, "Soups");
    assert_eq!(service.list().unwrap().len(), 1);
}

#[test]
fn unknown_books_are_not_found() {
    let service = BookService::new(Books);
    assert_eq!(
        service.update("9", book("X")).err(),
        Some(ApplicationError::NotFound("recipe book".into()))
    );
    assert!(service.update("1", book("X")).is_ok());
    assert_eq!(service.delete("9"), Err(ApplicationError::NotFound("recipe book".into())));
    assert_eq!(service.delete("1"), Ok(()));
}

#[test]
fn blank_detection_follows_unicode_white_space() {
    assert!(blank(""));
    assert!(blank(" \u{a0}\u{3000}\t"));
    assert!(!blank(" a "));
}

struct Plans;

impl HaccpRepository for Plans {
    fn list_plans_for_recipe(&self, _recipe_id: &str) -> Result<Vec<HaccpPlanSummary>, ApplicationError> {
        Ok(vec![HaccpPlanSummary { id: "p".into(), title: "T".into() }])
    }
    fn get_plan(&self, plan_id: &str) -> Result<Option<HaccpPlanDocument>, ApplicationError> {
        Ok(if plan_id == "p" {
            Some(HaccpPlanDocument { id: "p".into(), recipe_id: "r".into(), title: "T".into() })
        } else {
            None
        })
    }
    fn create_plan(&self, recipe_id: &str, input: NewHaccpPlan) -> Result<HaccpPlanDocument, ApplicationError> {
        Ok(HaccpPlanDocument { id: "p".into(), recipe_id: recipe_id.into(), title: input.title })
    }
    fn save_plan(&self, plan_id: &str, input: SaveHaccpPlanRequest) -> Result<HaccpPlanDocument, ApplicationError> {
        Ok(HaccpPlanDocument { id: plan_id.into(), recipe_id: "r".into(), title: input.title })
    }
    fn delete_plan(&self, plan_id: &str) -> Result<bool, ApplicationError> {
        Ok(plan_id == "p")
    }
    fn add_monitoring_record(&self, ccp_id: &str, input: NewHaccpMonitoringRecord) -> Result<HaccpMonitoringRecord, ApplicationError> {
        Ok(HaccpMonitoringRecord { id: "m".into(), ccp_id: ccp_id.into(), measured_value: input.measured_value })
    }
}

fn plan(title: &str, hazards: &[&str], ccps: &[(&str, &str)]) -> SaveHaccpPlanRequest {
    SaveHaccpPlanRequest {
        title: title.into(),
        description: None,
        hazards: hazards.iter().map(|d| HazardInput { description: (*d).into() }).collect(),
        ccps: ccps
            .iter()
            .map(|(n, l)| CcpInput { name: (*n).into(), critical_limit: (*l).into() })
            .collect(),
    }
}

fn invalid(message: &str) -> Option<ApplicationError> {
    Some(ApplicationError::InvalidInput(message.into()))
}

#[test]
fn haccp_plans_need_their_required_fields() {
    let service = HaccpService::new(Plans);
    assert_eq!(
        service.create("r", NewHaccpPlan { title: " ".into(), description: None }).err(),
        invalid("HACCP plan title cannot be empty")
    );
    assert_eq!(service.save("p", plan("", &["x"], &[])).err(), invalid("HACCP plan title cannot be empty"));
    assert_eq!(service.save("p", plan("T", &["x", " "], &[])).err(), invalid("hazard description cannot be empty"));
    assert_eq!(
        service.save("p", plan("T", &["x"], &[("cook", " ")])).err(),
        invalid("CCP name and critical limit are required")
    );
    assert_eq!(service.save("p", plan("T", &["x"], &[("cook", "74C")])).unwrap().title, "T");
    assert_eq!(
        service.record_monitoring("c", NewHaccpMonitoringRecord { measured_value: "".into(), notes: None }).err(),
        invalid("measured value cannot be empty")
    );
    assert_eq!(service.get("q").err(), Some(ApplicationError::NotFound("HACCP plan".into())));
    assert_eq!(service.delete("p"), Ok(()));
}

struct NoRecipes;

fn document(id: &str, book_id: Option<String>, title: &str) -> RecipeDocument {
    RecipeDocument {
        id: id.into(),
        book_id,
        symbol: "x".into(),
        title: title.into(),
        protocol_version: "0.3".into(),
        updated_at: "now".into(),
        source_text: String::new(),
    }
}

impl RecipeRepository for NoRecipes {
    fn list_recipes(&self) -> Result<Vec<RecipeSummary>, ApplicationError> {
        Ok(vec![])
    }
    fn get_recipe(&self, _id: &str) -> Result<Option<RecipeDocument>, ApplicationError> {
        Ok(None)
    }
    fn create_recipe(&self, input: NewRecipe) -> Result<RecipeDocument, ApplicationError> {
        Ok(document("n", input.book_id, &input.title))
    }
    fn save_recipe(&self, recipe: &Recipe, _source_text: &str) -> Result<RecipeDocument, ApplicationError> {
        Ok(document(&recipe.id, recipe.book_id.clone(), &recipe.title))
    }
    fn delete_recipe(&self, _id: &str) -> Result<bool, ApplicationError> {
        Ok(false)
    }
    fn move_recipe(&self, _id: &str, _book_id: Option<&str>, _position: i64) -> Result<bool, ApplicationError> {
        Ok(false)
    }
}

/// A repository that files recipe "1" in book "b" and records saves.
struct OneRecipe {
    saved: RefCell<Vec<String>>,
}

impl RecipeRepository for OneRecipe {
    fn list_recipes(&self) -> Result<Vec<RecipeSummary>, ApplicationError> {
        Ok(vec![])
    }
    fn get_recipe(&self, id: &str) -> Result<Option<RecipeDocument>, ApplicationError> {
        Ok(if id == "1" { Some(document("1", Some("b".into()), "Old")) } else { None })
    }
    fn create_recipe(&self, input: NewRecipe) -> Result<RecipeDocument, ApplicationError> {
        Ok(document("n", input.book_id, &input.title))
    }
    fn save_recipe(&self, recipe: &Recipe, _source_text: &str) -> Result<RecipeDocument, ApplicationError> {
        self.saved.borrow_mut().push(recipe.title.clone());
        Ok(document(&recipe.id, recipe.book_id.clone(), &recipe.title))
    }
    fn delete_recipe(&self, id: &str) -> Result<bool, ApplicationError> {
        Ok(id == "1")
    }
    fn move_recipe(&self, id: &str, _book_id: Option<&str>, _position: i64) -> Result<bool, ApplicationError> {
        Ok(id == "1")
    }
}

struct Parser;

impl DocumentParser for Parser {
    fn parse_recipe(&self, source: &str) -> Result<Recipe, ApplicationError> {
        if source.is_empty() {
            return Err(ApplicationError::InvalidInput("empty document".into()));
        }
        Ok(Recipe {
            id: String::new(),
            book_id: None,
            symbol: "x".into(),
            title: source.into(),
            protocol_version: "0.3".into(),
            types: vec![],
            resources: vec![],
            processes: vec!["p".into()],
            operations: vec![],
            servings: vec![],
            formulas: vec![],
            section: None,
            notes: None,
        })
    }
}

struct Strict;

impl RecipeValidator for Strict {
    fn validate(&self, recipe: &Recipe) -> Vec<SourceDiagnostic> {
        if recipe.title == "bad" {
            vec![SourceDiagnostic {
                code: "CG2001".into(),
                severity: DiagnosticSeverity::Error,
                message: "cycle".into(),
                start: None,
                end: None,
            }]
        } else {
            vec![]
        }
    }
}

#[test]
fn validation_reports_parse_errors_and_findings() {
    let service = RecipeService::new(NoRecipes, Parser, Strict);
    let report = service.validate_source("");
    assert!(!report.valid);
    assert_eq!(report.diagnostics.len(), 1);
    assert_eq!(report.diagnostics[0].code, "CG0001");
    assert_eq!(report.diagnostics[0].message, "empty document");
    assert!(report.outline.is_none());

    let report = service.validate_source("good");
    assert!(report.valid);
    let outline = report.outline.unwrap();
    assert_eq!(outline.title, "good");
    assert_eq!(outline.process_count, 1);

    assert!(!service.validate_source("bad").valid);
    assert!(service.list().unwrap().is_empty());
}

#[test]
fn saving_keeps_the_id_and_book_and_refuses_errors() {
    let service = RecipeService::new(OneRecipe { saved: RefCell::new(vec![]) }, Parser, Strict);
    let saved = service.save("1", "Bread").unwrap();
    assert_eq!(saved.id, "1");
    assert_eq!(saved.book_id.as_deref(), Some("b"));
    assert_eq!(saved.title, "Bread");
    assert_eq!(service.save("1", "bad").err(), Some(ApplicationError::Validation));
    assert_eq!(service.save("1", "").err(), Some(ApplicationError::InvalidInput("empty document".into())));
    assert_eq!(*service.repository.saved.borrow(), vec!["Bread".to_owned()]);
    assert_eq!(service.get("2").err(), Some(ApplicationError::NotFound("recipe".into())));
    assert_eq!(service.delete("2"), Err(ApplicationError::NotFound("recipe".into())));
    assert_eq!(service.move_to_book("1", Some("b"), 0), Ok(()));
    let created = service.create(Some("b".into())).unwrap();
    assert_eq!(created.title, "Untitled Recipe");
    assert_eq!(created.book_id.as_deref(), Some("b"));
}

#[test]
fn plan_listing_passes_through() {
    let service = HaccpService::new(Plans);
    assert_eq!(service.list_for_recipe("r").unwrap().len(), 1);
}
