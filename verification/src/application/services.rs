//! The use cases: each checks its input, then hands the work to a repository,
//! parser or validator.

use vstd::prelude::*;
use vstd::string::StrSliceExecFns;
use crate::application::error::{ApplicationError, error_message};
use crate::application::models::{
    DiagnosticSeverity, NewRecipeBook, RecipeOutline, SourceDiagnostic, ValidationReport,
};
use crate::model::Recipe;
use crate::validate::{CulinatorValidator, Diagnostic, validated, severity_of, views};

verus! {

// ---------------------------------------------------------------------------
// Blank text.
// ---------------------------------------------------------------------------

/// Unicode white space, the characters that `str::trim` removes.
pub open spec fn is_space(c: char) -> bool {
    ||| '\u{9}' <= c <= '\u{d}'
    ||| c == ' '
    ||| c == '\u{85}'
    ||| c == '\u{a0}'
    ||| c == '\u{1680}'
    ||| '\u{2000}' <= c <= '\u{200a}'
    ||| c == '\u{2028}'
    ||| c == '\u{2029}'
    ||| c == '\u{202f}'
    ||| c == '\u{205f}'
    ||| c == '\u{3000}'
}

/// Nothing but white space.
pub open spec fn is_blank(s: Seq<char>) -> bool {
    forall|i: int| 0 <= i < s.len() ==> is_space(#[trigger] s[i])
}

/// Whether `c` is white space.
pub fn space_char(c: char) -> (r: bool)
    ensures
        r == is_space(c),
{
    ('\u{9}' <= c && c <= '\u{d}') || c == ' ' || c == '\u{85}' || c == '\u{a0}' || c == '\u{1680}'
        || ('\u{2000}' <= c && c <= '\u{200a}') || c == '\u{2028}' || c == '\u{2029}' || c == '\u{202f}'
        || c == '\u{205f}' || c == '\u{3000}'
}

pub fn blank(s: &str) -> (r: bool)
    ensures
        r == is_blank(s@),
{
    let n = s.unicode_len();
    let mut i: usize = 0;
    while i < n
        invariant
            n == s@.len(),
            i <= n,
            forall|k: int| 0 <= k < i ==> is_space(#[trigger] s@[k]),
        decreases n - i,
    {
        if !space_char(s.get_char(i)) {
            return false;
        }
        i = i + 1;
    }
    true
}

// ---------------------------------------------------------------------------
// What a repository's answer means.
// ---------------------------------------------------------------------------

/// A lookup that found nothing is the entity's not-found error.
pub fn found_or<T>(answer: Result<Option<T>, ApplicationError>, entity: &str) -> (r: Result<T, ApplicationError>)
    ensures
        match answer {
            Ok(Some(v)) => r == Ok::<T, ApplicationError>(v),
            Ok(None) => r matches Err(ApplicationError::NotFound(e)) && e@ == entity@,
            Err(e) => r == Err::<T, ApplicationError>(e),
        },
{
    match answer {
        Ok(Some(v)) => Ok(v),
        Ok(None) => Err(ApplicationError::not_found(entity)),
        Err(e) => Err(e),
    }
}

/// `r` is what [`found_or`] makes of `answer`.
pub open spec fn found_as<T>(answer: Result<Option<T>, ApplicationError>, entity: Seq<char>, r: Result<T, ApplicationError>) -> bool {
    match answer {
        Ok(Some(v)) => r == Ok::<T, ApplicationError>(v),
        Ok(None) => r matches Err(ApplicationError::NotFound(e)) && e@ == entity,
        Err(e) => r == Err::<T, ApplicationError>(e),
    }
}

/// `r` is what [`removed_or`] makes of `answer`.
pub open spec fn removed_as(answer: Result<bool, ApplicationError>, entity: Seq<char>, r: Result<(), ApplicationError>) -> bool {
    match answer {
        Ok(true) => r is Ok,
        Ok(false) => r matches Err(ApplicationError::NotFound(e)) && e@ == entity,
        Err(e) => r == Err::<(), ApplicationError>(e),
    }
}

/// A removal that removed nothing is the entity's not-found error.
pub fn removed_or(answer: Result<bool, ApplicationError>, entity: &str) -> (r: Result<(), ApplicationError>)
    ensures
        match answer {
            Ok(true) => r is Ok,
            Ok(false) => r matches Err(ApplicationError::NotFound(e)) && e@ == entity@,
            Err(e) => r == Err::<(), ApplicationError>(e),
        },
{
    match answer {
        Ok(true) => Ok(()),
        Ok(false) => Err(ApplicationError::not_found(entity)),
        Err(e) => Err(e),
    }
}

// ---------------------------------------------------------------------------
// Ports.
// ---------------------------------------------------------------------------

#[derive(Debug, Clone)]
pub struct RecipeBookSummary {
    pub id: String,
    pub symbol: String,
    pub title: String,
    pub description: Option<String>,
    pub protocol_version: String,
    pub recipe_count: i64,
    pub updated_at: String,
}

#[derive(Debug, Clone)]
pub struct RecipeSummary {
    pub id: String,
    pub book_id: Option<String>,
    pub symbol: String,
    pub title: String,
    pub protocol_version: String,
    pub updated_at: String,
}

/// Where recipe books are kept.
///
/// Each request has a predicate naming the answers the repository may give
/// to it; what is stored decides which one comes. By default any answer may
/// come; an implementation can say which.
pub trait RecipeBookRepository {
    /// `r` is an answer this repository may give to a listing of its books.
    open spec fn lists_books(&self, r: Result<Vec<RecipeBookSummary>, ApplicationError>) -> bool {
        true
    }

    /// `r` may answer the creation of a book from `input`.
    open spec fn creates_book(&self, input: NewRecipeBook, r: Result<RecipeBookSummary, ApplicationError>) -> bool {
        true
    }

    /// `r` may answer the update of book `id` with `input`.
    open spec fn updates_book(
        &self,
        id: Seq<char>,
        input: NewRecipeBook,
        r: Result<Option<RecipeBookSummary>, ApplicationError>,
    ) -> bool {
        true
    }

    /// `r` may answer the removal of book `id`.
    open spec fn deletes_book(&self, id: Seq<char>, r: Result<bool, ApplicationError>) -> bool {
        true
    }

    fn list_recipe_books(&self) -> (r: Result<Vec<RecipeBookSummary>, ApplicationError>)
        ensures
            self.lists_books(r),
    ;

    fn create_recipe_book(&self, input: NewRecipeBook) -> (r: Result<RecipeBookSummary, ApplicationError>)
        ensures
            self.creates_book(input, r),
    ;

    fn update_recipe_book(&self, id: &str, input: NewRecipeBook) -> (r: Result<
        Option<RecipeBookSummary>,
        ApplicationError,
    >)
        ensures
            self.updates_book(id@, input, r),
    ;

    fn delete_recipe_book(&self, id: &str) -> (r: Result<bool, ApplicationError>)
        ensures
            self.deletes_book(id@, r),
    ;
}

#[derive(Debug, Clone)]
pub struct RecipeDocument {
    pub id: String,
    pub book_id: Option<String>,
    pub symbol: String,
    pub title: String,
    pub protocol_version: String,
    pub updated_at: String,
    pub source_text: String,
}

/// What creating a recipe takes.
#[derive(Debug, Clone)]
pub struct NewRecipe {
    pub book_id: Option<String>,
    pub symbol: String,
    pub title: String,
    pub protocol_version: String,
    pub source_text: String,
}

/// Where recipes are kept.
///
/// As for books, each request has a predicate naming the answers the
/// repository may give to it; by default any answer may come.
pub trait RecipeRepository {
    /// `r` may answer a listing of the recipes.
    open spec fn lists_recipes(&self, r: Result<Vec<RecipeSummary>, ApplicationError>) -> bool {
        true
    }

    /// `r` may answer a lookup of recipe `id`.
    open spec fn gets_recipe(&self, id: Seq<char>, r: Result<Option<RecipeDocument>, ApplicationError>) -> bool {
        true
    }

    /// `r` may answer the creation of a recipe from `input`.
    open spec fn creates_recipe(&self, input: NewRecipe, r: Result<RecipeDocument, ApplicationError>) -> bool {
        true
    }

    /// `r` may answer saving `recipe` with its source `source_text`.
    open spec fn saves_recipe(
        &self,
        recipe: Recipe,
        source_text: Seq<char>,
        r: Result<RecipeDocument, ApplicationError>,
    ) -> bool {
        true
    }

    /// `r` may answer the removal of recipe `id`.
    open spec fn deletes_recipe(&self, id: Seq<char>, r: Result<bool, ApplicationError>) -> bool {
        true
    }

    /// `r` may answer moving recipe `id` into book `book_id` (or out of any)
    /// at `position`.
    open spec fn moves_recipe(
        &self,
        id: Seq<char>,
        book_id: Option<Seq<char>>,
        position: i64,
        r: Result<bool, ApplicationError>,
    ) -> bool {
        true
    }

    fn list_recipes(&self) -> (r: Result<Vec<RecipeSummary>, ApplicationError>)
        ensures
            self.lists_recipes(r),
    ;

    fn get_recipe(&self, id: &str) -> (r: Result<Option<RecipeDocument>, ApplicationError>)
        ensures
            self.gets_recipe(id@, r),
    ;

    fn create_recipe(&self, input: NewRecipe) -> (r: Result<RecipeDocument, ApplicationError>)
        ensures
            self.creates_recipe(input, r),
    ;

    fn save_recipe(&self, recipe: &Recipe, source_text: &str) -> (r: Result<RecipeDocument, ApplicationError>)
        ensures
            self.saves_recipe(*recipe, source_text@, r),
    ;

    fn delete_recipe(&self, id: &str) -> (r: Result<bool, ApplicationError>)
        ensures
            self.deletes_recipe(id@, r),
    ;

    fn move_recipe(&self, id: &str, book_id: Option<&str>, position: i64) -> (r: Result<bool, ApplicationError>)
        ensures
            self.moves_recipe(id@, text_of(book_id), position, r),
    ;
}

pub open spec fn text_of(o: Option<&str>) -> Option<Seq<char>> {
    match o {
        Some(t) => Some(t@),
        None => None,
    }
}

/// Turns source text into a recipe.
pub trait DocumentParser {
    /// `r` may be what this parser makes of `source`; by default anything.
    open spec fn parses(&self, source: Seq<char>, r: Result<Recipe, ApplicationError>) -> bool {
        true
    }

    fn parse_recipe(&self, source: &str) -> (r: Result<Recipe, ApplicationError>)
        ensures
            self.parses(source@, r),
    ;
}

/// Checks a recipe.
pub trait RecipeValidator {
    /// `ds` may be the findings of this validator on `recipe`; by default
    /// any.
    open spec fn finds(&self, recipe: Recipe, ds: Seq<SourceDiagnostic>) -> bool {
        true
    }

    fn validate(&self, recipe: &Recipe) -> (r: Vec<SourceDiagnostic>)
        ensures
            self.finds(*recipe, r@),
    ;
}

/// `ds` are source diagnostics for the findings `d`: same codes and
/// messages, cycles errors and everything else warnings, no spans.
pub open spec fn diagnostics_for(ds: Seq<SourceDiagnostic>, d: Seq<Diagnostic>) -> bool {
    ds.len() == d.len() && forall|k: int|
        0 <= k < d.len() ==> {
            &&& (#[trigger] ds[k]).code@ == d[k].code@
            &&& ds[k].message@ == d[k].message@
            &&& ds[k].severity == severity_of(d[k].code@)
            &&& ds[k].start is None
            &&& ds[k].end is None
        }
}

impl RecipeValidator for CulinatorValidator {
    /// The findings [`validate`] may give, as source diagnostics.
    open spec fn finds(&self, recipe: Recipe, ds: Seq<SourceDiagnostic>) -> bool {
        exists|d: Seq<Diagnostic>| #![trigger views(d)] validated(recipe, d) && diagnostics_for(ds, d)
    }

    fn validate(&self, recipe: &Recipe) -> (r: Vec<SourceDiagnostic>) {
        let r = CulinatorValidator::validate(self, recipe);
        proof {
            let d = choose|d: Seq<Diagnostic>|
                #![trigger views(d)]
                validated(*recipe, d) && r@.len() == d.len() && forall|k: int|
                    0 <= k < d.len() ==> {
                        &&& (#[trigger] r@[k]).code@ == d[k].code@
                        &&& r@[k].message@ == d[k].message@
                        &&& r@[k].severity == severity_of(d[k].code@)
                        &&& r@[k].start is None
                        &&& r@[k].end is None
                    };
            assert(diagnostics_for(r@, d));
            assert(views(d) == views(d));
        }
        r
    }
}

#[derive(Debug, Clone)]
pub struct NewHaccpPlan {
    pub title: String,
    pub description: Option<String>,
}

#[derive(Debug, Clone)]
pub struct HazardInput {
    pub description: String,
}

#[derive(Debug, Clone)]
pub struct CcpInput {
    pub name: String,
    pub critical_limit: String,
}

#[derive(Debug, Clone)]
pub struct SaveHaccpPlanRequest {
    pub title: String,
    pub description: Option<String>,
    pub hazards: Vec<HazardInput>,
    pub ccps: Vec<CcpInput>,
}

#[derive(Debug, Clone)]
pub struct NewHaccpMonitoringRecord {
    pub measured_value: String,
    pub notes: Option<String>,
}

#[derive(Debug, Clone)]
pub struct HaccpPlanDocument {
    pub id: String,
    pub recipe_id: String,
    pub title: String,
}

#[derive(Debug, Clone)]
pub struct HaccpMonitoringRecord {
    pub id: String,
    pub ccp_id: String,
    pub measured_value: String,
}

#[derive(Debug, Clone)]
pub struct HaccpPlanSummary {
    pub id: String,
    pub title: String,
}

/// Where HACCP plans are kept.
///
/// As for books, each request has a predicate naming the answers the
/// repository may give to it; by default any answer may come.
pub trait HaccpRepository {
    /// `r` may answer a listing of the plans of recipe `recipe_id`.
    open spec fn lists_plans(&self, recipe_id: Seq<char>, r: Result<Vec<HaccpPlanSummary>, ApplicationError>) -> bool {
        true
    }

    /// `r` may answer a lookup of plan `plan_id`.
    open spec fn gets_plan(&self, plan_id: Seq<char>, r: Result<Option<HaccpPlanDocument>, ApplicationError>) -> bool {
        true
    }

    /// `r` may answer the creation of a plan for `recipe_id` from `input`.
    open spec fn creates_plan(
        &self,
        recipe_id: Seq<char>,
        input: NewHaccpPlan,
        r: Result<HaccpPlanDocument, ApplicationError>,
    ) -> bool {
        true
    }

    /// `r` may answer saving `input` as plan `plan_id`.
    open spec fn saves_plan(
        &self,
        plan_id: Seq<char>,
        input: SaveHaccpPlanRequest,
        r: Result<HaccpPlanDocument, ApplicationError>,
    ) -> bool {
        true
    }

    /// `r` may answer the removal of plan `plan_id`.
    open spec fn deletes_plan(&self, plan_id: Seq<char>, r: Result<bool, ApplicationError>) -> bool {
        true
    }

    /// `r` may answer recording `input` for control point `ccp_id`.
    open spec fn records(
        &self,
        ccp_id: Seq<char>,
        input: NewHaccpMonitoringRecord,
        r: Result<HaccpMonitoringRecord, ApplicationError>,
    ) -> bool {
        true
    }

    fn list_plans_for_recipe(&self, recipe_id: &str) -> (r: Result<Vec<HaccpPlanSummary>, ApplicationError>)
        ensures
            self.lists_plans(recipe_id@, r),
    ;

    fn get_plan(&self, plan_id: &str) -> (r: Result<Option<HaccpPlanDocument>, ApplicationError>)
        ensures
            self.gets_plan(plan_id@, r),
    ;

    fn create_plan(&self, recipe_id: &str, input: NewHaccpPlan) -> (r: Result<HaccpPlanDocument, ApplicationError>)
        ensures
            self.creates_plan(recipe_id@, input, r),
    ;

    fn save_plan(&self, plan_id: &str, input: SaveHaccpPlanRequest) -> (r: Result<HaccpPlanDocument, ApplicationError>)
        ensures
            self.saves_plan(plan_id@, input, r),
    ;

    fn delete_plan(&self, plan_id: &str) -> (r: Result<bool, ApplicationError>)
        ensures
            self.deletes_plan(plan_id@, r),
    ;

    fn add_monitoring_record(&self, ccp_id: &str, input: NewHaccpMonitoringRecord) -> (r: Result<
        HaccpMonitoringRecord,
        ApplicationError,
    >)
        ensures
            self.records(ccp_id@, input, r),
    ;
}

// ---------------------------------------------------------------------------
// Books.
// ---------------------------------------------------------------------------

pub struct BookService<R: RecipeBookRepository> {
    pub repository: R,
}

impl<R: RecipeBookRepository> BookService<R> {
    pub fn new(repository: R) -> (r: Self)
        ensures
            r.repository == repository,
    {
        BookService { repository }
    }

    /// Every book, as the repository lists them.
    pub fn list(&self) -> (r: Result<Vec<RecipeBookSummary>, ApplicationError>)
        ensures
            self.repository.lists_books(r),
    {
        self.repository.list_recipe_books()
    }

    /// Create a book; a blank title is refused before the repository sees
    /// it.
    pub fn create(&self, input: NewRecipeBook) -> (r: Result<RecipeBookSummary, ApplicationError>)
        ensures
            is_blank(input.title@) ==> (r matches Err(ApplicationError::InvalidInput(m)) && m@ == "book title cannot be empty"@),
            !is_blank(input.title@) ==> self.repository.creates_book(input, r),
    {
        if blank(input.title.as_str()) {
            return Err(ApplicationError::InvalidInput("book title cannot be empty".to_owned()));
        }
        self.repository.create_recipe_book(input)
    }

    /// Rename a book; an unknown book is not found.
    pub fn update(&self, id: &str, input: NewRecipeBook) -> (r: Result<RecipeBookSummary, ApplicationError>)
        ensures
            exists|a: Result<Option<RecipeBookSummary>, ApplicationError>|
                #![trigger self.repository.updates_book(id@, input, a)]
                self.repository.updates_book(id@, input, a) && found_as(a, "recipe book"@, r),
    {
        let a = self.repository.update_recipe_book(id, input);
        let ghost answer = a;
        let r = found_or(a, "recipe book");
        proof {
            assert(self.repository.updates_book(id@, input, answer));
        }
        r
    }

    /// Delete a book; an unknown book is not found.
    pub fn delete(&self, id: &str) -> (r: Result<(), ApplicationError>)
        ensures
            exists|a: Result<bool, ApplicationError>|
                #![trigger self.repository.deletes_book(id@, a)]
                self.repository.deletes_book(id@, a) && removed_as(a, "recipe book"@, r),
    {
        let a = self.repository.delete_recipe_book(id);
        let r = removed_or(a, "recipe book");
        proof {
            assert(self.repository.deletes_book(id@, a));
        }
        r
    }
}

// ---------------------------------------------------------------------------
// HACCP plans.
// ---------------------------------------------------------------------------

pub struct HaccpService<R: HaccpRepository> {
    pub repository: R,
}

/// The first complaint about a plan being saved, if any.
pub open spec fn plan_problem(input: SaveHaccpPlanRequest) -> Option<Seq<char>> {
    if is_blank(input.title@) {
        Some("HACCP plan title cannot be empty"@)
    } else if exists|k: int| 0 <= k < input.hazards@.len() && is_blank(#[trigger] input.hazards@[k].description@) {
        Some("hazard description cannot be empty"@)
    } else if exists|k: int|
        0 <= k < input.ccps@.len() && (is_blank(#[trigger] input.ccps@[k].name@) || is_blank(
            input.ccps@[k].critical_limit@,
        )) {
        Some("CCP name and critical limit are required"@)
    } else {
        None
    }
}

fn check_plan(input: &SaveHaccpPlanRequest) -> (r: Option<ApplicationError>)
    ensures
        match plan_problem(*input) {
            Some(m) => r matches Some(ApplicationError::InvalidInput(x)) && x@ == m,
            None => r is None,
        },
{
    if blank(input.title.as_str()) {
        return Some(ApplicationError::InvalidInput("HACCP plan title cannot be empty".to_owned()));
    }
    let mut k: usize = 0;
    while k < input.hazards.len()
        invariant
            k <= input.hazards@.len(),
            !is_blank(input.title@),
            forall|m: int| 0 <= m < k ==> !is_blank(#[trigger] input.hazards@[m].description@),
        decreases input.hazards@.len() - k,
    {
        if blank(input.hazards[k].description.as_str()) {
            proof {
                assert(is_blank(input.hazards@[k as int].description@));
            }
            return Some(ApplicationError::InvalidInput("hazard description cannot be empty".to_owned()));
        }
        k = k + 1;
    }
    let mut k: usize = 0;
    while k < input.ccps.len()
        invariant
            k <= input.ccps@.len(),
            !is_blank(input.title@),
            forall|m: int| 0 <= m < input.hazards@.len() ==> !is_blank(#[trigger] input.hazards@[m].description@),
            forall|m: int|
                0 <= m < k ==> !(is_blank(#[trigger] input.ccps@[m].name@) || is_blank(
                    input.ccps@[m].critical_limit@,
                )),
        decreases input.ccps@.len() - k,
    {
        if blank(input.ccps[k].name.as_str()) || blank(input.ccps[k].critical_limit.as_str()) {
            return Some(ApplicationError::InvalidInput("CCP name and critical limit are required".to_owned()));
        }
        k = k + 1;
    }
    proof {
        assert(!exists|k: int| 0 <= k < input.hazards@.len() && is_blank(#[trigger] input.hazards@[k].description@));
        assert(!exists|k: int|
            0 <= k < input.ccps@.len() && (is_blank(#[trigger] input.ccps@[k].name@) || is_blank(
                input.ccps@[k].critical_limit@,
            )));
        assert(!is_blank(input.title@));
        assert(plan_problem(*input) is None);
    }
    None
}

impl<R: HaccpRepository> HaccpService<R> {
    pub fn new(repository: R) -> (r: Self)
        ensures
            r.repository == repository,
    {
        HaccpService { repository }
    }

    /// The plans of a recipe, as the repository lists them.
    pub fn list_for_recipe(&self, recipe_id: &str) -> (r: Result<Vec<HaccpPlanSummary>, ApplicationError>)
        ensures
            self.repository.lists_plans(recipe_id@, r),
    {
        self.repository.list_plans_for_recipe(recipe_id)
    }

    /// A plan; an unknown plan is not found.
    pub fn get(&self, plan_id: &str) -> (r: Result<HaccpPlanDocument, ApplicationError>)
        ensures
            exists|a: Result<Option<HaccpPlanDocument>, ApplicationError>|
                #![trigger self.repository.gets_plan(plan_id@, a)]
                self.repository.gets_plan(plan_id@, a) && found_as(a, "HACCP plan"@, r),
    {
        let a = self.repository.get_plan(plan_id);
        let ghost answer = a;
        let r = found_or(a, "HACCP plan");
        proof {
            assert(self.repository.gets_plan(plan_id@, answer));
        }
        r
    }

    /// Create a plan; a blank title is refused before the repository sees it.
    pub fn create(&self, recipe_id: &str, input: NewHaccpPlan) -> (r: Result<HaccpPlanDocument, ApplicationError>)
        ensures
            is_blank(input.title@) ==> (r matches Err(ApplicationError::InvalidInput(m)) && m@ == "HACCP plan title cannot be empty"@),
            !is_blank(input.title@) ==> self.repository.creates_plan(recipe_id@, input, r),
    {
        if blank(input.title.as_str()) {
            return Err(ApplicationError::InvalidInput("HACCP plan title cannot be empty".to_owned()));
        }
        self.repository.create_plan(recipe_id, input)
    }

    /// Save a plan; the first blank required field is refused before the
    /// repository sees it.
    pub fn save(&self, plan_id: &str, input: SaveHaccpPlanRequest) -> (r: Result<HaccpPlanDocument, ApplicationError>)
        ensures
            plan_problem(input) matches Some(m) ==> (r matches Err(ApplicationError::InvalidInput(x)) && x@ == m),
            plan_problem(input) is None ==> self.repository.saves_plan(plan_id@, input, r),
    {
        match check_plan(&input) {
            Some(e) => Err(e),
            None => self.repository.save_plan(plan_id, input),
        }
    }

    /// Delete a plan; an unknown plan is not found.
    pub fn delete(&self, plan_id: &str) -> (r: Result<(), ApplicationError>)
        ensures
            exists|a: Result<bool, ApplicationError>|
                #![trigger self.repository.deletes_plan(plan_id@, a)]
                self.repository.deletes_plan(plan_id@, a) && removed_as(a, "HACCP plan"@, r),
    {
        let a = self.repository.delete_plan(plan_id);
        let r = removed_or(a, "HACCP plan");
        proof {
            assert(self.repository.deletes_plan(plan_id@, a));
        }
        r
    }

    /// Record a measurement; a blank value is refused before the repository
    /// sees it.
    pub fn record_monitoring(&self, ccp_id: &str, input: NewHaccpMonitoringRecord) -> (r: Result<
        HaccpMonitoringRecord,
        ApplicationError,
    >)
        ensures
            is_blank(input.measured_value@) ==> (r matches Err(ApplicationError::InvalidInput(m)) && m@ == "measured value cannot be empty"@),
            !is_blank(input.measured_value@) ==> self.repository.records(ccp_id@, input, r),
    {
        if blank(input.measured_value.as_str()) {
            return Err(ApplicationError::InvalidInput("measured value cannot be empty".to_owned()));
        }
        self.repository.add_monitoring_record(ccp_id, input)
    }
}

// ---------------------------------------------------------------------------
// Recipes.
// ---------------------------------------------------------------------------

pub struct RecipeService<R: RecipeRepository, P: DocumentParser, V: RecipeValidator> {
    pub repository: R,
    pub parser: P,
    pub validator: V,
}

/// A recipe's counts.
pub open spec fn outline_of(o: RecipeOutline, recipe: Recipe) -> bool {
    &&& o.title@ == recipe.title@
    &&& o.symbol@ == recipe.symbol@
    &&& o.protocol_version@ == recipe.protocol_version@
    &&& o.type_count == recipe.types@.len()
    &&& o.resource_count == recipe.resources@.len()
    &&& o.process_count == recipe.processes@.len()
    &&& o.operation_count == recipe.operations@.len()
    &&& o.serving_count == recipe.servings@.len()
    &&& o.formula_count == recipe.formulas@.len()
}

pub open spec fn has_error(ds: Seq<SourceDiagnostic>) -> bool {
    exists|k: int| 0 <= k < ds.len() && (#[trigger] ds[k]).severity == DiagnosticSeverity::Error
}

/// Whether some finding is an error.
pub fn any_error(diagnostics: &Vec<SourceDiagnostic>) -> (r: bool)
    ensures
        r == has_error(diagnostics@),
{
    let mut k: usize = 0;
    while k < diagnostics.len()
        invariant
            k <= diagnostics@.len(),
            forall|m: int| 0 <= m < k ==> (#[trigger] diagnostics@[m]).severity != DiagnosticSeverity::Error,
        decreases diagnostics@.len() - k,
    {
        if diagnostics[k].severity == DiagnosticSeverity::Error {
            return true;
        }
        k = k + 1;
    }
    false
}

/// `r` is the recipe a new document starts as.
pub open spec fn is_new_recipe(r: NewRecipe, book_id: Option<String>) -> bool {
    &&& r.book_id == book_id
    &&& r.symbol@ == "new_recipe"@
    &&& r.title@ == "Untitled Recipe"@
    &&& r.protocol_version@ == "0.3"@
    &&& r.source_text@ == "culinograph 0.3;\n\nrecipe new_recipe {\n    title \"Untitled Recipe\";\n}\n"@
}

/// Everything of the two recipes but where they are kept (id and book) is
/// the same.
pub open spec fn same_but_place(a: Recipe, b: Recipe) -> bool {
    &&& a.symbol == b.symbol
    &&& a.title == b.title
    &&& a.protocol_version == b.protocol_version
    &&& a.types == b.types
    &&& a.resources == b.resources
    &&& a.processes == b.processes
    &&& a.operations == b.operations
    &&& a.servings == b.servings
    &&& a.formulas == b.formulas
    &&& a.section == b.section
    &&& a.notes == b.notes
}

/// The recipe a new document starts as.
pub fn new_recipe(book_id: Option<String>) -> (r: NewRecipe)
    ensures
        r.book_id == book_id,
        r.symbol@ == "new_recipe"@,
        r.title@ == "Untitled Recipe"@,
        r.protocol_version@ == "0.3"@,
        r.source_text@ == "culinograph 0.3;\n\nrecipe new_recipe {\n    title \"Untitled Recipe\";\n}\n"@,
{
    NewRecipe {
        book_id,
        symbol: "new_recipe".to_owned(),
        title: "Untitled Recipe".to_owned(),
        protocol_version: "0.3".to_owned(),
        source_text: "culinograph 0.3;\n\nrecipe new_recipe {\n    title \"Untitled Recipe\";\n}\n".to_owned(),
    }
}

/// The report for a recipe and its findings: valid unless some finding is
/// an error.
pub fn report_for(recipe: &Recipe, diagnostics: Vec<SourceDiagnostic>) -> (r: ValidationReport)
    ensures
        r.valid == !has_error(diagnostics@),
        r.diagnostics@ == diagnostics@,
        r.outline matches Some(o) && outline_of(o, *recipe),
{
    let valid = !any_error(&diagnostics);
    ValidationReport {
        valid,
        diagnostics,
        outline: Some(RecipeOutline {
            title: recipe.title.clone(),
            symbol: recipe.symbol.clone(),
            protocol_version: recipe.protocol_version.clone(),
            type_count: recipe.types.len(),
            resource_count: recipe.resources.len(),
            process_count: recipe.processes.len(),
            operation_count: recipe.operations.len(),
            serving_count: recipe.servings.len(),
            formula_count: recipe.formulas.len(),
        }),
    }
}

/// The report for a document that did not parse: invalid, with the parse
/// error as its one finding.
pub fn report_for_parse_error(error: &ApplicationError) -> (r: ValidationReport)
    ensures
        !r.valid,
        r.outline is None,
        r.diagnostics@.len() == 1,
        r.diagnostics@[0].code@ == "CG0001"@,
        r.diagnostics@[0].severity == DiagnosticSeverity::Error,
        r.diagnostics@[0].message@ == error_message(*error),
        r.diagnostics@[0].start is None && r.diagnostics@[0].end is None,
{
    let mut diagnostics: Vec<SourceDiagnostic> = Vec::new();
    diagnostics.push(SourceDiagnostic {
        code: "CG0001".to_owned(),
        severity: DiagnosticSeverity::Error,
        message: error.message(),
        start: None,
        end: None,
    });
    ValidationReport { valid: false, diagnostics, outline: None }
}

impl<R: RecipeRepository, P: DocumentParser, V: RecipeValidator> RecipeService<R, P, V> {
    pub fn new(repository: R, parser: P, validator: V) -> (r: Self)
        ensures
            r.repository == repository,
            r.parser == parser,
            r.validator == validator,
    {
        RecipeService { repository, parser, validator }
    }

    /// Every recipe, as the repository lists them.
    pub fn list(&self) -> (r: Result<Vec<RecipeSummary>, ApplicationError>)
        ensures
            self.repository.lists_recipes(r),
    {
        self.repository.list_recipes()
    }

    /// A recipe; an unknown recipe is not found.
    pub fn get(&self, id: &str) -> (r: Result<RecipeDocument, ApplicationError>)
        ensures
            exists|a: Result<Option<RecipeDocument>, ApplicationError>|
                #![trigger self.repository.gets_recipe(id@, a)]
                self.repository.gets_recipe(id@, a) && found_as(a, "recipe"@, r),
    {
        let a = self.repository.get_recipe(id);
        let ghost answer = a;
        let r = found_or(a, "recipe");
        proof {
            assert(self.repository.gets_recipe(id@, answer));
        }
        r
    }

    /// Create an untitled recipe, in `book_id` when given.
    pub fn create(&self, book_id: Option<String>) -> (r: Result<RecipeDocument, ApplicationError>)
        ensures
            exists|input: NewRecipe|
                #![trigger self.repository.creates_recipe(input, r)]
                is_new_recipe(input, book_id) && self.repository.creates_recipe(input, r),
    {
        let input = new_recipe(book_id);
        let ghost given = input;
        let r = self.repository.create_recipe(input);
        proof {
            assert(self.repository.creates_recipe(given, r));
        }
        r
    }

    /// What saving `source` as recipe `id` answers, given what the parser,
    /// the validator and the repository may answer: the parse error; or,
    /// when a finding is an error, the validation error; or the lookup's
    /// error; or what the repository answers to saving the parsed recipe
    /// under `id`, in the book the stored recipe is in (none when there is
    /// no stored recipe).
    pub open spec fn saves(&self, id: Seq<char>, source: Seq<char>, r: Result<RecipeDocument, ApplicationError>) -> bool {
        exists|parsed: Result<Recipe, ApplicationError>|
            #![trigger self.parser.parses(source, parsed)]
            self.parser.parses(source, parsed) && match parsed {
                Err(e) => r == Err::<RecipeDocument, ApplicationError>(e),
                Ok(recipe) => exists|ds: Seq<SourceDiagnostic>|
                    #![trigger self.validator.finds(recipe, ds)]
                    self.validator.finds(recipe, ds) && if has_error(ds) {
                        r == Err::<RecipeDocument, ApplicationError>(ApplicationError::Validation)
                    } else {
                        exists|found: Result<Option<RecipeDocument>, ApplicationError>|
                            #![trigger self.repository.gets_recipe(id, found)]
                            self.repository.gets_recipe(id, found) && match found {
                                Err(e) => r == Err::<RecipeDocument, ApplicationError>(e),
                                Ok(doc) => exists|saved: Recipe|
                                    #![trigger self.repository.saves_recipe(saved, source, r)]
                                    self.repository.saves_recipe(saved, source, r) && saved.id@ == id
                                        && saved.book_id == (match doc {
                                        Some(d) => d.book_id,
                                        None => None,
                                    }) && same_but_place(saved, recipe),
                            }
                    },
            }
    }

    /// Save a document: it must parse and have no error finding; the saved
    /// recipe keeps `id` and the book it is in.
    pub fn save(&self, id: &str, source_text: &str) -> (r: Result<RecipeDocument, ApplicationError>)
        ensures
            self.saves(id@, source_text@, r),
    {
        let parsed = self.parser.parse_recipe(source_text);
        let ghost parsed_g = parsed;
        proof {
            assert(self.parser.parses(source_text@, parsed_g));
        }
        let mut recipe = match parsed {
            Ok(recipe) => recipe,
            Err(e) => {
                return Err(e);
            },
        };
        let ghost parsed_recipe = recipe;
        let diagnostics = self.validator.validate(&recipe);
        proof {
            assert(self.validator.finds(parsed_recipe, diagnostics@));
        }
        if any_error(&diagnostics) {
            return Err(ApplicationError::Validation);
        }
        recipe.id = id.to_owned();
        let found = self.repository.get_recipe(id);
        let ghost found_g = found;
        proof {
            assert(self.repository.gets_recipe(id@, found_g));
        }
        recipe.book_id = match found {
            Ok(Some(document)) => document.book_id,
            Ok(None) => None,
            Err(e) => {
                return Err(e);
            },
        };
        let r = self.repository.save_recipe(&recipe, source_text);
        proof {
            assert(self.repository.saves_recipe(recipe, source_text@, r));
            assert(same_but_place(recipe, parsed_recipe));
        }
        r
    }

    /// Delete a recipe; an unknown recipe is not found.
    pub fn delete(&self, id: &str) -> (r: Result<(), ApplicationError>)
        ensures
            exists|a: Result<bool, ApplicationError>|
                #![trigger self.repository.deletes_recipe(id@, a)]
                self.repository.deletes_recipe(id@, a) && removed_as(a, "recipe"@, r),
    {
        let a = self.repository.delete_recipe(id);
        let r = removed_or(a, "recipe");
        proof {
            assert(self.repository.deletes_recipe(id@, a));
        }
        r
    }

    /// Move a recipe into a book (or out of any); an unknown recipe is not
    /// found.
    pub fn move_to_book(&self, id: &str, book_id: Option<&str>, position: i64) -> (r: Result<(), ApplicationError>)
        ensures
            exists|a: Result<bool, ApplicationError>|
                #![trigger self.repository.moves_recipe(id@, text_of(book_id), position, a)]
                self.repository.moves_recipe(id@, text_of(book_id), position, a) && removed_as(a, "recipe"@, r),
    {
        let a = self.repository.move_recipe(id, book_id, position);
        let r = removed_or(a, "recipe");
        proof {
            assert(self.repository.moves_recipe(id@, text_of(book_id), position, a));
        }
        r
    }

    /// Check a document: a parse failure is one error finding; otherwise
    /// the validator's findings, valid unless one is an error, with the
    /// recipe's counts.
    pub fn validate_source(&self, source_text: &str) -> (r: ValidationReport)
        ensures
            r.valid == !has_error(r.diagnostics@),
            exists|parsed: Result<Recipe, ApplicationError>|
                #![trigger self.parser.parses(source_text@, parsed)]
                self.parser.parses(source_text@, parsed) && match parsed {
                    Err(e) => {
                        &&& !r.valid
                        &&& r.outline is None
                        &&& r.diagnostics@.len() == 1
                        &&& r.diagnostics@[0].code@ == "CG0001"@
                        &&& r.diagnostics@[0].severity == DiagnosticSeverity::Error
                        &&& r.diagnostics@[0].message@ == error_message(e)
                        &&& r.diagnostics@[0].start is None && r.diagnostics@[0].end is None
                    },
                    Ok(recipe) => {
                        &&& self.validator.finds(recipe, r.diagnostics@)
                        &&& (r.outline matches Some(o) && outline_of(o, recipe))
                    },
                },
    {
        let parsed = self.parser.parse_recipe(source_text);
        let ghost parsed_g = parsed;
        proof {
            assert(self.parser.parses(source_text@, parsed_g));
        }
        match parsed {
            Ok(recipe) => {
                let diagnostics = self.validator.validate(&recipe);
                proof {
                    assert(self.validator.finds(recipe, diagnostics@));
                }
                report_for(&recipe, diagnostics)
            },
            Err(error) => {
                let r = report_for_parse_error(&error);
                proof {
                    assert(has_error(r.diagnostics@)) by {
                        assert(r.diagnostics@[0].severity == DiagnosticSeverity::Error);
                    }
                }
                r
            },
        }
    }
}

} // verus!
