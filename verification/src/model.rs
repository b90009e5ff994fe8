//! The recipe domain model: types, resources, operations and the relations
//! between them, as plain values.

use vstd::prelude::*;

verus! {

/// Concatenation of three pieces of text.
pub fn concat3(a: &str, b: &str, c: &str) -> (r: String)
    ensures
        r@ == a@ + b@ + c@,
{
    let mut s = String::new();
    s.append(a);
    s.append(b);
    s.append(c);
    s
}

/// Concatenation of five pieces of text.
pub fn concat5(a: &str, b: &str, c: &str, d: &str, e: &str) -> (r: String)
    ensures
        r@ == a@ + b@ + c@ + d@ + e@,
{
    let mut s = String::new();
    s.append(a);
    s.append(b);
    s.append(c);
    s.append(d);
    s.append(e);
    s
}

#[derive(Debug, PartialEq, Eq)]
pub struct TypeRef {
    pub name: String,
    pub arguments: Vec<TypeRef>,
}

impl TypeRef {
    /// A type with no arguments.
    pub fn named(name: &str) -> (r: TypeRef)
        ensures
            r.name@ == name@,
            r.arguments@.len() == 0,
    {
        TypeRef { name: name.to_owned(), arguments: Vec::new() }
    }
}

#[derive(Debug, Clone, Copy, PartialEq, Eq, Structural)]
pub enum Dimension {
    Mass,
    Volume,
    Count,
    Time,
    Temperature,
    Length,
    Area,
    Energy,
    Ratio,
    Concentration,
    Boolean,
    Text,
}

#[derive(Debug, Clone, Copy, PartialEq, Eq, Structural)]
pub struct SourceSpan {
    pub start: usize,
    pub end: usize,
}

#[derive(Debug, Clone, Copy, PartialEq, Eq, Structural)]
pub enum ResourceKind {
    Ingredient,
    Material,
    Container,
    Equipment,
    Environment,
    Labor,
    /// A product created partway through the recipe by an operation's
    /// `produces` clause rather than supplied as an input.
    Intermediate,
}

#[derive(Debug, Clone, Copy, PartialEq, Eq, Structural)]
pub enum LaborMode {
    Active,
    Passive,
    Monitor,
    Automated,
}

#[derive(Debug, Clone, Copy, PartialEq, Eq, Structural)]
pub enum DependencyKind {
    FinishStart,
    StartStart,
    FinishFinish,
    StartFinish,
}

#[derive(Debug, Clone)]
pub struct Dependency {
    pub predecessor: String,
    pub kind: DependencyKind,
    pub minimum_lag_seconds: Option<u64>,
    pub maximum_lag_seconds: Option<u64>,
    pub optional: bool,
}

#[derive(Debug, Clone, Copy, PartialEq, Eq, Structural)]
pub enum BindingRole {
    Input,
    Output,
    Target,
    Tool,
    Container,
    Equipment,
    Environment,
    Labor,
}

/// An amount with its unit. The number is kept as text, written the way a
/// recipe's reader renders it (`500`, `1.5`).
#[derive(Debug, Clone)]
pub struct Quantity {
    pub amount: String,
    pub unit: String,
}

#[derive(Debug, Clone, Copy, PartialEq, Eq, Structural)]
pub enum HeatLevel {
    Low,
    MediumLow,
    Medium,
    MediumHigh,
    High,
}

#[derive(Debug, Clone, Copy, PartialEq, Eq, Structural)]
pub enum DonenessKind {
    InternalTemp,
    Visual,
    Tester,
    Texture,
    Rise,
}

/// A sign that a step is done, with its value's text where it has one.
#[derive(Debug, Clone)]
pub struct DonenessCue {
    pub kind: DonenessKind,
    pub value: Option<String>,
}

/// A property of a declaration: its key, and its value's text where the
/// value has one (a list or an object has none).
#[derive(Debug, Clone)]
pub struct Property {
    pub key: String,
    pub text: Option<String>,
}

/// The use an operation makes of a resource.
#[derive(Debug, Clone)]
pub struct ResourceBinding {
    pub resource: String,
    pub role: BindingRole,
    pub exclusive: bool,
    /// How much of the resource the step uses, where the step says.
    pub quantity: Option<Quantity>,
}

#[derive(Debug, Clone)]
pub struct Predicate {
    pub source: String,
}

/// A resource a recipe declares.
#[derive(Debug, Clone)]
pub struct Resource {
    pub symbol: String,
    pub kind: ResourceKind,
    /// The text of its `allergen` property, where it declares one.
    pub allergen: Option<String>,
}

/// One step of a recipe, as much of it as planning and checking read.
#[derive(Debug, Clone)]
pub struct Operation {
    pub symbol: String,
    /// The declared action type's name (`Knead`, `Bake`, ...).
    pub action: String,
    pub process: String,
    pub labor: Option<LaborMode>,
    pub duration_min_seconds: Option<u64>,
    pub duration_max_seconds: Option<u64>,
    /// How many passes the step takes; the authored duration is per pass.
    pub repeat: Option<u32>,
    pub dependencies: Vec<Dependency>,
    pub bindings: Vec<ResourceBinding>,
    /// The text of its `does` property, else of its `action` property.
    pub technique: Option<String>,
    /// Where the step is declared in its source, when it came from one.
    pub span: Option<SourceSpan>,
    pub target_temperature: Option<Quantity>,
    pub heat_level: Option<HeatLevel>,
    pub doneness: Vec<DonenessCue>,
    /// Its properties, each key once.
    pub properties: Vec<Property>,
    pub notes: Vec<String>,
}

/// The parts of a recipe that planning, checking and summarising read.
#[derive(Debug, Clone)]
pub struct Recipe {
    pub id: String,
    pub book_id: Option<String>,
    pub symbol: String,
    pub title: String,
    pub protocol_version: String,
    /// The names of the types it declares.
    pub types: Vec<String>,
    pub resources: Vec<Resource>,
    /// The symbols of its processes.
    pub processes: Vec<String>,
    pub operations: Vec<Operation>,
    /// The symbols of its servings.
    pub servings: Vec<String>,
    /// The symbols of its formulas.
    pub formulas: Vec<String>,
    /// The text of its `section` property.
    pub section: Option<String>,
    /// The text of its `notes` property, else of its `note` property.
    pub notes: Option<String>,
}

#[derive(Debug, Clone, Copy, PartialEq, Eq, Structural)]
pub enum FormulaBasis {
    /// Percentage relative to one or more reference ingredients; baker's
    /// percentage is this mode with flour as the reference.
    ReferencePercent,
    PercentOfTotal,
    AbsoluteMass,
}

#[derive(Debug, Clone, Copy, PartialEq, Eq, Structural)]
pub enum PercentageView {
    Reference,
    Total,
}

#[derive(Debug, Clone, PartialEq, Eq)]
pub enum FormulaError {
    EmptyFormula,
    InvalidTargetMass,
    MissingPercentage { symbol: String },
    MissingMass { symbol: String },
    NegativeValue { symbol: String },
    ReferencePercentMustEqualOneHundred,
    MissingReferenceIngredients,
    PercentOfTotalExceedsOneHundred,
}

pub open spec fn formula_error_message(e: FormulaError) -> Seq<char> {
    match e {
        FormulaError::EmptyFormula => "formula has no ingredients"@,
        FormulaError::InvalidTargetMass => "target mass must be greater than zero"@,
        FormulaError::MissingPercentage { symbol } => "ingredient `"@ + symbol@
            + "` is missing a percentage"@,
        FormulaError::MissingMass { symbol } => "ingredient `"@ + symbol@ + "` is missing a mass"@,
        FormulaError::NegativeValue { symbol } => "ingredient `"@ + symbol@
            + "` has a negative percentage or mass"@,
        FormulaError::ReferencePercentMustEqualOneHundred =>
            "reference ingredients must total 100 reference percent"@,
        FormulaError::MissingReferenceIngredients =>
            "reference-percentage formulas require at least one reference ingredient"@,
        FormulaError::PercentOfTotalExceedsOneHundred =>
            "percent-of-total ingredients must total less than 100% when other scalable ingredients exist"@,
    }
}

impl FormulaError {
    /// The error as a sentence.
    pub fn message(&self) -> (r: String)
        ensures
            r@ == formula_error_message(*self),
    {
        match self {
            FormulaError::EmptyFormula => "formula has no ingredients".to_owned(),
            FormulaError::InvalidTargetMass => "target mass must be greater than zero".to_owned(),
            FormulaError::MissingPercentage { symbol } => concat3(
                "ingredient `",
                symbol.as_str(),
                "` is missing a percentage",
            ),
            FormulaError::MissingMass { symbol } => concat3(
                "ingredient `",
                symbol.as_str(),
                "` is missing a mass",
            ),
            FormulaError::NegativeValue { symbol } => concat3(
                "ingredient `",
                symbol.as_str(),
                "` has a negative percentage or mass",
            ),
            FormulaError::ReferencePercentMustEqualOneHundred =>
                "reference ingredients must total 100 reference percent".to_owned(),
            FormulaError::MissingReferenceIngredients =>
                "reference-percentage formulas require at least one reference ingredient".to_owned(),
            FormulaError::PercentOfTotalExceedsOneHundred =>
                "percent-of-total ingredients must total less than 100% when other scalable ingredients exist".to_owned(),
        }
    }
}


/// Lines of a formula are scalable unless they say otherwise.
pub fn default_true() -> (r: bool)
    ensures
        r,
{
    true
}

} // verus!
