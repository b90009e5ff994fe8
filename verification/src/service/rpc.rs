//! The WebSocket RPC's decisions: which methods exist, which parameters
//! each one must be given, and which change events follow a successful call.
//! The calls themselves, and the JSON they carry, are not part of it.

use vstd::prelude::*;
use crate::model::concat3;
use crate::semantic::{contains_text, texts};
use crate::syntax::text::str_eq;

verus! {

/// The methods a client may call over the WebSocket.
#[derive(Debug, Clone, Copy, PartialEq, Eq, Structural)]
pub enum RpcMethod {
    RecipesList,
    RecipesGet,
    RecipesCreate,
    RecipesSave,
    RecipesDelete,
    BooksList,
    BooksCreate,
    BooksUpdate,
    BooksDelete,
    RecipesMove,
    RecipesExport,
    ImportSettingsGet,
    ImportSettingsUpdate,
    ImportsTranslate,
    RecipesSchedule,
    RecipesValidate,
    FormulasCalculate,
    FormulasPercentages,
    FormulasSave,
    FormulasList,
    FormulasGet,
    HaccpList,
    HaccpGet,
    HaccpCreate,
    HaccpSave,
    HaccpDelete,
    HaccpRecord,
    TriesList,
    TriesGet,
    TriesStart,
    TriesUpdate,
    TriesUpdateOperation,
    TriesObserve,
    TriesDelete,
    NutritionStatus,
    NutritionSearch,
    NutritionListLinks,
    NutritionLink,
    NutritionUnlink,
    NutritionCalculate,
    ServicePing,
}

/// The name a client calls a method by.
pub open spec fn method_name(m: RpcMethod) -> Seq<char> {
    match m {
        RpcMethod::RecipesList => "recipes.list"@,
        RpcMethod::RecipesGet => "recipes.get"@,
        RpcMethod::RecipesCreate => "recipes.create"@,
        RpcMethod::RecipesSave => "recipes.save"@,
        RpcMethod::RecipesDelete => "recipes.delete"@,
        RpcMethod::BooksList => "books.list"@,
        RpcMethod::BooksCreate => "books.create"@,
        RpcMethod::BooksUpdate => "books.update"@,
        RpcMethod::BooksDelete => "books.delete"@,
        RpcMethod::RecipesMove => "recipes.move"@,
        RpcMethod::RecipesExport => "recipes.export"@,
        RpcMethod::ImportSettingsGet => "imports.settings.get"@,
        RpcMethod::ImportSettingsUpdate => "imports.settings.update"@,
        RpcMethod::ImportsTranslate => "imports.translate"@,
        RpcMethod::RecipesSchedule => "recipes.schedule"@,
        RpcMethod::RecipesValidate => "recipes.validate"@,
        RpcMethod::FormulasCalculate => "formulas.calculate"@,
        RpcMethod::FormulasPercentages => "formulas.percentages"@,
        RpcMethod::FormulasSave => "formulas.save"@,
        RpcMethod::FormulasList => "formulas.list"@,
        RpcMethod::FormulasGet => "formulas.get"@,
        RpcMethod::HaccpList => "haccp.list"@,
        RpcMethod::HaccpGet => "haccp.get"@,
        RpcMethod::HaccpCreate => "haccp.create"@,
        RpcMethod::HaccpSave => "haccp.save"@,
        RpcMethod::HaccpDelete => "haccp.delete"@,
        RpcMethod::HaccpRecord => "haccp.record"@,
        RpcMethod::TriesList => "tries.list"@,
        RpcMethod::TriesGet => "tries.get"@,
        RpcMethod::TriesStart => "tries.start"@,
        RpcMethod::TriesUpdate => "tries.update"@,
        RpcMethod::TriesUpdateOperation => "tries.updateOperation"@,
        RpcMethod::TriesObserve => "tries.observe"@,
        RpcMethod::TriesDelete => "tries.delete"@,
        RpcMethod::NutritionStatus => "nutrition.status"@,
        RpcMethod::NutritionSearch => "nutrition.search"@,
        RpcMethod::NutritionListLinks => "nutrition.listLinks"@,
        RpcMethod::NutritionLink => "nutrition.link"@,
        RpcMethod::NutritionUnlink => "nutrition.unlink"@,
        RpcMethod::NutritionCalculate => "nutrition.calculate"@,
        RpcMethod::ServicePing => "service.ping"@,
    }
}

/// The method a name calls, if any.
pub open spec fn method_named(s: Seq<char>) -> Option<RpcMethod> {
    if s == "recipes.list"@ {
        Some(RpcMethod::RecipesList)
    } else if s == "recipes.get"@ {
        Some(RpcMethod::RecipesGet)
    } else if s == "recipes.create"@ {
        Some(RpcMethod::RecipesCreate)
    } else if s == "recipes.save"@ {
        Some(RpcMethod::RecipesSave)
    } else if s == "recipes.delete"@ {
        Some(RpcMethod::RecipesDelete)
    } else if s == "books.list"@ {
        Some(RpcMethod::BooksList)
    } else if s == "books.create"@ {
        Some(RpcMethod::BooksCreate)
    } else if s == "books.update"@ {
        Some(RpcMethod::BooksUpdate)
    } else if s == "books.delete"@ {
        Some(RpcMethod::BooksDelete)
    } else if s == "recipes.move"@ {
        Some(RpcMethod::RecipesMove)
    } else if s == "recipes.export"@ {
        Some(RpcMethod::RecipesExport)
    } else if s == "imports.settings.get"@ {
        Some(RpcMethod::ImportSettingsGet)
    } else if s == "imports.settings.update"@ {
        Some(RpcMethod::ImportSettingsUpdate)
    } else if s == "imports.translate"@ {
        Some(RpcMethod::ImportsTranslate)
    } else if s == "recipes.schedule"@ {
        Some(RpcMethod::RecipesSchedule)
    } else if s == "recipes.validate"@ {
        Some(RpcMethod::RecipesValidate)
    } else if s == "formulas.calculate"@ {
        Some(RpcMethod::FormulasCalculate)
    } else if s == "formulas.percentages"@ {
        Some(RpcMethod::FormulasPercentages)
    } else if s == "formulas.save"@ {
        Some(RpcMethod::FormulasSave)
    } else if s == "formulas.list"@ {
        Some(RpcMethod::FormulasList)
    } else if s == "formulas.get"@ {
        Some(RpcMethod::FormulasGet)
    } else if s == "haccp.list"@ {
        Some(RpcMethod::HaccpList)
    } else if s == "haccp.get"@ {
        Some(RpcMethod::HaccpGet)
    } else if s == "haccp.create"@ {
        Some(RpcMethod::HaccpCreate)
    } else if s == "haccp.save"@ {
        Some(RpcMethod::HaccpSave)
    } else if s == "haccp.delete"@ {
        Some(RpcMethod::HaccpDelete)
    } else if s == "haccp.record"@ {
        Some(RpcMethod::HaccpRecord)
    } else if s == "tries.list"@ {
        Some(RpcMethod::TriesList)
    } else if s == "tries.get"@ {
        Some(RpcMethod::TriesGet)
    } else if s == "tries.start"@ {
        Some(RpcMethod::TriesStart)
    } else if s == "tries.update"@ {
        Some(RpcMethod::TriesUpdate)
    } else if s == "tries.updateOperation"@ {
        Some(RpcMethod::TriesUpdateOperation)
    } else if s == "tries.observe"@ {
        Some(RpcMethod::TriesObserve)
    } else if s == "tries.delete"@ {
        Some(RpcMethod::TriesDelete)
    } else if s == "nutrition.status"@ {
        Some(RpcMethod::NutritionStatus)
    } else if s == "nutrition.search"@ {
        Some(RpcMethod::NutritionSearch)
    } else if s == "nutrition.listLinks"@ {
        Some(RpcMethod::NutritionListLinks)
    } else if s == "nutrition.link"@ {
        Some(RpcMethod::NutritionLink)
    } else if s == "nutrition.unlink"@ {
        Some(RpcMethod::NutritionUnlink)
    } else if s == "nutrition.calculate"@ {
        Some(RpcMethod::NutritionCalculate)
    } else if s == "service.ping"@ {
        Some(RpcMethod::ServicePing)
    } else {
        None
    }
}

/// The parameters a method must be given, in the order it asks for them.
pub open spec fn keys_of(m: RpcMethod) -> Seq<Seq<char>> {
    match m {
        RpcMethod::RecipesList => Seq::empty(),
        RpcMethod::RecipesGet => seq!["id"@],
        RpcMethod::RecipesCreate => Seq::empty(),
        RpcMethod::RecipesSave => seq!["id"@, "sourceText"@],
        RpcMethod::RecipesDelete => seq!["id"@],
        RpcMethod::BooksList => Seq::empty(),
        RpcMethod::BooksCreate => seq!["title"@],
        RpcMethod::BooksUpdate => seq!["id"@, "title"@],
        RpcMethod::BooksDelete => seq!["id"@],
        RpcMethod::RecipesMove => seq!["id"@],
        RpcMethod::RecipesExport => seq!["id"@, "options"@],
        RpcMethod::ImportSettingsGet => Seq::empty(),
        RpcMethod::ImportSettingsUpdate => Seq::empty(),
        RpcMethod::ImportsTranslate => Seq::empty(),
        RpcMethod::RecipesSchedule => seq!["sourceText"@],
        RpcMethod::RecipesValidate => seq!["sourceText"@],
        RpcMethod::FormulasCalculate => seq!["formula"@, "targetMassGrams"@],
        RpcMethod::FormulasPercentages => seq!["formula"@, "view"@],
        RpcMethod::FormulasSave => Seq::empty(),
        RpcMethod::FormulasList => seq!["recipeId"@],
        RpcMethod::FormulasGet => seq!["formulaId"@],
        RpcMethod::HaccpList => seq!["recipeId"@],
        RpcMethod::HaccpGet => seq!["planId"@],
        RpcMethod::HaccpCreate => seq!["recipeId"@, "title"@],
        RpcMethod::HaccpSave => seq!["planId"@],
        RpcMethod::HaccpDelete => seq!["planId"@],
        RpcMethod::HaccpRecord => seq!["ccpId"@],
        RpcMethod::TriesList => seq!["recipeId"@],
        RpcMethod::TriesGet => seq!["tryId"@],
        RpcMethod::TriesStart => seq!["recipeId"@],
        RpcMethod::TriesUpdate => seq!["tryId"@],
        RpcMethod::TriesUpdateOperation => seq!["tryId"@, "operationId"@],
        RpcMethod::TriesObserve => seq!["tryId"@],
        RpcMethod::TriesDelete => seq!["tryId"@],
        RpcMethod::NutritionStatus => Seq::empty(),
        RpcMethod::NutritionSearch => seq!["query"@],
        RpcMethod::NutritionListLinks => seq!["recipeId"@],
        RpcMethod::NutritionLink => seq!["recipeId"@],
        RpcMethod::NutritionUnlink => seq!["recipeId"@, "resourceSymbol"@],
        RpcMethod::NutritionCalculate => seq!["recipeId"@],
        RpcMethod::ServicePing => Seq::empty(),
    }
}

/// The change events a successful call publishes, in order: each a topic
/// and the kind of change, where the payload names one.
pub open spec fn events_of(m: RpcMethod) -> Seq<(Seq<char>, Option<Seq<char>>)> {
    match m {
        RpcMethod::RecipesList => Seq::empty(),
        RpcMethod::RecipesGet => Seq::empty(),
        RpcMethod::RecipesCreate => seq![("recipes.changed"@, Some("created"@))],
        RpcMethod::RecipesSave => seq![("recipes.changed"@, Some("saved"@))],
        RpcMethod::RecipesDelete => seq![("recipes.changed"@, Some("deleted"@))],
        RpcMethod::BooksList => Seq::empty(),
        RpcMethod::BooksCreate => seq![("books.changed"@, Some("created"@))],
        RpcMethod::BooksUpdate => seq![("books.changed"@, Some("updated"@))],
        RpcMethod::BooksDelete => seq![("books.changed"@, Some("deleted"@))],
        RpcMethod::RecipesMove => seq![("recipes.changed"@, Some("moved"@)), ("books.changed"@, Some("membership"@))],
        RpcMethod::RecipesExport => Seq::empty(),
        RpcMethod::ImportSettingsGet => Seq::empty(),
        RpcMethod::ImportSettingsUpdate => Seq::empty(),
        RpcMethod::ImportsTranslate => Seq::empty(),
        RpcMethod::RecipesSchedule => Seq::empty(),
        RpcMethod::RecipesValidate => Seq::empty(),
        RpcMethod::FormulasCalculate => Seq::empty(),
        RpcMethod::FormulasPercentages => Seq::empty(),
        RpcMethod::FormulasSave => seq![("formulas.changed"@, None)],
        RpcMethod::FormulasList => Seq::empty(),
        RpcMethod::FormulasGet => Seq::empty(),
        RpcMethod::HaccpList => Seq::empty(),
        RpcMethod::HaccpGet => Seq::empty(),
        RpcMethod::HaccpCreate => seq![("haccp.changed"@, Some("created"@))],
        RpcMethod::HaccpSave => seq![("haccp.changed"@, Some("saved"@))],
        RpcMethod::HaccpDelete => seq![("haccp.changed"@, Some("deleted"@))],
        RpcMethod::HaccpRecord => seq![("haccp.changed"@, Some("recorded"@))],
        RpcMethod::TriesList => Seq::empty(),
        RpcMethod::TriesGet => Seq::empty(),
        RpcMethod::TriesStart => seq![("tries.changed"@, Some("started"@))],
        RpcMethod::TriesUpdate => seq![("tries.changed"@, Some("updated"@))],
        RpcMethod::TriesUpdateOperation => seq![("tries.changed"@, Some("operation"@))],
        RpcMethod::TriesObserve => seq![("tries.changed"@, Some("observed"@))],
        RpcMethod::TriesDelete => seq![("tries.changed"@, Some("deleted"@))],
        RpcMethod::NutritionStatus => Seq::empty(),
        RpcMethod::NutritionSearch => Seq::empty(),
        RpcMethod::NutritionListLinks => Seq::empty(),
        RpcMethod::NutritionLink => seq![("nutrition.changed"@, Some("linked"@))],
        RpcMethod::NutritionUnlink => seq![("nutrition.changed"@, Some("unlinked"@))],
        RpcMethod::NutritionCalculate => Seq::empty(),
        RpcMethod::ServicePing => Seq::empty(),
    }
}

pub open spec fn key_views(v: Seq<&str>) -> Seq<Seq<char>> {
    v.map_values(|k: &str| k@)
}

pub open spec fn event_views(v: Seq<(&str, Option<&str>)>) -> Seq<(Seq<char>, Option<Seq<char>>)> {
    v.map_values(
        |e: (&str, Option<&str>)|
            (
                e.0@,
                match e.1 {
                    Some(k) => Some(k@),
                    None => None,
                },
            ),
    )
}

impl RpcMethod {
    /// The name a client calls this method by.
    pub fn name(&self) -> (r: &'static str)
        ensures
            r@ == method_name(*self),
    {
        match self {
            RpcMethod::RecipesList => "recipes.list",
            RpcMethod::RecipesGet => "recipes.get",
            RpcMethod::RecipesCreate => "recipes.create",
            RpcMethod::RecipesSave => "recipes.save",
            RpcMethod::RecipesDelete => "recipes.delete",
            RpcMethod::BooksList => "books.list",
            RpcMethod::BooksCreate => "books.create",
            RpcMethod::BooksUpdate => "books.update",
            RpcMethod::BooksDelete => "books.delete",
            RpcMethod::RecipesMove => "recipes.move",
            RpcMethod::RecipesExport => "recipes.export",
            RpcMethod::ImportSettingsGet => "imports.settings.get",
            RpcMethod::ImportSettingsUpdate => "imports.settings.update",
            RpcMethod::ImportsTranslate => "imports.translate",
            RpcMethod::RecipesSchedule => "recipes.schedule",
            RpcMethod::RecipesValidate => "recipes.validate",
            RpcMethod::FormulasCalculate => "formulas.calculate",
            RpcMethod::FormulasPercentages => "formulas.percentages",
            RpcMethod::FormulasSave => "formulas.save",
            RpcMethod::FormulasList => "formulas.list",
            RpcMethod::FormulasGet => "formulas.get",
            RpcMethod::HaccpList => "haccp.list",
            RpcMethod::HaccpGet => "haccp.get",
            RpcMethod::HaccpCreate => "haccp.create",
            RpcMethod::HaccpSave => "haccp.save",
            RpcMethod::HaccpDelete => "haccp.delete",
            RpcMethod::HaccpRecord => "haccp.record",
            RpcMethod::TriesList => "tries.list",
            RpcMethod::TriesGet => "tries.get",
            RpcMethod::TriesStart => "tries.start",
            RpcMethod::TriesUpdate => "tries.update",
            RpcMethod::TriesUpdateOperation => "tries.updateOperation",
            RpcMethod::TriesObserve => "tries.observe",
            RpcMethod::TriesDelete => "tries.delete",
            RpcMethod::NutritionStatus => "nutrition.status",
            RpcMethod::NutritionSearch => "nutrition.search",
            RpcMethod::NutritionListLinks => "nutrition.listLinks",
            RpcMethod::NutritionLink => "nutrition.link",
            RpcMethod::NutritionUnlink => "nutrition.unlink",
            RpcMethod::NutritionCalculate => "nutrition.calculate",
            RpcMethod::ServicePing => "service.ping",
        }
    }

    /// The parameters this method must be given, in the order it asks for them.
    pub fn required_keys(&self) -> (r: Vec<&'static str>)
        ensures
            key_views(r@) == keys_of(*self),
    {
        let r: Vec<&'static str> = match self {
            RpcMethod::RecipesList => Vec::new(),
            RpcMethod::RecipesGet => vec!["id"],
            RpcMethod::RecipesCreate => Vec::new(),
            RpcMethod::RecipesSave => vec!["id", "sourceText"],
            RpcMethod::RecipesDelete => vec!["id"],
            RpcMethod::BooksList => Vec::new(),
            RpcMethod::BooksCreate => vec!["title"],
            RpcMethod::BooksUpdate => vec!["id", "title"],
            RpcMethod::BooksDelete => vec!["id"],
            RpcMethod::RecipesMove => vec!["id"],
            RpcMethod::RecipesExport => vec!["id", "options"],
            RpcMethod::ImportSettingsGet => Vec::new(),
            RpcMethod::ImportSettingsUpdate => Vec::new(),
            RpcMethod::ImportsTranslate => Vec::new(),
            RpcMethod::RecipesSchedule => vec!["sourceText"],
            RpcMethod::RecipesValidate => vec!["sourceText"],
            RpcMethod::FormulasCalculate => vec!["formula", "targetMassGrams"],
            RpcMethod::FormulasPercentages => vec!["formula", "view"],
            RpcMethod::FormulasSave => Vec::new(),
            RpcMethod::FormulasList => vec!["recipeId"],
            RpcMethod::FormulasGet => vec!["formulaId"],
            RpcMethod::HaccpList => vec!["recipeId"],
            RpcMethod::HaccpGet => vec!["planId"],
            RpcMethod::HaccpCreate => vec!["recipeId", "title"],
            RpcMethod::HaccpSave => vec!["planId"],
            RpcMethod::HaccpDelete => vec!["planId"],
            RpcMethod::HaccpRecord => vec!["ccpId"],
            RpcMethod::TriesList => vec!["recipeId"],
            RpcMethod::TriesGet => vec!["tryId"],
            RpcMethod::TriesStart => vec!["recipeId"],
            RpcMethod::TriesUpdate => vec!["tryId"],
            RpcMethod::TriesUpdateOperation => vec!["tryId", "operationId"],
            RpcMethod::TriesObserve => vec!["tryId"],
            RpcMethod::TriesDelete => vec!["tryId"],
            RpcMethod::NutritionStatus => Vec::new(),
            RpcMethod::NutritionSearch => vec!["query"],
            RpcMethod::NutritionListLinks => vec!["recipeId"],
            RpcMethod::NutritionLink => vec!["recipeId"],
            RpcMethod::NutritionUnlink => vec!["recipeId", "resourceSymbol"],
            RpcMethod::NutritionCalculate => vec!["recipeId"],
            RpcMethod::ServicePing => Vec::new(),
        };
        proof {
            assert(key_views(r@) =~= keys_of(*self));
        }
        r
    }

    /// The change events a successful call publishes, in order.
    pub fn change_events(&self) -> (r: Vec<(&'static str, Option<&'static str>)>)
        ensures
            event_views(r@) == events_of(*self),
    {
        let r: Vec<(&'static str, Option<&'static str>)> = match self {
            RpcMethod::RecipesList => Vec::new(),
            RpcMethod::RecipesGet => Vec::new(),
            RpcMethod::RecipesCreate => vec![("recipes.changed", Some("created"))],
            RpcMethod::RecipesSave => vec![("recipes.changed", Some("saved"))],
            RpcMethod::RecipesDelete => vec![("recipes.changed", Some("deleted"))],
            RpcMethod::BooksList => Vec::new(),
            RpcMethod::BooksCreate => vec![("books.changed", Some("created"))],
            RpcMethod::BooksUpdate => vec![("books.changed", Some("updated"))],
            RpcMethod::BooksDelete => vec![("books.changed", Some("deleted"))],
            RpcMethod::RecipesMove => vec![("recipes.changed", Some("moved")), ("books.changed", Some("membership"))],
            RpcMethod::RecipesExport => Vec::new(),
            RpcMethod::ImportSettingsGet => Vec::new(),
            RpcMethod::ImportSettingsUpdate => Vec::new(),
            RpcMethod::ImportsTranslate => Vec::new(),
            RpcMethod::RecipesSchedule => Vec::new(),
            RpcMethod::RecipesValidate => Vec::new(),
            RpcMethod::FormulasCalculate => Vec::new(),
            RpcMethod::FormulasPercentages => Vec::new(),
            RpcMethod::FormulasSave => vec![("formulas.changed", None)],
            RpcMethod::FormulasList => Vec::new(),
            RpcMethod::FormulasGet => Vec::new(),
            RpcMethod::HaccpList => Vec::new(),
            RpcMethod::HaccpGet => Vec::new(),
            RpcMethod::HaccpCreate => vec![("haccp.changed", Some("created"))],
            RpcMethod::HaccpSave => vec![("haccp.changed", Some("saved"))],
            RpcMethod::HaccpDelete => vec![("haccp.changed", Some("deleted"))],
            RpcMethod::HaccpRecord => vec![("haccp.changed", Some("recorded"))],
            RpcMethod::TriesList => Vec::new(),
            RpcMethod::TriesGet => Vec::new(),
            RpcMethod::TriesStart => vec![("tries.changed", Some("started"))],
            RpcMethod::TriesUpdate => vec![("tries.changed", Some("updated"))],
            RpcMethod::TriesUpdateOperation => vec![("tries.changed", Some("operation"))],
            RpcMethod::TriesObserve => vec![("tries.changed", Some("observed"))],
            RpcMethod::TriesDelete => vec![("tries.changed", Some("deleted"))],
            RpcMethod::NutritionStatus => Vec::new(),
            RpcMethod::NutritionSearch => Vec::new(),
            RpcMethod::NutritionListLinks => Vec::new(),
            RpcMethod::NutritionLink => vec![("nutrition.changed", Some("linked"))],
            RpcMethod::NutritionUnlink => vec![("nutrition.changed", Some("unlinked"))],
            RpcMethod::NutritionCalculate => Vec::new(),
            RpcMethod::ServicePing => Vec::new(),
        };
        proof {
            assert(event_views(r@) =~= events_of(*self));
        }
        r
    }
}

/// The method a client's name calls; `None` for a name no method has.
pub fn rpc_method(name: &str) -> (r: Option<RpcMethod>)
    ensures
        r == method_named(name@),
{
    if str_eq(name, "recipes.list") {
        return Some(RpcMethod::RecipesList);
    }
    if str_eq(name, "recipes.get") {
        return Some(RpcMethod::RecipesGet);
    }
    if str_eq(name, "recipes.create") {
        return Some(RpcMethod::RecipesCreate);
    }
    if str_eq(name, "recipes.save") {
        return Some(RpcMethod::RecipesSave);
    }
    if str_eq(name, "recipes.delete") {
        return Some(RpcMethod::RecipesDelete);
    }
    if str_eq(name, "books.list") {
        return Some(RpcMethod::BooksList);
    }
    if str_eq(name, "books.create") {
        return Some(RpcMethod::BooksCreate);
    }
    if str_eq(name, "books.update") {
        return Some(RpcMethod::BooksUpdate);
    }
    if str_eq(name, "books.delete") {
        return Some(RpcMethod::BooksDelete);
    }
    if str_eq(name, "recipes.move") {
        return Some(RpcMethod::RecipesMove);
    }
    if str_eq(name, "recipes.export") {
        return Some(RpcMethod::RecipesExport);
    }
    if str_eq(name, "imports.settings.get") {
        return Some(RpcMethod::ImportSettingsGet);
    }
    if str_eq(name, "imports.settings.update") {
        return Some(RpcMethod::ImportSettingsUpdate);
    }
    if str_eq(name, "imports.translate") {
        return Some(RpcMethod::ImportsTranslate);
    }
    if str_eq(name, "recipes.schedule") {
        return Some(RpcMethod::RecipesSchedule);
    }
    if str_eq(name, "recipes.validate") {
        return Some(RpcMethod::RecipesValidate);
    }
    if str_eq(name, "formulas.calculate") {
        return Some(RpcMethod::FormulasCalculate);
    }
    if str_eq(name, "formulas.percentages") {
        return Some(RpcMethod::FormulasPercentages);
    }
    if str_eq(name, "formulas.save") {
        return Some(RpcMethod::FormulasSave);
    }
    if str_eq(name, "formulas.list") {
        return Some(RpcMethod::FormulasList);
    }
    if str_eq(name, "formulas.get") {
        return Some(RpcMethod::FormulasGet);
    }
    if str_eq(name, "haccp.list") {
        return Some(RpcMethod::HaccpList);
    }
    if str_eq(name, "haccp.get") {
        return Some(RpcMethod::HaccpGet);
    }
    if str_eq(name, "haccp.create") {
        return Some(RpcMethod::HaccpCreate);
    }
    if str_eq(name, "haccp.save") {
        return Some(RpcMethod::HaccpSave);
    }
    if str_eq(name, "haccp.delete") {
        return Some(RpcMethod::HaccpDelete);
    }
    if str_eq(name, "haccp.record") {
        return Some(RpcMethod::HaccpRecord);
    }
    if str_eq(name, "tries.list") {
        return Some(RpcMethod::TriesList);
    }
    if str_eq(name, "tries.get") {
        return Some(RpcMethod::TriesGet);
    }
    if str_eq(name, "tries.start") {
        return Some(RpcMethod::TriesStart);
    }
    if str_eq(name, "tries.update") {
        return Some(RpcMethod::TriesUpdate);
    }
    if str_eq(name, "tries.updateOperation") {
        return Some(RpcMethod::TriesUpdateOperation);
    }
    if str_eq(name, "tries.observe") {
        return Some(RpcMethod::TriesObserve);
    }
    if str_eq(name, "tries.delete") {
        return Some(RpcMethod::TriesDelete);
    }
    if str_eq(name, "nutrition.status") {
        return Some(RpcMethod::NutritionStatus);
    }
    if str_eq(name, "nutrition.search") {
        return Some(RpcMethod::NutritionSearch);
    }
    if str_eq(name, "nutrition.listLinks") {
        return Some(RpcMethod::NutritionListLinks);
    }
    if str_eq(name, "nutrition.link") {
        return Some(RpcMethod::NutritionLink);
    }
    if str_eq(name, "nutrition.unlink") {
        return Some(RpcMethod::NutritionUnlink);
    }
    if str_eq(name, "nutrition.calculate") {
        return Some(RpcMethod::NutritionCalculate);
    }
    if str_eq(name, "service.ping") {
        return Some(RpcMethod::ServicePing);
    }
    None
}

/// The first of `keys` that `usable` lacks.
pub open spec fn first_absent(keys: Seq<Seq<char>>, usable: Seq<Seq<char>>) -> Option<Seq<char>>
    decreases keys.len(),
{
    if keys.len() == 0 {
        None
    } else if usable.contains(keys[0]) {
        first_absent(keys.drop_first(), usable)
    } else {
        Some(keys[0])
    }
}

/// What becomes of a call of `name` whose parameters hold a usable value
/// under each of the keys in `usable` (a string where the method wants a
/// string, a number where it wants a number): the method to run, or the
/// error the caller gets, for an unknown method or for the first parameter
/// the method asks for and does not find.
pub fn decide(name: &str, usable: &Vec<String>) -> (r: Result<RpcMethod, String>)
    ensures
        method_named(name@) is None ==> (r matches Err(e) && e@ == "Unknown RPC method: "@ + name@),
        method_named(name@) matches Some(m) ==> match first_absent(keys_of(m), texts(usable@)) {
            Some(k) => r matches Err(e) && e@ == "Missing "@ + k,
            None => r == Ok::<RpcMethod, String>(m),
        },
{
    match rpc_method(name) {
        None => Err(unknown_method_message(name)),
        Some(m) => {
            let keys = m.required_keys();
            let mut k: usize = 0;
            proof {
                assert(keys_of(m).skip(0) =~= keys_of(m));
            }
            while k < keys.len()
                invariant
                    method_named(name@) == Some(m),
                    k <= keys@.len(),
                    key_views(keys@) == keys_of(m),
                    first_absent(keys_of(m), texts(usable@)) == first_absent(
                        keys_of(m).skip(k as int),
                        texts(usable@),
                    ),
                decreases keys@.len() - k,
            {
                let ghost rest = keys_of(m).skip(k as int);
                proof {
                    assert(key_views(keys@)[k as int] == keys@[k as int]@);
                    assert(rest.len() > 0);
                    assert(rest[0] == keys@[k as int]@);
                    assert(rest.drop_first() =~= keys_of(m).skip(k + 1));
                }
                if !contains_text(usable, keys[k]) {
                    return Err(missing_parameter_message(keys[k]));
                }
                k = k + 1;
            }
            proof {
                assert(keys_of(m).skip(k as int) =~= Seq::<Seq<char>>::empty());
            }
            Ok(m)
        },
    }
}

/// The first thing the service does with a call.
#[derive(Debug, Clone, PartialEq, Eq)]
pub enum RpcPlan {
    /// Answer at once with this error: no route runs and nothing is published.
    Refuse(String),
    /// Answer `{"status": <this text>}` at once: no route runs and nothing is
    /// published.
    Status(&'static str),
    /// Run the method's route, then settle the call with its outcome.
    Run(RpcMethod),
}

/// What the service does first with a call of `name` (see `decide` for
/// `usable`): refuse it, answer a ping, or run the method's route.
pub fn plan(name: &str, usable: &Vec<String>) -> (r: RpcPlan)
    ensures
        method_named(name@) is None ==> (r matches RpcPlan::Refuse(e) && e@ == "Unknown RPC method: "@
            + name@),
        method_named(name@) == Some(RpcMethod::ServicePing) ==> (r matches RpcPlan::Status(s) && s@
            == "ok"@),
        method_named(name@) matches Some(m) ==> (m != RpcMethod::ServicePing ==> match first_absent(
            keys_of(m),
            texts(usable@),
        ) {
            Some(k) => r matches RpcPlan::Refuse(e) && e@ == "Missing "@ + k,
            None => r == RpcPlan::Run(m),
        }),
{
    match decide(name, usable) {
        Err(e) => RpcPlan::Refuse(e),
        Ok(RpcMethod::ServicePing) => RpcPlan::Status("ok"),
        Ok(m) => RpcPlan::Run(m),
    }
}

/// How a call whose route ran is answered.
#[derive(Debug, PartialEq, Eq)]
pub struct Settled {
    /// `Ok` when the route succeeded (the caller sends the route's value),
    /// else the route's error text.
    pub reply: Result<(), String>,
    /// The change events to publish, in order.
    pub events: Vec<(&'static str, Option<&'static str>)>,
}

/// Settle a call of `m` whose route failed with `failure`, or succeeded when
/// that is `None`: a failed call answers the route's error and publishes
/// nothing; a successful one publishes the method's change events.
pub fn settle(m: RpcMethod, failure: Option<String>) -> (r: Settled)
    ensures
        failure matches Some(e) ==> r.reply == Err::<(), String>(e) && r.events@.len() == 0,
        failure is None ==> r.reply is Ok && event_views(r.events@) == events_of(m),
{
    match failure {
        Some(e) => Settled { reply: Err(e), events: Vec::new() },
        None => Settled { reply: Ok(()), events: m.change_events() },
    }
}

/// The error code every failed call is answered with.
pub fn failure_code() -> (r: &'static str)
    ensures
        r@ == "operation_failed"@,
{
    "operation_failed"
}

/// The error a call of an unknown method is answered with.
pub fn unknown_method_message(name: &str) -> (r: String)
    ensures
        r@ == "Unknown RPC method: "@ + name@,
{
    proof {
        reveal_strlit("");
    }
    concat3("Unknown RPC method: ", name, "")
}

/// The error a call is answered with when a parameter it must be given is
/// absent.
pub fn missing_parameter_message(key: &str) -> (r: String)
    ensures
        r@ == "Missing "@ + key@,
{
    proof {
        reveal_strlit("");
    }
    concat3("Missing ", key, "")
}

/// Whether a successful call of `m` changes stored data: it creates, saves,
/// updates, deletes, moves, records, starts, observes, links or unlinks
/// something.
pub open spec fn changes_stored_data(m: RpcMethod) -> bool {
    m == RpcMethod::RecipesCreate || m == RpcMethod::RecipesSave || m == RpcMethod::RecipesDelete || m == RpcMethod::BooksCreate || m == RpcMethod::BooksUpdate || m == RpcMethod::BooksDelete || m == RpcMethod::RecipesMove || m == RpcMethod::FormulasSave || m == RpcMethod::HaccpCreate || m == RpcMethod::HaccpSave || m == RpcMethod::HaccpDelete || m == RpcMethod::HaccpRecord || m == RpcMethod::TriesStart || m == RpcMethod::TriesUpdate || m == RpcMethod::TriesUpdateOperation || m == RpcMethod::TriesObserve || m == RpcMethod::TriesDelete || m == RpcMethod::NutritionLink || m == RpcMethod::NutritionUnlink
}

/// The collection a method works on: the part of its name before the first
/// dot.
pub open spec fn collection_of(m: RpcMethod) -> Seq<char> {
    match m {
        RpcMethod::RecipesList => "recipes"@,
        RpcMethod::RecipesGet => "recipes"@,
        RpcMethod::RecipesCreate => "recipes"@,
        RpcMethod::RecipesSave => "recipes"@,
        RpcMethod::RecipesDelete => "recipes"@,
        RpcMethod::BooksList => "books"@,
        RpcMethod::BooksCreate => "books"@,
        RpcMethod::BooksUpdate => "books"@,
        RpcMethod::BooksDelete => "books"@,
        RpcMethod::RecipesMove => "recipes"@,
        RpcMethod::RecipesExport => "recipes"@,
        RpcMethod::ImportSettingsGet => "imports"@,
        RpcMethod::ImportSettingsUpdate => "imports"@,
        RpcMethod::ImportsTranslate => "imports"@,
        RpcMethod::RecipesSchedule => "recipes"@,
        RpcMethod::RecipesValidate => "recipes"@,
        RpcMethod::FormulasCalculate => "formulas"@,
        RpcMethod::FormulasPercentages => "formulas"@,
        RpcMethod::FormulasSave => "formulas"@,
        RpcMethod::FormulasList => "formulas"@,
        RpcMethod::FormulasGet => "formulas"@,
        RpcMethod::HaccpList => "haccp"@,
        RpcMethod::HaccpGet => "haccp"@,
        RpcMethod::HaccpCreate => "haccp"@,
        RpcMethod::HaccpSave => "haccp"@,
        RpcMethod::HaccpDelete => "haccp"@,
        RpcMethod::HaccpRecord => "haccp"@,
        RpcMethod::TriesList => "tries"@,
        RpcMethod::TriesGet => "tries"@,
        RpcMethod::TriesStart => "tries"@,
        RpcMethod::TriesUpdate => "tries"@,
        RpcMethod::TriesUpdateOperation => "tries"@,
        RpcMethod::TriesObserve => "tries"@,
        RpcMethod::TriesDelete => "tries"@,
        RpcMethod::NutritionStatus => "nutrition"@,
        RpcMethod::NutritionSearch => "nutrition"@,
        RpcMethod::NutritionListLinks => "nutrition"@,
        RpcMethod::NutritionLink => "nutrition"@,
        RpcMethod::NutritionUnlink => "nutrition"@,
        RpcMethod::NutritionCalculate => "nutrition"@,
        RpcMethod::ServicePing => "service"@,
    }
}

/// A method's name starts with its collection and a dot.
pub proof fn lemma_collection_names_method(m: RpcMethod)
    ensures
        collection_of(m).len() + 1 <= method_name(m).len(),
        method_name(m).subrange(0, collection_of(m).len() + 1 as int) == collection_of(m) + "."@,
{
    reveal_strlit(".");
    match m {
        RpcMethod::RecipesList => {
            reveal_strlit("recipes.list");
            reveal_strlit("recipes");
            assert(method_name(m).subrange(0, "recipes"@.len() + 1 as int) =~= "recipes"@ + "."@);
        },
        RpcMethod::RecipesGet => {
            reveal_strlit("recipes.get");
            reveal_strlit("recipes");
            assert(method_name(m).subrange(0, "recipes"@.len() + 1 as int) =~= "recipes"@ + "."@);
        },
        RpcMethod::RecipesCreate => {
            reveal_strlit("recipes.create");
            reveal_strlit("recipes");
            assert(method_name(m).subrange(0, "recipes"@.len() + 1 as int) =~= "recipes"@ + "."@);
        },
        RpcMethod::RecipesSave => {
            reveal_strlit("recipes.save");
            reveal_strlit("recipes");
            assert(method_name(m).subrange(0, "recipes"@.len() + 1 as int) =~= "recipes"@ + "."@);
        },
        RpcMethod::RecipesDelete => {
            reveal_strlit("recipes.delete");
            reveal_strlit("recipes");
            assert(method_name(m).subrange(0, "recipes"@.len() + 1 as int) =~= "recipes"@ + "."@);
        },
        RpcMethod::BooksList => {
            reveal_strlit("books.list");
            reveal_strlit("books");
            assert(method_name(m).subrange(0, "books"@.len() + 1 as int) =~= "books"@ + "."@);
        },
        RpcMethod::BooksCreate => {
            reveal_strlit("books.create");
            reveal_strlit("books");
            assert(method_name(m).subrange(0, "books"@.len() + 1 as int) =~= "books"@ + "."@);
        },
        RpcMethod::BooksUpdate => {
            reveal_strlit("books.update");
            reveal_strlit("books");
            assert(method_name(m).subrange(0, "books"@.len() + 1 as int) =~= "books"@ + "."@);
        },
        RpcMethod::BooksDelete => {
            reveal_strlit("books.delete");
            reveal_strlit("books");
            assert(method_name(m).subrange(0, "books"@.len() + 1 as int) =~= "books"@ + "."@);
        },
        RpcMethod::RecipesMove => {
            reveal_strlit("recipes.move");
            reveal_strlit("recipes");
            assert(method_name(m).subrange(0, "recipes"@.len() + 1 as int) =~= "recipes"@ + "."@);
        },
        RpcMethod::RecipesExport => {
            reveal_strlit("recipes.export");
            reveal_strlit("recipes");
            assert(method_name(m).subrange(0, "recipes"@.len() + 1 as int) =~= "recipes"@ + "."@);
        },
        RpcMethod::ImportSettingsGet => {
            reveal_strlit("imports.settings.get");
            reveal_strlit("imports");
            assert(method_name(m).subrange(0, "imports"@.len() + 1 as int) =~= "imports"@ + "."@);
        },
        RpcMethod::ImportSettingsUpdate => {
            reveal_strlit("imports.settings.update");
            reveal_strlit("imports");
            assert(method_name(m).subrange(0, "imports"@.len() + 1 as int) =~= "imports"@ + "."@);
        },
        RpcMethod::ImportsTranslate => {
            reveal_strlit("imports.translate");
            reveal_strlit("imports");
            assert(method_name(m).subrange(0, "imports"@.len() + 1 as int) =~= "imports"@ + "."@);
        },
        RpcMethod::RecipesSchedule => {
            reveal_strlit("recipes.schedule");
            reveal_strlit("recipes");
            assert(method_name(m).subrange(0, "recipes"@.len() + 1 as int) =~= "recipes"@ + "."@);
        },
        RpcMethod::RecipesValidate => {
            reveal_strlit("recipes.validate");
            reveal_strlit("recipes");
            assert(method_name(m).subrange(0, "recipes"@.len() + 1 as int) =~= "recipes"@ + "."@);
        },
        RpcMethod::FormulasCalculate => {
            reveal_strlit("formulas.calculate");
            reveal_strlit("formulas");
            assert(method_name(m).subrange(0, "formulas"@.len() + 1 as int) =~= "formulas"@ + "."@);
        },
        RpcMethod::FormulasPercentages => {
            reveal_strlit("formulas.percentages");
            reveal_strlit("formulas");
            assert(method_name(m).subrange(0, "formulas"@.len() + 1 as int) =~= "formulas"@ + "."@);
        },
        RpcMethod::FormulasSave => {
            reveal_strlit("formulas.save");
            reveal_strlit("formulas");
            assert(method_name(m).subrange(0, "formulas"@.len() + 1 as int) =~= "formulas"@ + "."@);
        },
        RpcMethod::FormulasList => {
            reveal_strlit("formulas.list");
            reveal_strlit("formulas");
            assert(method_name(m).subrange(0, "formulas"@.len() + 1 as int) =~= "formulas"@ + "."@);
        },
        RpcMethod::FormulasGet => {
            reveal_strlit("formulas.get");
            reveal_strlit("formulas");
            assert(method_name(m).subrange(0, "formulas"@.len() + 1 as int) =~= "formulas"@ + "."@);
        },
        RpcMethod::HaccpList => {
            reveal_strlit("haccp.list");
            reveal_strlit("haccp");
            assert(method_name(m).subrange(0, "haccp"@.len() + 1 as int) =~= "haccp"@ + "."@);
        },
        RpcMethod::HaccpGet => {
            reveal_strlit("haccp.get");
            reveal_strlit("haccp");
            assert(method_name(m).subrange(0, "haccp"@.len() + 1 as int) =~= "haccp"@ + "."@);
        },
        RpcMethod::HaccpCreate => {
            reveal_strlit("haccp.create");
            reveal_strlit("haccp");
            assert(method_name(m).subrange(0, "haccp"@.len() + 1 as int) =~= "haccp"@ + "."@);
        },
        RpcMethod::HaccpSave => {
            reveal_strlit("haccp.save");
            reveal_strlit("haccp");
            assert(method_name(m).subrange(0, "haccp"@.len() + 1 as int) =~= "haccp"@ + "."@);
        },
        RpcMethod::HaccpDelete => {
            reveal_strlit("haccp.delete");
            reveal_strlit("haccp");
            assert(method_name(m).subrange(0, "haccp"@.len() + 1 as int) =~= "haccp"@ + "."@);
        },
        RpcMethod::HaccpRecord => {
            reveal_strlit("haccp.record");
            reveal_strlit("haccp");
            assert(method_name(m).subrange(0, "haccp"@.len() + 1 as int) =~= "haccp"@ + "."@);
        },
        RpcMethod::TriesList => {
            reveal_strlit("tries.list");
            reveal_strlit("tries");
            assert(method_name(m).subrange(0, "tries"@.len() + 1 as int) =~= "tries"@ + "."@);
        },
        RpcMethod::TriesGet => {
            reveal_strlit("tries.get");
            reveal_strlit("tries");
            assert(method_name(m).subrange(0, "tries"@.len() + 1 as int) =~= "tries"@ + "."@);
        },
        RpcMethod::TriesStart => {
            reveal_strlit("tries.start");
            reveal_strlit("tries");
            assert(method_name(m).subrange(0, "tries"@.len() + 1 as int) =~= "tries"@ + "."@);
        },
        RpcMethod::TriesUpdate => {
            reveal_strlit("tries.update");
            reveal_strlit("tries");
            assert(method_name(m).subrange(0, "tries"@.len() + 1 as int) =~= "tries"@ + "."@);
        },
        RpcMethod::TriesUpdateOperation => {
            reveal_strlit("tries.updateOperation");
            reveal_strlit("tries");
            assert(method_name(m).subrange(0, "tries"@.len() + 1 as int) =~= "tries"@ + "."@);
        },
        RpcMethod::TriesObserve => {
            reveal_strlit("tries.observe");
            reveal_strlit("tries");
            assert(method_name(m).subrange(0, "tries"@.len() + 1 as int) =~= "tries"@ + "."@);
        },
        RpcMethod::TriesDelete => {
            reveal_strlit("tries.delete");
            reveal_strlit("tries");
            assert(method_name(m).subrange(0, "tries"@.len() + 1 as int) =~= "tries"@ + "."@);
        },
        RpcMethod::NutritionStatus => {
            reveal_strlit("nutrition.status");
            reveal_strlit("nutrition");
            assert(method_name(m).subrange(0, "nutrition"@.len() + 1 as int) =~= "nutrition"@ + "."@);
        },
        RpcMethod::NutritionSearch => {
            reveal_strlit("nutrition.search");
            reveal_strlit("nutrition");
            assert(method_name(m).subrange(0, "nutrition"@.len() + 1 as int) =~= "nutrition"@ + "."@);
        },
        RpcMethod::NutritionListLinks => {
            reveal_strlit("nutrition.listLinks");
            reveal_strlit("nutrition");
            assert(method_name(m).subrange(0, "nutrition"@.len() + 1 as int) =~= "nutrition"@ + "."@);
        },
        RpcMethod::NutritionLink => {
            reveal_strlit("nutrition.link");
            reveal_strlit("nutrition");
            assert(method_name(m).subrange(0, "nutrition"@.len() + 1 as int) =~= "nutrition"@ + "."@);
        },
        RpcMethod::NutritionUnlink => {
            reveal_strlit("nutrition.unlink");
            reveal_strlit("nutrition");
            assert(method_name(m).subrange(0, "nutrition"@.len() + 1 as int) =~= "nutrition"@ + "."@);
        },
        RpcMethod::NutritionCalculate => {
            reveal_strlit("nutrition.calculate");
            reveal_strlit("nutrition");
            assert(method_name(m).subrange(0, "nutrition"@.len() + 1 as int) =~= "nutrition"@ + "."@);
        },
        RpcMethod::ServicePing => {
            reveal_strlit("service.ping");
            reveal_strlit("service");
            assert(method_name(m).subrange(0, "service"@.len() + 1 as int) =~= "service"@ + "."@);
        },
    }
}

/// A successful call that changes stored data tells every connected editor:
/// its first change event is on the topic of the collection it changed. A
/// call that changes nothing publishes nothing, and a deletion publishes
/// exactly one event, of kind `deleted`, on its collection's topic.
pub proof fn lemma_changes_are_published(m: RpcMethod)
    ensures
        changes_stored_data(m) ==> events_of(m).len() >= 1 && events_of(m)[0].0 == collection_of(m)
            + ".changed"@,
        !changes_stored_data(m) ==> events_of(m).len() == 0,
        (m == RpcMethod::RecipesDelete || m == RpcMethod::BooksDelete || m == RpcMethod::HaccpDelete
            || m == RpcMethod::TriesDelete) ==> events_of(m) == seq![
            (collection_of(m) + ".changed"@, Some("deleted"@)),
        ],
{
    reveal_strlit(".changed");
    match m {
        RpcMethod::RecipesList => {},
        RpcMethod::RecipesGet => {},
        RpcMethod::RecipesCreate => {
            reveal_strlit("recipes.changed");
            reveal_strlit("recipes");
            assert("recipes.changed"@ =~= "recipes"@ + ".changed"@);
        },
        RpcMethod::RecipesSave => {
            reveal_strlit("recipes.changed");
            reveal_strlit("recipes");
            assert("recipes.changed"@ =~= "recipes"@ + ".changed"@);
        },
        RpcMethod::RecipesDelete => {
            reveal_strlit("recipes.changed");
            reveal_strlit("recipes");
            assert("recipes.changed"@ =~= "recipes"@ + ".changed"@);
        },
        RpcMethod::BooksList => {},
        RpcMethod::BooksCreate => {
            reveal_strlit("books.changed");
            reveal_strlit("books");
            assert("books.changed"@ =~= "books"@ + ".changed"@);
        },
        RpcMethod::BooksUpdate => {
            reveal_strlit("books.changed");
            reveal_strlit("books");
            assert("books.changed"@ =~= "books"@ + ".changed"@);
        },
        RpcMethod::BooksDelete => {
            reveal_strlit("books.changed");
            reveal_strlit("books");
            assert("books.changed"@ =~= "books"@ + ".changed"@);
        },
        RpcMethod::RecipesMove => {
            reveal_strlit("recipes.changed");
            reveal_strlit("recipes");
            assert("recipes.changed"@ =~= "recipes"@ + ".changed"@);
        },
        RpcMethod::RecipesExport => {},
        RpcMethod::ImportSettingsGet => {},
        RpcMethod::ImportSettingsUpdate => {},
        RpcMethod::ImportsTranslate => {},
        RpcMethod::RecipesSchedule => {},
        RpcMethod::RecipesValidate => {},
        RpcMethod::FormulasCalculate => {},
        RpcMethod::FormulasPercentages => {},
        RpcMethod::FormulasSave => {
            reveal_strlit("formulas.changed");
            reveal_strlit("formulas");
            assert("formulas.changed"@ =~= "formulas"@ + ".changed"@);
        },
        RpcMethod::FormulasList => {},
        RpcMethod::FormulasGet => {},
        RpcMethod::HaccpList => {},
        RpcMethod::HaccpGet => {},
        RpcMethod::HaccpCreate => {
            reveal_strlit("haccp.changed");
            reveal_strlit("haccp");
            assert("haccp.changed"@ =~= "haccp"@ + ".changed"@);
        },
        RpcMethod::HaccpSave => {
            reveal_strlit("haccp.changed");
            reveal_strlit("haccp");
            assert("haccp.changed"@ =~= "haccp"@ + ".changed"@);
        },
        RpcMethod::HaccpDelete => {
            reveal_strlit("haccp.changed");
            reveal_strlit("haccp");
            assert("haccp.changed"@ =~= "haccp"@ + ".changed"@);
        },
        RpcMethod::HaccpRecord => {
            reveal_strlit("haccp.changed");
            reveal_strlit("haccp");
            assert("haccp.changed"@ =~= "haccp"@ + ".changed"@);
        },
        RpcMethod::TriesList => {},
        RpcMethod::TriesGet => {},
        RpcMethod::TriesStart => {
            reveal_strlit("tries.changed");
            reveal_strlit("tries");
            assert("tries.changed"@ =~= "tries"@ + ".changed"@);
        },
        RpcMethod::TriesUpdate => {
            reveal_strlit("tries.changed");
            reveal_strlit("tries");
            assert("tries.changed"@ =~= "tries"@ + ".changed"@);
        },
        RpcMethod::TriesUpdateOperation => {
            reveal_strlit("tries.changed");
            reveal_strlit("tries");
            assert("tries.changed"@ =~= "tries"@ + ".changed"@);
        },
        RpcMethod::TriesObserve => {
            reveal_strlit("tries.changed");
            reveal_strlit("tries");
            assert("tries.changed"@ =~= "tries"@ + ".changed"@);
        },
        RpcMethod::TriesDelete => {
            reveal_strlit("tries.changed");
            reveal_strlit("tries");
            assert("tries.changed"@ =~= "tries"@ + ".changed"@);
        },
        RpcMethod::NutritionStatus => {},
        RpcMethod::NutritionSearch => {},
        RpcMethod::NutritionListLinks => {},
        RpcMethod::NutritionLink => {
            reveal_strlit("nutrition.changed");
            reveal_strlit("nutrition");
            assert("nutrition.changed"@ =~= "nutrition"@ + ".changed"@);
        },
        RpcMethod::NutritionUnlink => {
            reveal_strlit("nutrition.changed");
            reveal_strlit("nutrition");
            assert("nutrition.changed"@ =~= "nutrition"@ + ".changed"@);
        },
        RpcMethod::NutritionCalculate => {},
        RpcMethod::ServicePing => {},
    }
}

} // verus!
