use culinator::nutrition::{needs_full_catalog, BuildReport, DEFAULT_FULL_DOWNLOAD_URL};
use culinator::model::{LaborMode, Operation, Recipe, Resource, ResourceKind};
use culinator::storage::{extract_index_fields, format_match_query, slug, slug_scan, SqliteCatalogRepository};

fn resource(symbol: &str, kind: ResourceKind, allergen: Option<&str>) -> Resource {
    Resource { symbol: symbol.into(), kind, allergen: allergen.map(|a| a.to_string()) }
}

fn step(labor: Option<LaborMode>, min: Option<u64>, max: Option<u64>, technique: Option<&str>) -> Operation {
    Operation {
        symbol: "s".into(),
        action: "Mix".into(),
        process: "p".into(),
        labor,
        duration_min_seconds: min,
        duration_max_seconds: max,
        repeat: None,
        dependencies: vec![],
        bindings: vec![],
        technique: technique.map(|t| t.to_string()),
        span: None,
        target_temperature: None,
        heat_level: None,
        doneness: vec![],
        properties: vec![],
        notes: vec![],
    }
}

fn indexed_recipe(resources: Vec<Resource>, operations: Vec<Operation>) -> Recipe {
    Recipe {
        id: "id".into(),
        book_id: None,
        symbol: "bread".into(),
        title: "Country bread".into(),
        protocol_version: "0.3".into(),
        types: vec![],
        resources,
        processes: vec![],
        operations,
        servings: vec![],
        formulas: vec![],
        section: Some("Breads".into()),
        notes: None,
    }
}

#[test]
fn default_url_is_https() {
    assert!(DEFAULT_FULL_DOWNLOAD_URL.starts_with("https://"));
}

#[test]
fn release_url_targets_full_csv_archive() {
    assert!(DEFAULT_FULL_DOWNLOAD_URL.contains("FoodData_Central_csv"));
}

#[test]
fn full_catalog_is_needed_until_an_import_completes() {
    assert!(needs_full_catalog(None, None));
    assert!(needs_full_catalog(Some("starter"), Some("true")));
    assert!(needs_full_catalog(Some("2026-04"), None));
    assert!(needs_full_catalog(Some("2026-04"), Some("false")));
    assert!(!needs_full_catalog(Some("2026-04"), Some("true")));
}

#[test]
fn build_report_starts_empty() {
    let report = BuildReport::default();
    assert_eq!(report, BuildReport { foods: 0, nutrients: 0, food_nutrients: 0 });
}

#[test]
fn slugs_keep_ascii_words_joined_by_underscores() {
    assert_eq!(slug("My Favorite Recipes"), "my_favorite_recipes");
    assert_eq!(slug("  --Weeknight  Dinners!! "), "weeknight_dinners");
    assert_eq!(slug("Café au lait"), "caf_au_lait");
    assert_eq!(slug("!!!"), "");
    assert_eq!(slug("A1-B2"), "a1_b2");
}

#[test]
fn match_queries_quote_every_word() {
    assert_eq!(format_match_query("garlic bread"), "\"garlic\" AND \"bread\"");
    assert_eq!(format_match_query("  say \"cheese\" "), "\"say\" AND \"cheese\"");
    assert_eq!(format_match_query(""), "");
    assert_eq!(format_match_query("\""), "\"\"");
}

#[test]
fn repository_remembers_its_path() {
    let repository = SqliteCatalogRepository::new("/tmp/catalog.sqlite3");
    assert_eq!(repository.path(), "/tmp/catalog.sqlite3");
}

#[test]
fn index_fields_gather_ingredients_techniques_and_sorted_allergens() {
    let recipe = indexed_recipe(
        vec![
            resource("flour", ResourceKind::Ingredient, Some("wheat")),
            resource("oven", ResourceKind::Equipment, None),
            resource("levain", ResourceKind::Intermediate, Some("wheat")),
            resource("parchment", ResourceKind::Material, None),
            resource("butter", ResourceKind::Ingredient, Some("dairy")),
        ],
        vec![
            step(Some(LaborMode::Active), Some(60), Some(120), Some("knead")),
            step(Some(LaborMode::Passive), Some(3600), None, None),
            step(Some(LaborMode::Active), Some(30), None, Some("shape")),
            step(None, Some(600), None, None),
        ],
    );
    let fields = extract_index_fields(&recipe);
    assert_eq!(fields.title, "Country bread");
    assert_eq!(fields.ingredients, "flour levain parchment butter");
    assert_eq!(fields.techniques, "knead shape");
    assert_eq!(fields.section, "Breads");
    assert_eq!(fields.notes, "");
    assert_eq!(fields.allergens, vec!["dairy".to_string(), "wheat".to_string()]);
    assert_eq!(fields.active_seconds, Some(150));
}

#[test]
fn index_fields_without_active_time_or_allergens() {
    let recipe = indexed_recipe(vec![resource("pan", ResourceKind::Container, None)], vec![
        step(Some(LaborMode::Passive), Some(60), None, None),
    ]);
    let fields = extract_index_fields(&recipe);
    assert_eq!(fields.ingredients, "");
    assert_eq!(fields.techniques, "");
    assert!(fields.allergens.is_empty());
    assert_eq!(fields.active_seconds, None);
}

#[test]
fn slug_scan_keeps_case_and_collapses_other_runs() {
    assert_eq!(slug_scan("Bread & Butter"), "Bread_Butter");
    assert_eq!(slug_scan("__a--b__"), "a_b");
    assert_eq!(slug_scan("!!!"), "");
    assert_eq!(slug_scan(""), "");
}
