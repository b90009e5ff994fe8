use culinator::model::{
    BindingRole, Dependency, DependencyKind, LaborMode, Operation, Recipe, Resource, ResourceBinding,
    ResourceKind,
};
use culinator::schedule::plan::{schedule_recipe, CriticalPathScheduler, ScheduleOptions};
use culinator::validate::{validate, CulinatorValidator};
use culinator::application::models::DiagnosticSeverity;

fn op(symbol: &str, minutes: u64) -> Operation {
    Operation {
        symbol: symbol.into(),
        action: "Operation".into(),
        process: "p".into(),
        labor: None,
        duration_min_seconds: None,
        duration_max_seconds: Some(minutes * 60),
        repeat: None,
        dependencies: vec![],
        bindings: vec![],
        technique: None,
        span: None,
        target_temperature: None,
        heat_level: None,
        doneness: vec![],
        properties: vec![],
        notes: vec![],
    }
}

fn after(predecessor: &str) -> Dependency {
    Dependency {
        predecessor: predecessor.into(),
        kind: DependencyKind::FinishStart,
        minimum_lag_seconds: None,
        maximum_lag_seconds: None,
        optional: false,
    }
}

fn uses(resource: &str, role: BindingRole) -> ResourceBinding {
    ResourceBinding { resource: resource.into(), role, exclusive: false, quantity: None }
}

fn recipe(resources: Vec<Resource>, operations: Vec<Operation>) -> Recipe {
    Recipe {
        id: "id".into(),
        book_id: None,
        symbol: "r".into(),
        title: "R".into(),
        protocol_version: "0.3".into(),
        types: vec![],
        resources,
        processes: vec![],
        operations,
        servings: vec![],
        formulas: vec![],
        section: None,
        notes: None,
    }
}

fn options() -> ScheduleOptions {
    ScheduleOptions { default_duration_seconds: 300 }
}

#[test]
fn accepts_empty_graph() {
    assert!(validate(&recipe(vec![], vec![])).is_empty());
}

#[test]
fn finds_unknown_dependency() {
    let mut b = op("b", 1);
    b.process = "p".into();
    b.dependencies = vec![after("missing")];
    let r = recipe(vec![], vec![b]);
    assert!(validate(&r).iter().any(|d| d.code == "CG1002"));
}

#[test]
fn validator_reports_unknown_resources_and_cycles() {
    let mut a = op("a", 1);
    a.bindings = vec![uses("flour", BindingRole::Input), uses("pan", BindingRole::Container)];
    a.dependencies = vec![after("b")];
    let mut b = op("b", 1);
    b.dependencies = vec![after("a")];
    let r = recipe(vec![Resource { symbol: "flour".into(), kind: ResourceKind::Ingredient, allergen: None }], vec![a, b]);
    let found = validate(&r);
    assert_eq!(found.len(), 2);
    assert_eq!(found[0].code, "CG1001");
    assert_eq!(found[0].message, "operation `a` references unknown resource `pan`");
    assert_eq!(found[1].code, "CG2001");
    assert!(found[1].message == "dependency cycle includes `a`" || found[1].message == "dependency cycle includes `b`");
    let as_source = CulinatorValidator.validate(&r);
    assert_eq!(as_source[0].severity, DiagnosticSeverity::Warning);
    assert_eq!(as_source[1].severity, DiagnosticSeverity::Error);
    assert!(as_source.iter().all(|d| d.start.is_none() && d.end.is_none()));
}

#[test]
fn operations_run_after_their_predecessors() {
    let a = op("a", 10);
    let mut b = op("b", 5);
    b.dependencies = vec![after("prep.a")];
    let mut c = op("c", 1);
    c.dependencies = vec![after("b")];
    let schedule = schedule_recipe(&recipe(vec![], vec![c, b, a]), &options()).unwrap();
    let symbols: Vec<&str> = schedule.operations.iter().map(|o| o.symbol.as_str()).collect();
    assert_eq!(symbols, vec!["a", "b", "c"]);
    assert_eq!(schedule.operations[1].start_seconds, 600);
    assert_eq!(schedule.operations[1].dependencies, vec!["a".to_owned()]);
    assert_eq!(schedule.makespan_seconds, 960);
    assert_eq!(schedule.critical_path, vec!["a".to_owned(), "b".to_owned(), "c".to_owned()]);
}

#[test]
fn shared_equipment_is_used_one_step_at_a_time() {
    let mut a = op("a", 10);
    a.bindings = vec![uses("oven", BindingRole::Equipment)];
    let mut b = op("b", 10);
    b.bindings = vec![uses("oven", BindingRole::Equipment)];
    let mut c = op("c", 10);
    c.bindings = vec![uses("flour", BindingRole::Input)];
    let schedule = CriticalPathScheduler.schedule(&recipe(vec![], vec![a, b, c]), &options()).unwrap();
    let by: Vec<(&str, u64, u64)> = schedule
        .operations
        .iter()
        .map(|o| (o.symbol.as_str(), o.start_seconds, o.end_seconds))
        .collect();
    assert_eq!(by, vec![("a", 0, 600), ("c", 0, 600), ("b", 600, 1200)]);
    assert_eq!(schedule.makespan_seconds, 1200);
    assert_eq!(schedule.critical_path, vec!["b".to_owned()]);
}

#[test]
fn durations_fall_back_and_repeat() {
    let mut a = op("a", 0);
    a.duration_max_seconds = None;
    a.repeat = Some(3);
    a.labor = Some(LaborMode::Active);
    let schedule = schedule_recipe(&recipe(vec![], vec![a]), &options()).unwrap();
    assert_eq!(schedule.operations[0].duration_seconds, 900);
    assert_eq!(schedule.operations[0].labor, Some(LaborMode::Active));
    let mut z = op("z", 0);
    z.duration_max_seconds = Some(0);
    let schedule = schedule_recipe(&recipe(vec![], vec![z]), &options()).unwrap();
    assert_eq!(schedule.operations[0].duration_seconds, 1);
}

#[test]
fn lags_and_dependency_kinds_shift_starts() {
    let a = op("a", 10);
    let mut b = op("b", 5);
    b.dependencies = vec![Dependency {
        predecessor: "a".into(),
        kind: DependencyKind::StartStart,
        minimum_lag_seconds: Some(120),
        maximum_lag_seconds: None,
        optional: false,
    }];
    let mut c = op("c", 5);
    c.dependencies = vec![Dependency {
        predecessor: "a".into(),
        kind: DependencyKind::FinishFinish,
        minimum_lag_seconds: None,
        maximum_lag_seconds: None,
        optional: false,
    }];
    let schedule = schedule_recipe(&recipe(vec![], vec![a, b, c]), &options()).unwrap();
    let starts: Vec<(&str, u64)> = schedule.operations.iter().map(|o| (o.symbol.as_str(), o.start_seconds)).collect();
    assert_eq!(starts, vec![("a", 0), ("b", 120), ("c", 300)]);
}

#[test]
fn optional_dependencies_do_not_block() {
    let mut a = op("a", 1);
    a.dependencies = vec![Dependency {
        predecessor: "nowhere".into(),
        kind: DependencyKind::FinishStart,
        minimum_lag_seconds: None,
        maximum_lag_seconds: None,
        optional: true,
    }];
    let schedule = schedule_recipe(&recipe(vec![], vec![a]), &options()).unwrap();
    assert_eq!(schedule.operations[0].start_seconds, 0);
}

#[test]
fn cycles_and_unknown_predecessors_are_refused() {
    let mut a = op("a", 1);
    a.dependencies = vec![after("b")];
    let mut b = op("b", 1);
    b.dependencies = vec![after("a")];
    let error = schedule_recipe(&recipe(vec![], vec![a, b]), &options()).err().unwrap();
    assert_eq!(
        error.message(),
        "Operation dependency graph contains a cycle or an unknown predecessor"
    );
    let mut c = op("c", 1);
    c.dependencies = vec![after("ghost")];
    assert!(schedule_recipe(&recipe(vec![], vec![c]), &options()).is_err());
}

#[test]
fn a_later_operation_of_the_same_symbol_replaces_the_earlier() {
    let first = op("a", 1);
    let second = op("a", 2);
    let schedule = schedule_recipe(&recipe(vec![], vec![first, second]), &options()).unwrap();
    assert_eq!(schedule.operations.len(), 1);
    assert_eq!(schedule.operations[0].end_seconds, 120);
}

#[test]
fn empty_recipe_has_an_empty_schedule() {
    let schedule = schedule_recipe(&recipe(vec![], vec![]), &options()).unwrap();
    assert!(schedule.operations.is_empty());
    assert_eq!(schedule.makespan_seconds, 0);
    assert!(schedule.critical_path.is_empty());
}
