use culinator::model::{
    BindingRole, Dependency, DependencyKind, DonenessCue, DonenessKind, HeatLevel, LaborMode, Operation,
    Property, Quantity, ResourceBinding, SourceSpan,
};
use culinator::ui::model::{ui_operation, UiRange};
use culinator::ui::offsets::Utf16Offsets;
use culinator::ui::outline::project;

#[test]
fn ascii_offsets_are_unchanged() {
    let map = Utf16Offsets::new("hello");
    assert_eq!(map.at(0), 0);
    assert_eq!(map.at(5), 5);
}

#[test]
fn multibyte_characters_shift_later_offsets() {
    let source = "a—b";
    assert_eq!(source.len(), 5);
    let map = Utf16Offsets::new(source);
    assert_eq!(map.at(0), 0);
    assert_eq!(map.at(1), 1);
    assert_eq!(map.at(4), 2, "byte 4 is 'b', UTF-16 index 2");
    assert_eq!(map.at(5), 3);
    let utf16: Vec<u16> = source.encode_utf16().collect();
    assert_eq!(String::from_utf16(&utf16[map.at(4)..map.at(5)]).unwrap(), "b");
}

#[test]
fn astral_characters_count_as_two_units() {
    let map = Utf16Offsets::new("🥕x");
    assert_eq!(map.at(4), 2);
    assert_eq!(map.at(5), 3);
}

#[test]
fn out_of_range_offsets_clamp() {
    let map = Utf16Offsets::new("abc");
    assert_eq!(map.at(99), 3);
}

#[test]
fn offsets_inside_a_character_map_to_its_start() {
    let map = Utf16Offsets::new("a—b");
    assert_eq!(map.at(2), 1);
    assert_eq!(map.at(3), 1);
    let map = Utf16Offsets::new("");
    assert_eq!(map.at(0), 0);
    assert_eq!(map.at(7), 0);
}

#[test]
fn ui_range_converts_both_ends() {
    let map = Utf16Offsets::new("é—x");
    let range = UiRange::new(&SourceSpan { start: 2, end: 6 }, &map);
    assert_eq!(range, UiRange { start: 1, end: 3 });
}

#[test]
fn unwalkable_source_reports_parsed_false() {
    let outline = project("culinator 0.3;\nrecipe demo {\n  title \"D\";\n");
    assert!(!outline.parsed);
    assert!(outline.nodes.is_empty());
}

#[test]
fn projected_outline_uses_utf16_offsets() {
    let source = "// café\nrecipe demo {\n    title \"D\";\n    ingredient salt measured by mass { }\n}\n";
    let outline = project(source);
    assert!(outline.parsed);
    assert_eq!(outline.source_len, source.encode_utf16().count());
    let recipe = &outline.nodes[0];
    assert_eq!(recipe.keyword, "recipe");
    assert_eq!(recipe.form, "declaration");
    assert_eq!(recipe.symbol.as_deref(), Some("demo"));
    assert_eq!(recipe.range.start, 0);
    let code_start = source.find("recipe").unwrap();
    assert_eq!(recipe.code_range.start, code_start - 1);
    let title = &recipe.children[0];
    assert_eq!(title.form, "statement");
    assert!(title.block_inner_range.is_none());
    assert!(title.symbol.is_none());
    let units: Vec<u16> = source.encode_utf16().collect();
    let text = String::from_utf16(&units[title.code_range.start..title.code_range.end]).unwrap();
    assert_eq!(text, "title \"D\";");
}

fn bind(resource: &str, role: BindingRole) -> ResourceBinding {
    ResourceBinding { resource: resource.into(), role, exclusive: false, quantity: None }
}

#[test]
fn editor_operation_sorts_bindings_by_role() {
    let source = "é operation knead_dough { }";
    let op = Operation {
        symbol: "knead_dough".into(),
        action: "KNEAD".into(),
        process: "dough".into(),
        labor: Some(LaborMode::Active),
        duration_min_seconds: Some(300),
        duration_max_seconds: Some(600),
        repeat: Some(2),
        dependencies: vec![Dependency {
            predecessor: "mix".into(),
            kind: DependencyKind::FinishStart,
            minimum_lag_seconds: None,
            maximum_lag_seconds: None,
            optional: false,
        }],
        bindings: vec![
            ResourceBinding {
                resource: "flour".into(),
                role: BindingRole::Input,
                exclusive: false,
                quantity: Some(Quantity { amount: "500".into(), unit: "g".into() }),
            },
            bind("bowl", BindingRole::Container),
            bind("dough", BindingRole::Output),
            bind("water", BindingRole::Input),
            bind("scraper", BindingRole::Tool),
            bind("scraps", BindingRole::Output),
            bind("cook", BindingRole::Labor),
        ],
        technique: None,
        span: Some(SourceSpan { start: 3, end: 28 }),
        target_temperature: Some(Quantity { amount: "24".into(), unit: "C".into() }),
        heat_level: Some(HeatLevel::MediumHigh),
        doneness: vec![
            DonenessCue { kind: DonenessKind::InternalTemp, value: Some("74 C".into()) },
            DonenessCue { kind: DonenessKind::Visual, value: None },
        ],
        properties: vec![
            Property { key: "tags".into(), text: None },
            Property { key: "photo".into(), text: Some("knead.jpg".into()) },
        ],
        notes: vec!["rest if sticky".into()],
    };
    let offsets = Utf16Offsets::new(source);
    let ui = ui_operation(&op, &offsets);
    assert_eq!(ui.symbol, "knead_dough");
    assert_eq!(ui.action, "knead");
    assert_eq!(ui.process, "dough");
    assert_eq!(ui.duration_seconds, 300);
    assert_eq!(ui.duration_max_seconds, Some(600));
    assert_eq!(ui.labor, "active");
    assert_eq!(ui.after, vec!["mix".to_string()]);
    assert_eq!(ui.inputs, vec!["flour".to_string(), "water".to_string()]);
    assert_eq!(ui.equipment, vec!["bowl".to_string(), "scraper".to_string()]);
    assert_eq!(ui.produces, Some("dough".to_string()));
    assert_eq!(ui.repeat, Some(2));
    assert_eq!(ui.range, Some(UiRange { start: 2, end: 27 }));
    assert_eq!(ui.input_bindings.len(), 2);
    assert_eq!(ui.input_bindings[0].symbol, "flour");
    assert_eq!(ui.input_bindings[0].quantity.as_deref(), Some("500 g"));
    assert_eq!(ui.input_bindings[1].symbol, "water");
    assert_eq!(ui.input_bindings[1].quantity, None);
    assert_eq!(ui.target_temperature.as_deref(), Some("24 C"));
    assert_eq!(ui.heat_level.as_deref(), Some("medium_high"));
    let cues = ui.doneness.unwrap();
    assert_eq!((cues[0].kind.as_str(), cues[0].value.as_str()), ("internal_temp", "74 C"));
    assert_eq!((cues[1].kind.as_str(), cues[1].value.as_str()), ("visual", ""));
    assert_eq!(ui.photo.as_deref(), Some("knead.jpg"));
    assert_eq!(ui.notes, Some(vec!["rest if sticky".to_string()]));
}

#[test]
fn editor_operation_without_durations_or_labor() {
    let op = Operation {
        symbol: "rest".into(),
        action: "Rest".into(),
        process: "root".into(),
        labor: None,
        duration_min_seconds: None,
        duration_max_seconds: None,
        repeat: None,
        dependencies: vec![],
        bindings: vec![],
        technique: None,
        span: None,
        target_temperature: None,
        heat_level: None,
        doneness: vec![],
        properties: vec![],
        notes: vec![],
    };
    let ui = ui_operation(&op, &Utf16Offsets::new("x"));
    assert_eq!(ui.action, "rest");
    assert_eq!(ui.duration_seconds, 0);
    assert_eq!(ui.duration_max_seconds, None);
    assert_eq!(ui.labor, "unspecified");
    assert!(ui.after.is_empty() && ui.inputs.is_empty() && ui.equipment.is_empty());
    assert_eq!(ui.produces, None);
    assert_eq!(ui.range, None);
    assert!(ui.input_bindings.is_empty());
    assert!(ui.target_temperature.is_none() && ui.heat_level.is_none() && ui.photo.is_none());
    assert!(ui.doneness.is_none() && ui.notes.is_none());
}
