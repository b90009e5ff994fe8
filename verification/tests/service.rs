use culinator::application::models::{DiagnosticSeverity, SourceDiagnostic};
use culinator::service::access::{constant_time_eq, handshake, Handshake};
use culinator::service::models::{diagnostic_from, ImportSettings, UpdateImportSettingsRequest};
use culinator::service::options::{parse_port, Options};
use culinator::service::rpc::{decide, failure_code, plan, settle, RpcPlan, missing_parameter_message, rpc_method, unknown_method_message, RpcMethod};

fn args(items: &[&str]) -> Vec<String> {
    items.iter().map(|s| (*s).to_owned()).collect()
}

#[test]
fn options_default_and_read_each_flag() {
    let o = Options::parse(&args(&[])).unwrap();
    assert_eq!(o.database, "culinator-dev.sqlite3");
    assert_eq!(o.port, 0);
    assert!(o.token.is_none() && o.origins.is_empty() && !o.allow_missing_origin);

    let o = Options::parse(&args(&[
        "--db", "x.sqlite3", "--port", "8080", "--token", "t", "--origin", "a", "--origin", "b",
        "--allow-missing-origin",
    ]))
    .unwrap();
    assert_eq!(o.database, "x.sqlite3");
    assert_eq!(o.port, 8080);
    assert_eq!(o.token.as_deref(), Some("t"));
    assert_eq!(o.origins, vec!["a".to_owned(), "b".to_owned()]);
    assert!(o.allow_missing_origin);
}

#[test]
fn options_report_each_error() {
    assert_eq!(Options::parse(&args(&["--db"])).err().unwrap(), "--db requires a value");
    assert_eq!(Options::parse(&args(&["--port", "70000"])).err().unwrap(), "--port must be a valid u16");
    assert_eq!(Options::parse(&args(&["--port"])).err().unwrap(), "--port requires a value");
    assert_eq!(Options::parse(&args(&["--bogus"])).err().unwrap(), "unknown argument: --bogus");
    assert!(Options::parse(&args(&["-h"])).err().unwrap().starts_with("usage: culinator-service"));
}

#[test]
fn ports_parse_like_the_standard_library() {
    assert_eq!(parse_port("0"), Some(0));
    assert_eq!(parse_port("+65535"), Some(65535));
    assert_eq!(parse_port("65536"), None);
    assert_eq!(parse_port("-1"), None);
    assert_eq!(parse_port("+"), None);
    assert_eq!(parse_port(""), None);
    assert_eq!(parse_port("12a"), None);
    assert_eq!(parse_port("007"), Some(7));
    for text in ["1", "80", "443", "65535", "99999999"] {
        assert_eq!(parse_port(text), text.parse::<u16>().ok());
    }
}

#[test]
fn tokens_compare_by_content() {
    assert!(constant_time_eq("secret", "secret"));
    assert!(!constant_time_eq("secret", "secreT"));
    assert!(!constant_time_eq("secret", "secrets"));
    assert!(constant_time_eq("", ""));
}

#[test]
fn diagnostics_name_their_severity() {
    let d = diagnostic_from(SourceDiagnostic {
        code: "CG1001".into(),
        severity: DiagnosticSeverity::Warning,
        message: "m".into(),
        start: Some(1),
        end: Some(2),
    });
    assert_eq!(d.severity, "warning");
    assert_eq!(d.message, "m");
    assert_eq!((d.start, d.end), (Some(1), Some(2)));
}

#[test]
fn blank_api_keys_do_not_replace_the_stored_one() {
    let existing = ImportSettings {
        openai_api_key: "sk-old".into(),
        openai_model: "m1".into(),
        use_local_ocr: false,
        tesseract_command: "tesseract".into(),
    };
    let request = UpdateImportSettingsRequest {
        openai_api_key: Some("  ".into()),
        openai_model: "m2".into(),
        use_local_ocr: true,
        tesseract_command: "tess".into(),
    };
    let merged = request.merge(existing.clone());
    assert_eq!(merged.openai_api_key, "sk-old");
    assert_eq!(merged.openai_model, "m2");
    assert!(merged.use_local_ocr);
    let request = UpdateImportSettingsRequest {
        openai_api_key: Some("sk-new".into()),
        openai_model: "m2".into(),
        use_local_ocr: false,
        tesseract_command: "tess".into(),
    };
    assert_eq!(request.merge(existing).openai_api_key, "sk-new");
}

#[test]
fn handshake_requires_an_allowed_origin() {
    let h = handshake(false, Some("culinator.v1, culinator.auth.abc"), "abc");
    assert_eq!(h, Handshake::OriginRefused);
    assert_eq!(h.status(), 403);
    assert_eq!(h.message(), "Origin is not allowed");
}

#[test]
fn handshake_requires_offered_protocols() {
    let h = handshake(true, None, "abc");
    assert_eq!(h, Handshake::MissingProtocols);
    assert_eq!(h.status(), 401);
    assert_eq!(h.message(), "Missing WebSocket protocol authentication");
}

#[test]
fn handshake_accepts_the_protocol_and_the_launch_token() {
    assert_eq!(handshake(true, Some("culinator.v1, culinator.auth.abc"), "abc"), Handshake::Accept);
    assert_eq!(handshake(true, Some(" culinator.auth.abc ,culinator.v1 "), "abc"), Handshake::Accept);
    assert_eq!(handshake(true, Some("x,,culinator.v1,\tculinator.auth.s3cr3t"), "s3cr3t"), Handshake::Accept);
    assert_eq!(Handshake::Accept.status(), 101);
}

#[test]
fn handshake_refuses_a_wrong_or_missing_token() {
    assert_eq!(handshake(true, Some("culinator.v1, culinator.auth.abd"), "abc"), Handshake::InvalidToken);
    assert_eq!(handshake(true, Some("culinator.v1"), "abc"), Handshake::InvalidToken);
    assert_eq!(handshake(true, Some("culinator.auth.abc"), "abc"), Handshake::InvalidToken);
    assert_eq!(handshake(true, Some("culinator.v1 culinator.auth.abc"), "abc"), Handshake::InvalidToken);
    assert_eq!(handshake(true, Some(""), ""), Handshake::InvalidToken);
    assert_eq!(handshake(true, Some("culinator.v1,culinator.auth."), ""), Handshake::Accept);
    assert_eq!(Handshake::InvalidToken.message(), "Invalid launch token");
}

#[test]
fn every_rpc_method_is_called_by_its_own_name() {
    let all = [RpcMethod::RecipesList, RpcMethod::RecipesGet, RpcMethod::RecipesCreate, RpcMethod::RecipesSave, RpcMethod::RecipesDelete, RpcMethod::BooksList, RpcMethod::BooksCreate, RpcMethod::BooksUpdate, RpcMethod::BooksDelete, RpcMethod::RecipesMove, RpcMethod::RecipesExport, RpcMethod::ImportSettingsGet, RpcMethod::ImportSettingsUpdate, RpcMethod::ImportsTranslate, RpcMethod::RecipesSchedule, RpcMethod::RecipesValidate, RpcMethod::FormulasCalculate, RpcMethod::FormulasPercentages, RpcMethod::FormulasSave, RpcMethod::FormulasList, RpcMethod::FormulasGet, RpcMethod::HaccpList, RpcMethod::HaccpGet, RpcMethod::HaccpCreate, RpcMethod::HaccpSave, RpcMethod::HaccpDelete, RpcMethod::HaccpRecord, RpcMethod::TriesList, RpcMethod::TriesGet, RpcMethod::TriesStart, RpcMethod::TriesUpdate, RpcMethod::TriesUpdateOperation, RpcMethod::TriesObserve, RpcMethod::TriesDelete, RpcMethod::NutritionStatus, RpcMethod::NutritionSearch, RpcMethod::NutritionListLinks, RpcMethod::NutritionLink, RpcMethod::NutritionUnlink, RpcMethod::NutritionCalculate, RpcMethod::ServicePing];
    for m in all {
        assert_eq!(rpc_method(m.name()), Some(m));
    }
    assert_eq!(all.len(), 41);
}

#[test]
fn unknown_rpc_methods_are_refused_by_name() {
    assert_eq!(rpc_method("recipes.frobnicate"), None);
    assert_eq!(rpc_method("Recipes.list"), None);
    assert_eq!(rpc_method(""), None);
    assert_eq!(unknown_method_message("recipes.frobnicate"), "Unknown RPC method: recipes.frobnicate");
    assert_eq!(missing_parameter_message("sourceText"), "Missing sourceText");
}

#[test]
fn rpc_methods_ask_for_their_parameters_in_order() {
    assert_eq!(rpc_method("recipes.save").unwrap().required_keys(), vec!["id", "sourceText"]);
    assert_eq!(rpc_method("formulas.calculate").unwrap().required_keys(), vec!["formula", "targetMassGrams"]);
    assert_eq!(rpc_method("nutrition.unlink").unwrap().required_keys(), vec!["recipeId", "resourceSymbol"]);
    assert!(rpc_method("recipes.list").unwrap().required_keys().is_empty());
    assert!(rpc_method("imports.settings.update").unwrap().required_keys().is_empty());
}

#[test]
fn mutating_rpc_calls_publish_change_events() {
    assert_eq!(
        RpcMethod::RecipesMove.change_events(),
        vec![("recipes.changed", Some("moved")), ("books.changed", Some("membership"))]
    );
    assert_eq!(RpcMethod::HaccpRecord.change_events(), vec![("haccp.changed", Some("recorded"))]);
    assert_eq!(RpcMethod::FormulasSave.change_events(), vec![("formulas.changed", None)]);
    assert!(RpcMethod::RecipesGet.change_events().is_empty());
    assert!(RpcMethod::ServicePing.change_events().is_empty());
}

#[test]
fn rpc_calls_are_decided_by_method_then_parameters() {
    let keys = |items: &[&str]| items.iter().map(|s| (*s).to_owned()).collect::<Vec<String>>();
    assert_eq!(decide("recipes.save", &keys(&["id", "sourceText"])), Ok(RpcMethod::RecipesSave));
    assert_eq!(decide("recipes.save", &keys(&["sourceText"])), Err("Missing id".to_owned()));
    assert_eq!(decide("recipes.save", &keys(&["id"])), Err("Missing sourceText".to_owned()));
    assert_eq!(decide("recipes.save", &keys(&[])), Err("Missing id".to_owned()));
    assert_eq!(decide("recipes.list", &keys(&[])), Ok(RpcMethod::RecipesList));
    assert_eq!(decide("nope", &keys(&["id"])), Err("Unknown RPC method: nope".to_owned()));
}

#[test]
fn pings_are_answered_without_a_route() {
    assert_eq!(plan("service.ping", &vec![]), RpcPlan::Status("ok"));
    assert_eq!(plan("no.such", &vec![]), RpcPlan::Refuse("Unknown RPC method: no.such".to_owned()));
    assert_eq!(plan("haccp.record", &vec![]), RpcPlan::Refuse("Missing ccpId".to_owned()));
    assert_eq!(plan("haccp.record", &vec!["ccpId".to_owned()]), RpcPlan::Run(RpcMethod::HaccpRecord));
}

#[test]
fn failed_routes_answer_their_error_and_publish_nothing() {
    let failed = settle(RpcMethod::RecipesMove, Some("recipe not found".to_owned()));
    assert_eq!(failed.reply, Err("recipe not found".to_owned()));
    assert!(failed.events.is_empty());
    let done = settle(RpcMethod::RecipesMove, None);
    assert_eq!(done.reply, Ok(()));
    assert_eq!(done.events, vec![("recipes.changed", Some("moved")), ("books.changed", Some("membership"))]);
    assert!(settle(RpcMethod::RecipesGet, None).events.is_empty());
    assert_eq!(failure_code(), "operation_failed");
}
