use culinator::model::{BindingRole, Operation, Recipe, Resource, ResourceBinding, ResourceKind};
use culinator::semantic::{lex, register_intermediates, ParseError, Token};
use culinator::syntax::lexer::SyntaxError;

fn ident(s: &str) -> Token {
    Token::Ident(s.to_string())
}

#[test]
fn lexes_declarations_into_tokens() {
    let tokens = lex("recipe bread {\n  title \"Bread\";\n  type T<A> = x.y, z;\n}\n").unwrap();
    assert_eq!(
        tokens,
        vec![
            ident("recipe"),
            ident("bread"),
            Token::LBrace,
            ident("title"),
            Token::String("Bread".to_string()),
            Token::Semi,
            ident("type"),
            ident("T"),
            Token::Lt,
            ident("A"),
            Token::Gt,
            Token::Eq,
            ident("x"),
            Token::Dot,
            ident("y"),
            Token::Comma,
            ident("z"),
            Token::Semi,
            Token::RBrace,
        ]
    );
}

#[test]
fn numbers_keep_their_text_and_percent_marks() {
    let tokens = lex("25 min 3.5 -2 70% 1. [0_x]").unwrap();
    assert_eq!(
        tokens,
        vec![
            Token::Number("25".to_string()),
            ident("min"),
            Token::Number("3.5".to_string()),
            Token::Number("-2".to_string()),
            Token::Percent("70".to_string()),
            Token::Number("1.".to_string()),
            Token::LBracket,
            Token::Number("0".to_string()),
            ident("_x"),
            Token::RBracket,
        ]
    );
    for text in ["25", "3.5", "-2", "70", "1.", "0"] {
        assert!(text.parse::<f64>().is_ok());
    }
}

#[test]
fn comments_and_white_space_are_skipped() {
    let tokens = lex("a // to the end\n b /* inside\n */ c\t\r\n").unwrap();
    assert_eq!(tokens, vec![ident("a"), ident("b"), ident("c")]);
    assert_eq!(lex("").unwrap(), vec![]);
    assert_eq!(lex("// only a comment").unwrap(), vec![]);
}

#[test]
fn strings_keep_escapes_as_written() {
    let tokens = lex("\"a\\\"b\" \"café\"").unwrap();
    assert_eq!(tokens, vec![Token::String("a\\\"b".to_string()), Token::String("café".to_string())]);
}

#[test]
fn lexing_errors_name_the_byte() {
    assert_eq!(lex("x \"abc"), Err(ParseError::Lex(3, "unterminated string".to_string())));
    assert_eq!(lex("x /* abc"), Err(ParseError::Lex(2, "unterminated block comment".to_string())));
    assert_eq!(lex("1.2.3"), Err(ParseError::Lex(0, "invalid number".to_string())));
    assert_eq!(lex("a -"), Err(ParseError::Lex(2, "invalid number".to_string())));
    assert_eq!(lex("a -.;"), Err(ParseError::Lex(2, "invalid number".to_string())));
    assert_eq!(lex("a @ b"), Err(ParseError::Lex(2, "unexpected character `@`".to_string())));
    assert_eq!(lex("a / b"), Err(ParseError::Lex(2, "unexpected character `/`".to_string())));
    assert_eq!(lex("é"), Err(ParseError::Lex(0, "unexpected character `\u{c3}`".to_string())));
}

#[test]
fn parse_errors_describe_themselves() {
    assert_eq!(ParseError::Lex(4, "invalid number".into()).message(), "lex error at byte 4: invalid number");
    assert_eq!(ParseError::Syntax(2, "expected `;`".into()).message(), "parse error near token 2: expected `;`");
    assert_eq!(ParseError::Lossless("bad".into()).message(), "syntax error: bad");
    let e = ParseError::from_syntax(&SyntaxError::UnterminatedString(7));
    assert_eq!(e.message(), "syntax error: unterminated string at byte 7");
}

fn binding(resource: &str, role: BindingRole) -> ResourceBinding {
    ResourceBinding { resource: resource.into(), role, exclusive: false, quantity: None }
}

fn producing(symbol: &str, bindings: Vec<ResourceBinding>) -> Operation {
    Operation {
        symbol: symbol.into(),
        action: "Mix".into(),
        process: "p".into(),
        labor: None,
        duration_min_seconds: None,
        duration_max_seconds: None,
        repeat: None,
        dependencies: vec![],
        bindings,
        technique: None,
        span: None,
        target_temperature: None,
        heat_level: None,
        doneness: vec![],
        properties: vec![],
        notes: vec![],
    }
}

#[test]
fn produced_resources_without_a_declaration_become_intermediates() {
    let mut recipe = Recipe {
        id: "id".into(),
        book_id: None,
        symbol: "bread".into(),
        title: "Bread".into(),
        protocol_version: "0.3".into(),
        types: vec![],
        resources: vec![Resource { symbol: "flour".into(), kind: ResourceKind::Ingredient, allergen: None }],
        processes: vec![],
        operations: vec![
            producing("mix", vec![binding("flour", BindingRole::Input), binding("dough", BindingRole::Output)]),
            producing(
                "knead",
                vec![
                    binding("dough", BindingRole::Input),
                    binding("dough", BindingRole::Output),
                    binding("flour", BindingRole::Output),
                    binding("bowl", BindingRole::Container),
                ],
            ),
            producing("glaze", vec![binding("glaze", BindingRole::Output)]),
        ],
        servings: vec![],
        formulas: vec![],
        section: None,
        notes: None,
    };
    register_intermediates(&mut recipe);
    let symbols: Vec<&str> = recipe.resources.iter().map(|r| r.symbol.as_str()).collect();
    assert_eq!(symbols, vec!["flour", "dough", "glaze"]);
    assert_eq!(recipe.resources[0].kind, ResourceKind::Ingredient);
    assert_eq!(recipe.resources[1].kind, ResourceKind::Intermediate);
    assert_eq!(recipe.resources[2].kind, ResourceKind::Intermediate);
    register_intermediates(&mut recipe);
    assert_eq!(recipe.resources.len(), 3);
}
