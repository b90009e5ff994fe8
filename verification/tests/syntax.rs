use culinator::syntax::edit::{apply_text_edits, TextEdit};
use culinator::syntax::lexer::{lex_lossless, SyntaxError, SyntaxKind, TextRange};
use culinator::syntax::outline::{Outline, OutlineForm, OutlineNode};
use culinator::syntax::tree::LosslessDocument;

/// Every scope's nodes are contiguous, start where the scope starts, and
/// leave only trivia before their code and after the last of them.
fn assert_tiles(source: &str, nodes: &[OutlineNode], scope: TextRange, label: &str) {
    let mut cursor = scope.start;
    for node in nodes {
        assert_eq!(node.range.start, cursor, "{label}: gap or overlap before {:?}", node.keyword);
        assert!(
            node.code_range.start >= node.range.start
                && node.code_range.end == node.range.end
                && node.code_range.start <= node.code_range.end,
            "{label}: code_range not inside range for {:?}",
            node.keyword
        );
        let lead = &source[node.range.start..node.code_range.start];
        assert!(
            lead.trim().is_empty() || lead.trim_start().starts_with("//") || lead.contains("/*"),
            "{label}: non-trivia leading text {lead:?} before {:?}",
            node.keyword
        );
        if let Some(inner) = node.block_inner_range {
            assert_eq!(node.form, OutlineForm::Declaration);
            assert_tiles(source, &node.children, inner, label);
            let tail_start = node.children.last().map_or(inner.start, |c| c.range.end);
            assert!(
                source[tail_start..inner.end].trim().is_empty(),
                "{label}: non-trivia tail in block of {:?}",
                node.keyword
            );
        }
        cursor = node.range.end;
    }
    assert!(
        cursor <= scope.end && source[cursor..scope.end].trim().is_empty(),
        "{label}: non-trivia tail {:?}",
        &source[cursor..scope.end]
    );
}

#[test]
fn round_trip_preserves_comments_whitespace_and_unknown_tokens() {
    let source =
        "culinator 0.3;\n/* heading */\nrecipe x {\n  // note\n  custom café @value;\n}\n";
    let document = LosslessDocument::parse(source).expect("lossless parse");
    assert_eq!(document.round_trip(), source);
    assert_eq!(document.root().text(), source);
    assert!(document.tokens().iter().any(|token| token.kind == SyntaxKind::BlockComment));
    assert!(document.tokens().iter().any(|token| token.kind == SyntaxKind::Unknown));
}

#[test]
fn tree_preserves_nested_delimiters() {
    let source = "recipe x { values [a, fn(b)]; type T<A>; }";
    let document = LosslessDocument::parse(source).expect("tree");
    assert_eq!(document.root().text(), source);
}

#[test]
fn edits_preserve_untouched_bytes() {
    let source = "recipe x { title \"Old\"; // keep\n}";
    let start = source.find("Old").unwrap();
    let edited = apply_text_edits(
        source,
        &[TextEdit::replace(TextRange::new(start, start + 3), "New")],
    )
    .unwrap();
    assert_eq!(edited, "recipe x { title \"New\"; // keep\n}");
}

#[test]
fn rejects_overlapping_edits() {
    let edits = [
        TextEdit::delete(TextRange::new(0, 2)),
        TextEdit::delete(TextRange::new(1, 3)),
    ];
    assert!(matches!(apply_text_edits("abcd", &edits), Err(SyntaxError::OverlappingEdits(1))));
}

#[test]
fn handles_inline_and_empty_blocks() {
    let source = "culinator 0.3;\nrecipe demo {\n    title \"D\";\n    material dough measured by mass { }\n    ingredient oil measured by volume { quantity 1 tbsp; }\n}\n";
    let outline = Outline::parse(source).unwrap();
    let recipe = outline.recipe().unwrap();
    let dough = recipe
        .children
        .iter()
        .find(|n| n.symbol.as_deref() == Some("dough"))
        .unwrap();
    assert!(dough.children.is_empty());
    assert_eq!(dough.form, OutlineForm::Declaration);

    let oil = recipe
        .children
        .iter()
        .find(|n| n.symbol.as_deref() == Some("oil"))
        .unwrap();
    let quantity = oil.child("quantity").unwrap();
    assert_eq!(&source[quantity.code_range.as_range()], "quantity 1 tbsp;");
    assert_eq!(quantity.indent, "");
    assert_tiles(source, &outline.nodes, TextRange::new(0, source.len()), "inline");
}

#[test]
fn block_less_prep_is_a_statement() {
    let source = "culinator 0.3;\nrecipe demo {\n    title \"D\";\n    process p { prep dice onion into diced; }\n}\n";
    let outline = Outline::parse(source).unwrap();
    let prep = outline
        .recipe()
        .unwrap()
        .child("process")
        .unwrap()
        .child("prep")
        .expect("prep");
    assert_eq!(prep.form, OutlineForm::Statement);
    assert_eq!(prep.symbol.as_deref(), Some("dice"));
}

#[test]
fn unbalanced_source_recovers_to_an_empty_outline() {
    let broken = "culinator 0.3;\nrecipe demo {\n    title \"D\";\n";
    assert!(Outline::parse(broken).is_err());
    let outline = Outline::parse_recovering(broken);
    assert!(outline.nodes.is_empty());
    assert_eq!(outline.source_len, broken.len());
}

#[test]
fn unterminated_statement_still_tiles() {
    let source = "culinator 0.3;\nrecipe demo {\n    title \"D\";\n    quantity 5\n}\n";
    let outline = Outline::parse(source).unwrap();
    assert_tiles(source, &outline.nodes, TextRange::new(0, source.len()), "partial");
    let last = outline.recipe().unwrap().children.last().unwrap();
    assert_eq!(last.keyword, "quantity");
    assert_eq!(last.form, OutlineForm::Statement);
}

#[test]
fn outline_reads_keyword_symbol_value_header_and_indent() {
    let source = "culinator 0.3;\nrecipe bread {\n    title \"Bread\";\n    ingredient flour measured by mass {\n        quantity 400 g;\n    }\n}\n";
    let outline = Outline::parse(source).unwrap();
    assert_eq!(outline.nodes.len(), 2);
    assert_eq!(outline.nodes[0].keyword, "culinator");
    assert_eq!(outline.nodes[0].form, OutlineForm::Statement);
    let recipe = outline.recipe().unwrap();
    assert_eq!(recipe.symbol.as_deref(), Some("bread"));
    let title = recipe.child("title").unwrap();
    assert_eq!(&source[title.code_range.as_range()], "title \"Bread\";");
    assert_eq!(&source[title.value_range.unwrap().as_range()], "\"Bread\"");
    assert_eq!(title.indent, "    ");
    let flour = recipe.child("ingredient").unwrap();
    assert_eq!(flour.symbol.as_deref(), Some("flour"));
    assert_eq!(
        &source[flour.header_range.unwrap().as_range()],
        "ingredient flour measured by mass "
    );
    assert_eq!(flour.child("quantity").unwrap().indent, "        ");
    assert!(recipe.child("missing").is_none());
}

#[test]
fn children_named_lists_repeated_statements_in_order() {
    let source = "recipe r { note \"a\"; title \"T\"; note \"b\"; }";
    let outline = Outline::parse(source).unwrap();
    let recipe = outline.recipe().unwrap();
    let notes = recipe.children_named("note");
    assert_eq!(notes.len(), 2);
    assert_eq!(&source[notes[0].value_range.unwrap().as_range()], "\"a\"");
    assert_eq!(&source[notes[1].value_range.unwrap().as_range()], "\"b\"");
    assert!(recipe.children_named("quantity").is_empty());
}

#[test]
fn leading_comment_belongs_to_the_following_node() {
    let source = "recipe r {\n    // the salt\n    ingredient salt measured by mass { }\n}";
    let outline = Outline::parse(source).unwrap();
    let salt = outline.recipe().unwrap().child("ingredient").unwrap();
    let full = &source[salt.range.as_range()];
    assert!(full.contains("// the salt"));
    assert!(source[salt.code_range.as_range()].starts_with("ingredient salt"));
}

#[test]
fn lexer_tiles_source_and_reports_unterminated_input() {
    let tokens = lex_lossless("a /* b */ 12.5 \"s\";").unwrap();
    let joined: String = tokens.iter().map(|t| t.text.as_str()).collect();
    assert_eq!(joined, "a /* b */ 12.5 \"s\";");
    assert!(tokens.iter().any(|t| t.kind == SyntaxKind::Number && t.text == "12.5"));
    assert!(matches!(lex_lossless("x \"open"), Err(SyntaxError::UnterminatedString(2))));
    assert!(matches!(lex_lossless("x /* open"), Err(SyntaxError::UnterminatedBlockComment(2))));
}

#[test]
fn tree_reports_unbalanced_delimiters() {
    assert!(matches!(LosslessDocument::parse("a ) b"), Err(SyntaxError::UnexpectedClose(2))));
    assert!(matches!(LosslessDocument::parse("a { b"), Err(SyntaxError::UnclosedDelimiter(2))));
    assert!(matches!(LosslessDocument::parse("a { b ]"), Err(SyntaxError::UnexpectedClose(6))));
}

#[test]
fn edits_apply_in_offset_order_and_reject_bad_ranges() {
    let edits = [
        TextEdit::insert(4, "X"),
        TextEdit::replace(TextRange::new(0, 1), "Z"),
        TextEdit::delete(TextRange::new(2, 3)),
    ];
    assert_eq!(apply_text_edits("abcd", &edits).unwrap(), "ZbdX");
    assert_eq!(
        apply_text_edits("abcd", &[TextEdit::delete(TextRange::new(3, 9))]),
        Err(SyntaxError::InvalidEditRange { start: 3, end: 9, source_len: 4 })
    );
    assert_eq!(apply_text_edits("abcd", &[]).unwrap(), "abcd");
}

#[test]
fn error_messages_name_the_offset() {
    assert_eq!(SyntaxError::UnterminatedString(12).message(), "unterminated string at byte 12");
    assert_eq!(
        SyntaxError::InvalidEditRange { start: 3, end: 9, source_len: 4 }.message(),
        "invalid edit range 3..9 for source of 4 bytes"
    );
    assert_eq!(SyntaxError::OverlappingEdits(0).message(), "overlapping edits at byte 0");
}
