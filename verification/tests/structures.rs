use glorp_syntax::config::SingleLanguageLoader;
use glorp_syntax::queries::{CapturedNode, IndentQuery, RainbowQuery, TagQuery, TextObjectQuery};
use glorp_syntax::query_rules::QueryError;
use glorp_syntax::session::{DocumentSession, EngineConfig};
use glorp_syntax::snapshot::DocumentSnapshot;
use glorp_syntax::text::StringText;
use glorp_syntax::types::Language;
use tree_house_bindings::Grammar;

const SOURCE: &str = r#"fn alpha() {}

fn beta(arg: i32) -> i32 {
    alpha();
    arg + 1
}
"#;

const TAG_QUERY: &str = r#"
(function_item
  name: (identifier) @name) @definition.function
"#;

const RAINBOW_QUERY: &str = r#"
[
  "{"
  "}"
  "("
  ")"
] @rainbow.bracket

[
  (block)
  (parameters)
  (arguments)
] @rainbow.scope
"#;

fn root() -> (DocumentSnapshot, SingleLanguageLoader) {
    let grammar = Grammar::try_from(tree_sitter_rust::LANGUAGE).expect("rust grammar should load");
    let loader =
        SingleLanguageLoader::from_queries(Language::new(0), grammar, "", "", "").expect("loader should build");
    let session = DocumentSession::new(
        loader.language(),
        &StringText::new(SOURCE),
        &loader,
        EngineConfig::default(),
    )
    .expect("session should parse");
    (session.snapshot(), loader)
}

#[test]
fn tag_query_runs_without_manual_cursor_plumbing() {
    let (snapshot, loader) = root();
    let query = TagQuery::new(loader.grammar(), TAG_QUERY).expect("query should compile");
    let names: Vec<_> = query
        .capture_nodes("name", &snapshot)
        .expect("name capture should exist")
        .iter()
        .map(|node| SOURCE[node.start as usize..node.end as usize].to_owned())
        .collect();

    assert_eq!(names, vec!["alpha".to_owned(), "beta".to_owned()]);
    assert!(query.capture_nodes("other", &snapshot).is_none());
}

#[test]
fn rainbow_query_exposes_bracket_runner() {
    let (snapshot, loader) = root();
    let query = RainbowQuery::new(loader.grammar(), RAINBOW_QUERY).expect("query should compile");
    let brackets = query
        .bracket_nodes(&snapshot)
        .expect("bracket capture should exist")
        .len();
    let scopes = query.scope_nodes(&snapshot).expect("scope capture should exist").len();

    assert!(brackets >= 6);
    assert!(scopes >= 3);
    assert_eq!(brackets, 10);
    assert_eq!(scopes, 5);
    assert_eq!(
        query.capture_nodes("rainbow.scope", &snapshot).map(|nodes| nodes.len()),
        Some(5)
    );
}

#[test]
fn text_objects_are_grouped_by_their_matches() {
    let (snapshot, loader) = root();
    let query = TextObjectQuery::new(
        loader.grammar(),
        "(function_item name: (identifier) @part body: (block) @part) (parameter) @one",
    )
    .expect("query should compile");
    let parts = query.capture_nodes("part", &snapshot).expect("capture is there");
    assert_eq!(parts.len(), 2);
    assert_eq!(parts[0], CapturedNode::Grouped(vec![3..8, 11..13]));
    assert_eq!(parts[0].byte_range(), 3..13);
    let one = query
        .capture_nodes_any(&["none", "one", "part"], &snapshot)
        .expect("capture is there");
    assert_eq!(one, vec![CapturedNode::Single(23..31)]);
    assert_eq!(one[0].start_byte(), 23);
    assert_eq!(one[0].end_byte(), 31);
    assert!(query.capture_nodes("none", &snapshot).is_none());
    assert!(query.capture_nodes_any(&["none"], &snapshot).is_none());
    assert_eq!(CapturedNode::from_nodes(Vec::new()), None);
}

#[test]
fn each_kind_of_query_knows_its_own_properties() {
    let (_, loader) = root();
    let indent = IndentQuery::new(loader.grammar(), "((block) @indent (#set! indent.begin))").expect("is known");
    assert_eq!(indent.query().get_capture("indent").map(|capture| capture.idx()), Some(0));
    assert!(matches!(
        IndentQuery::new(loader.grammar(), "((block) @indent (#set! indent.odd))"),
        Err(QueryError::UnknownProperty { ref property, .. }) if property == "indent.odd"
    ));
    assert!(TagQuery::new(loader.grammar(), "((identifier) @name (#strip! @name \"x\"))").is_ok());
    assert!(matches!(
        TagQuery::new(loader.grammar(), "((identifier) @name (#odd! @name))"),
        Err(QueryError::UnknownPredicate { ref name, .. }) if name == "odd!"
    ));
    assert!(TextObjectQuery::new(loader.grammar(), "((identifier) @name (#odd! @name))").is_ok());
    assert!(RainbowQuery::new(loader.grammar(), "((block) @rainbow.scope (#set! rainbow.include-children))").is_ok());
    assert!(matches!(
        RainbowQuery::new(loader.grammar(), "((block) @rainbow.scope (#set! rainbow.include-children yes))"),
        Err(QueryError::UnexpectedValue { ref property, .. }) if property == "rainbow.include-children"
    ));
}

#[test]
fn names_are_compared_whole_however_the_text_is_held() {
    let grammar = Grammar::try_from(tree_sitter_rust::LANGUAGE).expect("rust grammar should load");
    let loader =
        SingleLanguageLoader::from_queries(Language::new(0), grammar, "", "", "").expect("loader should build");
    let long = "name_".repeat(1000);
    let source = format!("fn {long}() {{}}\nfn {long}x() {{}}\n");
    let config = EngineConfig {
        parse_timeout: std::time::Duration::from_secs(15),
    };
    let session = DocumentSession::new(loader.language(), &StringText::new(&source), &loader, config)
        .expect("session should parse");
    let query = TagQuery::new(loader.grammar(), &format!("((identifier) @name (#eq? @name \"{long}\"))"))
        .expect("query should compile");
    assert_eq!(query.capture_nodes("name", &session.snapshot()), Some(vec![3..5003]));
}

#[test]
fn what_stands_first_in_a_query_is_refused_first() {
    let (_, loader) = root();
    let error = IndentQuery::new(
        loader.grammar(),
        "((block) @indent (#set! indent.odd)) ((block) @indent (#eq? @indent))",
    )
    .expect_err("property is unknown");
    assert_eq!(error.message().as_deref(), Some("unknown property 'indent.odd'"));
    let error = IndentQuery::new(
        loader.grammar(),
        "((block) @indent (#eq? @indent)) ((block) @indent (#set! indent.odd))",
    )
    .expect_err("predicate lacks an argument");
    assert!(matches!(error, QueryError::Parse(_)));
    assert_eq!(error.message(), None);
    let error = TagQuery::new(loader.grammar(), "((identifier) @name (#odd! @name))").expect_err("is unknown");
    assert_eq!(error.message().as_deref(), Some("unknown predicate #odd!"));
    let error =
        RainbowQuery::new(loader.grammar(), "((block) @rainbow.scope (#set! rainbow.include-children yes))")
            .expect_err("takes no value");
    assert_eq!(
        error.message().as_deref(),
        Some("property 'rainbow.include-children' does not take an argument")
    );
}
