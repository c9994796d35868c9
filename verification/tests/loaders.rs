use glorp_syntax::config::{LanguageConfig, LanguageLoader, SingleLanguageLoader};
use glorp_syntax::grammar_files::GrammarError;
use glorp_syntax::injections_query::InjectionLanguageMarker;
use glorp_syntax::language_id::LanguageId;
use glorp_syntax::loader::{RegistryLanguageLoader, RegistryLanguageLoaderError};
use glorp_syntax::query_files::{FileName, LanguageDir, QueryFile, QueryReadError, QueryRoot};
use glorp_syntax::query_rules::QueryError;
use glorp_syntax::registry::{GrammarLocator, LanguageRegistry, LanguageSpec, QueryLocator};
use glorp_syntax::session::{DocumentSession, EngineConfig};
use glorp_syntax::text::StringText;
use glorp_syntax::types::{Highlight, Language, Pattern};
use ropey::Rope;
use tree_house_bindings::Grammar;

fn rust_grammar() -> Grammar {
    Grammar::try_from(tree_sitter_rust::LANGUAGE).expect("rust grammar should load")
}

fn highlights_of(language: &str, text: &str) -> QueryRoot {
    QueryRoot {
        path: "queries".to_owned(),
        languages: vec![LanguageDir {
            language: language.to_owned(),
            path: language.to_owned(),
            files: vec![QueryFile {
                name: FileName::Text("highlights.scm".to_owned()),
                path: "highlights.scm".to_owned(),
                text: Ok(text.to_owned()),
            }],
            unlisted: None,
        }],
    }
}

fn rust_spec() -> LanguageSpec {
    let mut spec = LanguageSpec::new("rust", "tree-sitter-rust");
    spec.injection_names = vec!["rs".to_owned()];
    spec.content_regexes = vec!["rust|rs".to_owned()];
    spec.filename_regexes = vec!["\\.rs$".to_owned()];
    spec.shebang_regexes = vec!["cargo".to_owned()];
    spec.query_roots = vec![highlights_of("rust", "(identifier) @variable\n")];
    spec
}

fn registry_of(specs: Vec<LanguageSpec>) -> LanguageRegistry {
    let mut registry = LanguageRegistry::new(GrammarLocator::default(), QueryLocator::default());
    for spec in specs {
        registry.insert(spec).expect("names differ");
    }
    registry
}

#[test]
fn registry_loader_matches_exact_and_regex_markers() {
    let loader = RegistryLanguageLoader::from_registry(&registry_of(vec![rust_spec()]), vec![Ok(rust_grammar())])
        .expect("loader should build");
    let language = Language::from_raw(0);
    let fence = Rope::from_str("```rust");
    let filename = Rope::from_str("main.rs");
    let shebang = Rope::from_str("#!/usr/bin/env cargo");
    assert_eq!(loader.language(&LanguageId::new("rust")), Some(language));
    assert_eq!(loader.language_id(language).map(LanguageId::as_str), Some("rust"));
    assert_eq!(
        loader.language_for_marker(InjectionLanguageMarker::Name("rs")),
        Some(language)
    );
    assert_eq!(
        loader.language_for_marker(InjectionLanguageMarker::Match(fence.slice(..))),
        Some(language)
    );
    assert_eq!(
        loader.language_for_marker(InjectionLanguageMarker::Filename(filename.slice(..))),
        Some(language)
    );
    assert_eq!(
        loader.language_for_marker(InjectionLanguageMarker::Shebang(shebang.slice(..))),
        Some(language)
    );
    assert_eq!(loader.language_for_marker(InjectionLanguageMarker::Name("r")), None);
    assert!(loader.get_config(language).is_some());
    assert!(loader.get_config(Language::from_raw(1)).is_none());
    assert!(loader.language_id(Language::from_raw(1)).is_none());
}

#[test]
fn languages_are_numbered_in_the_order_of_their_names() {
    let mut other = LanguageSpec::new("alpha", "alpha");
    other.query_roots = vec![highlights_of("alpha", "")];
    other.content_regexes = vec!["rus".to_owned()];
    let loader = RegistryLanguageLoader::from_registry(
        &registry_of(vec![rust_spec(), other]),
        vec![Ok(rust_grammar()), Ok(rust_grammar())],
    )
    .expect("loader should build");
    assert_eq!(loader.language(&LanguageId::new("alpha")), Some(Language::new(0)));
    assert_eq!(loader.language(&LanguageId::new("rust")), Some(Language::new(1)));
    // The longest match decides.
    let text = Rope::from_str("rust");
    assert_eq!(
        loader.language_for_marker(InjectionLanguageMarker::Match(text.slice(..))),
        Some(Language::new(1))
    );
    let text = Rope::from_str("rus");
    assert_eq!(
        loader.language_for_marker(InjectionLanguageMarker::Match(text.slice(..))),
        Some(Language::new(0))
    );
}

#[test]
fn loaders_name_the_language_that_is_wrong() {
    let grammar = RegistryLanguageLoader::from_registry(
        &registry_of(vec![rust_spec()]),
        vec![Err(GrammarError::NotFound("tree-sitter-rust".to_owned()))],
    );
    assert!(matches!(
        grammar,
        Err(RegistryLanguageLoaderError::Grammar { ref language, source: GrammarError::NotFound(ref name) })
            if language == &LanguageId::new("rust") && name == "tree-sitter-rust"
    ));
    let mut spec = rust_spec();
    spec.query_roots = vec![highlights_of("rust", "; inherits c\n")];
    let query = RegistryLanguageLoader::from_registry(&registry_of(vec![spec]), vec![Ok(rust_grammar())]);
    assert!(matches!(
        query,
        Err(RegistryLanguageLoaderError::Query {
            filename: "highlights.scm",
            source: QueryReadError::InheritedNotFound { .. },
            ..
        })
    ));
    let mut spec = rust_spec();
    spec.query_roots = vec![highlights_of("rust", "(no_such_node) @x\n")];
    let parse = RegistryLanguageLoader::from_registry(&registry_of(vec![spec]), vec![Ok(rust_grammar())]);
    assert!(matches!(
        parse,
        Err(RegistryLanguageLoaderError::Parse {
            source: QueryError::Parse(_),
            ..
        })
    ));
    let mut spec = rust_spec();
    spec.filename_regexes = vec!["(".to_owned()];
    let regex = RegistryLanguageLoader::from_registry(&registry_of(vec![spec]), vec![Ok(rust_grammar())]);
    assert!(matches!(
        regex,
        Err(RegistryLanguageLoaderError::InvalidRegex { ref pattern, .. }) if pattern == "("
    ));
    let mut second = rust_spec();
    second.id = LanguageId::new("zig");
    second.query_roots = vec![highlights_of("zig", "")];
    let duplicate = RegistryLanguageLoader::from_registry(
        &registry_of(vec![rust_spec(), second]),
        vec![Ok(rust_grammar()), Ok(rust_grammar())],
    );
    assert!(matches!(
        duplicate,
        Err(RegistryLanguageLoaderError::DuplicateInjectionName { ref name, ref first, ref second })
            if name == "rs" && first == &LanguageId::new("rust") && second == &LanguageId::new("zig")
    ));
}

fn config(highlights: &str, injections: &str, locals: &str) -> Result<LanguageConfig, QueryError> {
    LanguageConfig::new(rust_grammar(), highlights, injections, locals)
}

#[test]
fn queries_with_unknown_predicates_are_refused() {
    assert!(config("", "", "").is_ok());
    assert!(matches!(
        config("((identifier) @x (#set! color \"red\"))", "", ""),
        Err(QueryError::UnknownProperty { pattern: Pattern(0), ref property }) if property == "color"
    ));
    assert!(matches!(
        config("((identifier) @x (#frob! @x))", "", ""),
        Err(QueryError::UnknownPredicate { pattern: Pattern(0), ref name }) if name == "frob!"
    ));
    assert!(matches!(
        config("", "(identifier) @a ((block) @injection.content (#set! injection.language))", ""),
        Err(QueryError::UnknownProperty { pattern: Pattern(1), ref property }) if property == "injection.language"
    ));
    assert!(config("((identifier) @x (#is-not? local))", "", "").is_ok());
    assert!(config("((identifier) @x (#is? local))", "", "").is_err());
    assert!(matches!(config("(", "", ""), Err(QueryError::Parse(_))));
}

#[test]
fn highlights_are_asked_for_by_the_names_of_captures() {
    let mut loader = SingleLanguageLoader::with_highlights(
        Language::new(3),
        rust_grammar(),
        "(identifier) @variable (block) @other",
        "",
        "(block) @local.scope (identifier) @local.reference",
        &|name: &str| match name {
            "variable" => Some(Highlight::new(7)),
            _ => None,
        },
    )
    .expect("loader should build");
    assert_eq!(loader.language(), Language::new(3));
    let query = &loader.config().highlight_query;
    assert_eq!(query.highlight_indices[0].map(Highlight::get), Some(7));
    assert_eq!(query.highlight_indices[1], None);
    assert!(query.local_reference_capture.is_some());
    loader.configure(&|_: &str| Some(Highlight::new(1)));
    assert!(loader
        .config()
        .highlight_query
        .highlight_indices
        .iter()
        .all(|highlight| *highlight == Some(Highlight::new(1))));
    let text = Rope::from_str("anything");
    assert_eq!(
        loader.language_for_marker(InjectionLanguageMarker::Match(text.slice(..))),
        Some(Language::new(3))
    );
    assert!(loader.get_config(Language::new(3)).is_some());
    assert!(loader.get_config(Language::new(0)).is_none());
}

fn layers_of(spec: LanguageSpec, injections: &str, source: &str) -> usize {
    let mut spec = spec;
    spec.query_roots[0].languages[0].files.push(QueryFile {
        name: FileName::Text("injections.scm".to_owned()),
        path: "injections.scm".to_owned(),
        text: Ok(injections.to_owned()),
    });
    let loader = RegistryLanguageLoader::from_registry(&registry_of(vec![spec]), vec![Ok(rust_grammar())])
        .expect("loader should build");
    let session = DocumentSession::new(
        Language::new(0),
        &StringText::new(source),
        &loader,
        EngineConfig::default(),
    )
    .expect("session should parse");
    session.snapshot().layer_count()
}

#[test]
fn documents_name_the_languages_of_their_parts() {
    let shebang = r#"(source_file (line_comment) @injection.shebang (macro_invocation (token_tree) @injection.content))"#;
    assert_eq!(layers_of(rust_spec(), shebang, "// #!/usr/bin/env cargo\nm!{ 1 }\n"), 2);
    assert_eq!(layers_of(rust_spec(), shebang, "// #!/usr/bin/env python\nm!{ 1 }\n"), 1);
    assert_eq!(layers_of(rust_spec(), shebang, "// cargo\nm!{ 1 }\n"), 1);
    let filename = r#"(source_file (line_comment) @injection.filename (macro_invocation (token_tree) @injection.content))"#;
    assert_eq!(layers_of(rust_spec(), filename, "// main.rs\nm!{ 1 }\n"), 2);
    assert_eq!(layers_of(rust_spec(), filename, "// main.rsx\nm!{ 1 }\n"), 1);
    let named = r#"((macro_invocation (identifier) @injection.language (token_tree) @injection.content))"#;
    assert_eq!(layers_of(rust_spec(), named, "rust!{ 1 }\npython!{ 1 }\n"), 2);
    let exact = r#"((macro_invocation (token_tree) @injection.content) (#set! injection.language "rs"))"#;
    assert_eq!(layers_of(rust_spec(), exact, "a!{ 1 }\nb!{ 2 }\n"), 3);
    let combined = r#"((macro_invocation (token_tree) @injection.content)
      (#set! injection.language "rs") (#set! injection.combined))"#;
    assert_eq!(layers_of(rust_spec(), combined, "a!{ 1 }\nb!{ 2 }\n"), 2);
    let unknown = r#"((macro_invocation (token_tree) @injection.content) (#set! injection.language "zig"))"#;
    assert_eq!(layers_of(rust_spec(), unknown, "a!{ 1 }\n"), 1);
}
