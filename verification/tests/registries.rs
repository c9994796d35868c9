use glorp_syntax::bundle::QueryBundleError;
use glorp_syntax::grammar_build::Platform;
use glorp_syntax::grammar_files::{GrammarDir, GrammarError};
use glorp_syntax::language_id::LanguageId;
use glorp_syntax::query_files::{FileName, LanguageDir, QueryFile, QueryReadError, QueryRoot};
use glorp_syntax::registry::{GrammarLocator, LanguageRegistry, LanguageSpec, QueryLocator};

fn file(name: &str, text: &str) -> QueryFile {
    QueryFile {
        name: FileName::Text(name.to_owned()),
        path: name.to_owned(),
        text: Ok(text.to_owned()),
    }
}

fn dir(language: &str, files: Vec<QueryFile>) -> LanguageDir {
    LanguageDir {
        language: language.to_owned(),
        path: language.to_owned(),
        files,
        unlisted: None,
    }
}

fn root(path: &str, languages: Vec<LanguageDir>) -> QueryRoot {
    QueryRoot {
        path: path.to_owned(),
        languages,
    }
}

#[test]
fn query_locator_reads_from_explicit_roots_without_env_vars() {
    let locator = QueryLocator::new(vec![root(
        "queries",
        vec![dir("rust", vec![file("highlights.scm", "(identifier) @variable\n")])],
    )]);
    let bundle = locator
        .bundle(&LanguageId::new("rust"))
        .expect("query bundle should load");
    assert_eq!(bundle.get("highlights"), Some("(identifier) @variable\n"));
}

#[test]
fn insert_rejects_duplicate_language_ids() {
    let mut registry = LanguageRegistry::new(GrammarLocator::default(), QueryLocator::default());
    registry
        .insert(LanguageSpec::new("rust", "tree-sitter-rust"))
        .expect("first insert should succeed");
    let error = registry
        .insert(LanguageSpec::new("rust", "tree-sitter-rust"))
        .expect_err("duplicate insert should fail");

    assert_eq!(error.id, LanguageId::new("rust"));
}

#[test]
fn replace_swaps_existing_language_spec() {
    let mut registry = LanguageRegistry::new(GrammarLocator::default(), QueryLocator::default());
    registry
        .insert(LanguageSpec::new("rust", "tree-sitter-rust"))
        .expect("first insert should succeed");

    let replaced = registry.replace(LanguageSpec::new("rust", "tree-sitter-rust-alt"));

    assert_eq!(
        replaced.map(|spec| spec.grammar_name),
        Some("tree-sitter-rust".to_owned())
    );
    assert_eq!(
        registry
            .language(&LanguageId::new("rust"))
            .map(|spec| spec.grammar_name.as_str()),
        Some("tree-sitter-rust-alt")
    );
}

#[test]
fn raw_bundle_preserves_unresolved_query_text() {
    let locator = QueryLocator::new(vec![root(
        "raw-queries",
        vec![
            dir("base", vec![file("highlights.scm", "(identifier) @variable\n")]),
            dir(
                "rust",
                vec![file(
                    "highlights.scm",
                    "; inherits base\n(type_identifier) @type\n",
                )],
            ),
        ],
    )]);
    let bundle = locator
        .raw_bundle(&LanguageId::new("rust"))
        .expect("raw query bundle should load");
    assert_eq!(
        bundle.get("highlights"),
        Some("; inherits base\n(type_identifier) @type\n")
    );
}

#[test]
fn languages_are_listed_in_the_order_of_their_names() {
    let mut registry = LanguageRegistry::default();
    for name in ["rust", "c", "python", "c++"] {
        registry.insert(LanguageSpec::new(name, name)).expect("names differ");
    }
    let names: Vec<&str> = registry.iter().iter().map(|(name, _)| name.as_str()).collect();
    assert_eq!(names, vec!["c", "c++", "python", "rust"]);
    assert!(registry.language(&LanguageId::new("ruby")).is_none());
}

#[test]
fn roots_of_a_language_take_the_place_of_the_usual_ones() {
    let usual = root("usual", vec![dir("rust", vec![file("tags.scm", "usual")])]);
    let mut registry = LanguageRegistry::new(GrammarLocator::default(), QueryLocator::new(vec![usual]));
    registry.insert(LanguageSpec::new("rust", "rust")).expect("first");
    assert_eq!(
        registry.read_query(&LanguageId::new("rust"), "tags.scm"),
        Ok("usual".to_owned())
    );
    let mut own = LanguageSpec::new("rust", "rust");
    own.query_roots = vec![root("own", vec![dir("rust", vec![file("tags.scm", "own")])])];
    registry.replace(own);
    assert_eq!(
        registry.read_query(&LanguageId::new("rust"), "tags.scm"),
        Ok("own".to_owned())
    );
    assert_eq!(
        registry.read_optional_query(&LanguageId::new("rust"), "locals.scm"),
        Ok(None)
    );
    assert_eq!(
        registry.read_query(&LanguageId::new("ruby"), "tags.scm"),
        Err(QueryReadError::RootNotFound {
            language: "ruby".to_owned(),
            filename: "tags.scm".to_owned()
        })
    );
    assert_eq!(
        registry
            .query_bundle(&LanguageId::new("rust"))
            .map(|bundle| bundle.get("tags").map(str::to_owned)),
        Ok(Some("own".to_owned()))
    );
    let missing = QueryBundleError::LanguageNotFound {
        language: LanguageId::new("ruby"),
    };
    assert_eq!(registry.query_bundle(&LanguageId::new("ruby")), Err(missing));
    assert!(registry.raw_query_bundle(&LanguageId::new("ruby")).is_err());
}

#[test]
fn grammars_are_found_in_the_first_directory_that_has_them() {
    let locator = GrammarLocator::new(vec![
        GrammarDir {
            path: "/a".to_owned(),
            files: vec!["libother.so".to_owned()],
        },
        GrammarDir {
            path: "/b".to_owned(),
            files: vec!["libtree_sitter_rust.so".to_owned()],
        },
        GrammarDir {
            path: "/c".to_owned(),
            files: vec!["libtree_sitter_rust.so".to_owned()],
        },
    ]);
    assert_eq!(
        locator.locate("tree-sitter-rust", Platform::Linux),
        Some("/b/libtree_sitter_rust.so".to_owned())
    );
    assert_eq!(locator.locate("tree-sitter-rust", Platform::Windows), None);
    let mut registry = LanguageRegistry::new(locator, QueryLocator::default());
    registry
        .insert(LanguageSpec::new("rust", "tree-sitter-rust"))
        .expect("first");
    assert_eq!(
        registry.locate_grammar(&LanguageId::new("rust"), Platform::Linux),
        Ok("/b/libtree_sitter_rust.so".to_owned())
    );
    assert_eq!(
        registry.locate_grammar(&LanguageId::new("c"), Platform::Linux),
        Err(GrammarError::NotFound("c".to_owned()))
    );
}
