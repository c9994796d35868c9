use glorp_syntax::bundle::{
    load_query_bundle, load_raw_query_bundle, merge_language_queries, split_name, QueryBundle, QueryBundleError,
};
use glorp_syntax::inherits::{read_query, ReadQueryError};
use glorp_syntax::language_id::LanguageId;
use glorp_syntax::query_files::{
    read_optional_query_from_paths, read_query_from_paths, FileName, LanguageDir, QueryFile, QueryReadError, QueryRoot,
};
use glorp_syntax::text_map::{text_order, TextMap, TextOrder};

fn file(name: &str, text: &str) -> QueryFile {
    QueryFile {
        name: FileName::Text(name.to_owned()),
        path: name.to_owned(),
        text: Ok(text.to_owned()),
    }
}

fn dir(language: &str, files: Vec<QueryFile>) -> LanguageDir {
    LanguageDir {
        language: language.to_owned(),
        path: language.to_owned(),
        files,
        unlisted: None,
    }
}

fn root(path: &str, languages: Vec<LanguageDir>) -> QueryRoot {
    QueryRoot {
        path: path.to_owned(),
        languages,
    }
}

fn merged_roots() -> Vec<QueryRoot> {
    vec![
        root(
            "merge-a",
            vec![dir(
                "rust",
                vec![
                    file("highlights.scm", "(a) @variable\n"),
                    file("locals.scm", "(a) @local.scope\n"),
                ],
            )],
        ),
        root("merge-b", vec![dir("rust", vec![file("highlights.scm", "(b) @type\n")])]),
    ]
}

#[test]
fn bundle_later_roots_override_earlier_query_files() {
    let merged = load_raw_query_bundle("rust", &merged_roots()).expect("queries should merge");
    assert_eq!(merged.get("highlights"), Some("(b) @type\n"));
    assert_eq!(merged.get("locals"), Some("(a) @local.scope\n"));
}

#[test]
fn tests_later_roots_override_earlier_query_files() {
    let merged = merge_language_queries("rust", &merged_roots()).expect("queries should merge");
    assert_eq!(merged.get("highlights").map(String::as_str), Some("(b) @type\n"));
    assert_eq!(merged.get("locals").map(String::as_str), Some("(a) @local.scope\n"));
}

#[test]
fn resolved_bundle_expands_inherits() {
    let roots = [root(
        "resolved",
        vec![
            dir("base", vec![file("highlights.scm", "(identifier) @variable\n")]),
            dir(
                "rust",
                vec![file("highlights.scm", "; inherits base\n(type_identifier) @type\n")],
            ),
        ],
    )];

    let bundle = load_query_bundle("rust", &roots).expect("bundle should resolve");
    assert_eq!(
        bundle.get("highlights"),
        Some("\n(identifier) @variable\n\n(type_identifier) @type\n")
    );
}

#[test]
fn read_query_resolves_inherited_language_queries() {
    let roots = [root(
        "inherits",
        vec![
            dir("base", vec![file("highlights.scm", "(identifier) @variable\n")]),
            dir(
                "rust",
                vec![file("highlights.scm", "; inherits base\n(type_identifier) @type\n")],
            ),
        ],
    )];

    let query = read_query_from_paths("rust", "highlights.scm", &roots).expect("query should resolve");
    assert!(query.contains("(identifier) @variable"));
    assert!(query.contains("(type_identifier) @type"));
}

#[test]
fn query_later_roots_override_earlier_query_files() {
    let roots = [
        root(
            "override-a",
            vec![dir("rust", vec![file("highlights.scm", "(identifier) @variable\n")])],
        ),
        root(
            "override-b",
            vec![dir("rust", vec![file("highlights.scm", "(type_identifier) @type\n")])],
        ),
    ];

    let query = read_query_from_paths("rust", "highlights.scm", &roots).expect("query should resolve");
    assert_eq!(query, "(type_identifier) @type\n");
}

#[test]
fn read_query_errors_on_missing_inherited_query() {
    let roots = [root(
        "missing-inherit",
        vec![dir(
            "rust",
            vec![file("highlights.scm", "; inherits base\n(type_identifier) @type\n")],
        )],
    )];

    let error = read_query_from_paths("rust", "highlights.scm", &roots).expect_err("missing inherited query should error");
    assert!(matches!(
        error,
        QueryReadError::InheritedNotFound {
            ref language,
            ref filename,
        } if language == "base" && filename == "highlights.scm"
    ));
}

#[test]
fn read_query_errors_on_missing_root_query() {
    let roots = [root("missing-root", vec![dir("rust", vec![])])];

    let error = read_query_from_paths("rust", "highlights.scm", &roots).expect_err("missing root query should error");
    assert!(matches!(
        error,
        QueryReadError::RootNotFound {
            ref language,
            ref filename,
        } if language == "rust" && filename == "highlights.scm"
    ));
}

#[test]
fn read_query_errors_on_inherit_cycle() {
    let roots = [root(
        "cycle",
        vec![
            dir(
                "rust",
                vec![file("highlights.scm", "; inherits base\n(type_identifier) @type\n")],
            ),
            dir(
                "base",
                vec![file("highlights.scm", "; inherits rust\n(identifier) @variable\n")],
            ),
        ],
    )];

    let error = read_query_from_paths("rust", "highlights.scm", &roots).expect_err("inherit cycle should error");
    assert!(matches!(
        error,
        QueryReadError::InheritCycle { ref chain } if chain == &["rust".to_owned(), "base".to_owned(), "rust".to_owned()]
    ));
}

#[test]
fn optional_queries_may_be_missing_but_not_unreadable() {
    let mut broken = file("tags.scm", "");
    broken.text = Err("stream did not contain valid text".to_owned());
    broken.path = "/q/rust/tags.scm".to_owned();
    let roots = [root("/q", vec![dir("rust", vec![broken, file("locals.scm", "(x) @y")])])];
    assert_eq!(read_optional_query_from_paths("rust", "highlights.scm", &roots), Ok(None));
    assert_eq!(
        read_optional_query_from_paths("rust", "locals.scm", &roots),
        Ok(Some("(x) @y".to_owned()))
    );
    assert_eq!(
        read_optional_query_from_paths("rust", "tags.scm", &roots),
        Err(QueryReadError::Io {
            path: "/q/rust/tags.scm".to_owned(),
            source: "stream did not contain valid text".to_owned()
        })
    );
}

#[test]
fn several_languages_can_be_inherited_at_once() {
    let texts = |language: &str| -> Result<String, String> {
        match language {
            "rust" => Ok(";; inherits: c,ecma\nrust".to_owned()),
            "c" => Ok("c".to_owned()),
            "ecma" => Ok("; inherits (base)\necma".to_owned()),
            "(base)" => Ok("base".to_owned()),
            other => Err(format!("no {other}")),
        }
    };
    assert_eq!(
        read_query("rust", texts),
        Ok("\nc\n\n\nbase\necma\nrust".to_owned())
    );
    assert_eq!(
        read_query("zig", texts),
        Err(ReadQueryError::Read {
            language: "zig".to_owned(),
            source: "no zig".to_owned()
        })
    );
}

#[test]
fn errors_say_what_is_wrong() {
    let read = ReadQueryError::Read {
        language: "zig".to_owned(),
        source: "gone".to_owned(),
    };
    assert_eq!(read.message(), "failed to read query for language zig: gone");
    let cycle: ReadQueryError<String> = ReadQueryError::Cycle {
        chain: vec!["a".to_owned(), "b".to_owned(), "a".to_owned()],
    };
    assert_eq!(cycle.message(), "cyclic query inherits: a -> b -> a");
    let empty: ReadQueryError<String> = ReadQueryError::Cycle { chain: Vec::new() };
    assert_eq!(empty.message(), "");
}

#[test]
fn bundles_name_what_is_wrong_with_their_files() {
    let missing = load_query_bundle("rust", &[root("empty", vec![])]).expect("there is nothing to read");
    assert!(missing.iter().is_empty());
    let mut unlisted = dir("rust", vec![]);
    unlisted.unlisted = Some("denied".to_owned());
    unlisted.path = "/q/rust".to_owned();
    assert_eq!(
        load_raw_query_bundle("rust", &[root("/q", vec![unlisted])]),
        Err(QueryBundleError::Io {
            language: LanguageId::new("rust"),
            path: "/q/rust".to_owned(),
            source: "denied".to_owned()
        })
    );
    let odd = QueryFile {
        name: FileName::NotText {
            extension: Some("scm".to_owned()),
        },
        path: "/q/rust/?.scm".to_owned(),
        text: Ok(String::new()),
    };
    assert_eq!(
        load_raw_query_bundle("rust", &[root("/q", vec![dir("rust", vec![odd])])]),
        Err(QueryBundleError::InvalidFilename {
            language: LanguageId::new("rust"),
            path: "/q/rust/?.scm".to_owned()
        })
    );
    let unresolved = load_query_bundle(
        "rust",
        &[root("/q", vec![dir("rust", vec![file("tags.scm", "; inherits c\n")])])],
    );
    assert_eq!(
        unresolved,
        Err(QueryBundleError::Read {
            language: LanguageId::new("rust"),
            kind: "tags".to_owned(),
            source: QueryReadError::InheritedNotFound {
                language: "c".to_owned(),
                filename: "tags.scm".to_owned()
            }
        })
    );
}

#[test]
fn bundles_merge_in_the_order_of_their_kinds() {
    let mut first = QueryBundle::new("rust");
    first.insert("tags".to_owned(), "a".to_owned());
    first.insert("locals".to_owned(), "b".to_owned());
    let mut second = QueryBundle::new("c");
    second.insert("tags".to_owned(), "c".to_owned());
    second.insert("indents".to_owned(), "d".to_owned());
    first.merge(second);
    assert_eq!(first.language(), &LanguageId::new("rust"));
    let entries: Vec<(&str, &str)> = first
        .iter()
        .iter()
        .map(|(kind, text)| (kind.as_str(), text.as_str()))
        .collect();
    assert_eq!(entries, vec![("indents", "d"), ("locals", "b"), ("tags", "c")]);
    assert_eq!(split_name("locals.scm"), ("locals", Some("scm")));
    assert_eq!(split_name(".scm"), (".scm", None));
    assert_eq!(split_name("a.b.scm"), ("a.b", Some("scm")));
}

#[test]
fn texts_are_ordered_by_their_bytes() {
    assert_eq!(text_order("a", "b"), TextOrder::Before);
    assert_eq!(text_order("é", "z"), TextOrder::After);
    assert_eq!(text_order("ab", "ab"), TextOrder::Same);
    assert_eq!(text_order("ab", "a"), TextOrder::After);
    let mut map: TextMap<u8> = TextMap::new();
    assert_eq!(map.insert("b".to_owned(), 1), None);
    assert_eq!(map.insert("a".to_owned(), 2), None);
    assert_eq!(map.insert("b".to_owned(), 3), Some(1));
    assert_eq!(map.len(), 2);
    assert_eq!(map.get("b"), Some(&3));
    assert!(!map.contains_key("c"));
    assert_eq!(map.entries(), &vec![("a".to_owned(), 2), ("b".to_owned(), 3)]);
}

#[test]
fn bundles_have_the_kinds_that_some_root_has() {
    let roots = [
        root("one", vec![dir("rust", vec![file("tags.scm", "(a) @a\n"), file("notes.txt", "no query")])]),
        root("two", vec![dir("rust", vec![file("a.b.scm", "(b) @b\n"), file(".scm", "(c) @c\n")])]),
        root("three", vec![dir("c", vec![file("locals.scm", "(d) @d\n")])]),
    ];
    let bundle = load_query_bundle("rust", &roots).expect("bundle should load");
    let kinds: Vec<&str> = bundle.iter().iter().map(|(kind, _)| kind.as_str()).collect();
    assert_eq!(kinds, vec!["a.b", "tags"]);
    assert_eq!(bundle.get("tags"), Some("(a) @a\n"));
    assert_eq!(bundle.get("locals"), None);
    assert!(merge_language_queries("zig", &roots).expect("queries should merge").get("tags").is_none());
}
