use glorp_syntax::config::SingleLanguageLoader;
use glorp_syntax::editor_syntax::{Syntax as EditorSyntax, SyntaxOptions};
use glorp_syntax::injection::{
    resolve_overlaps, IncludedChildren, InjectionCandidate, InjectionQueryMatch, MatchedRange,
};
use glorp_syntax::injections_query::TREE_SITTER_MATCH_LIMIT;
use glorp_syntax::layers::{LayerData, LayerUpdateFlags, Syntax};
use glorp_syntax::locals::Locals;
use glorp_syntax::mapping::map_old_injections;
use glorp_syntax::planning::PlannedLayerSource;
use glorp_syntax::session::{DocumentSession, EngineConfig};
use glorp_syntax::text::StringText;
use glorp_syntax::treesitter::{CaptureEvent, CapturedRange, Judged};
use glorp_syntax::types::{Capture, Injection, InputEdit, Language, Layer, Pattern, Point};
use ropey::Rope;
use slab::Slab;
use tree_house_bindings::{Grammar, InactiveQueryCursor};

fn rust_grammar() -> Grammar {
    Grammar::try_from(tree_sitter_rust::LANGUAGE).expect("rust grammar should load")
}

fn loader_with(injections: &str) -> SingleLanguageLoader {
    SingleLanguageLoader::from_queries(Language::new(0), rust_grammar(), "", injections, "").expect("loader should build")
}

fn test_patterns() -> (Language, Pattern, Pattern) {
    let loader = loader_with(
        r#"
(identifier) @injection.content
  (#set! injection.language "rust")
(block) @injection.content
  (#set! injection.language "rust")
"#,
    );
    let session = DocumentSession::new(
        loader.language(),
        &StringText::new("fn alpha() { beta }\n"),
        &loader,
        EngineConfig::default(),
    )
    .expect("session should parse");
    let snapshot = session.snapshot();
    let root = snapshot.tree().root_node();
    let mut cursor = InactiveQueryCursor::new(0..u32::MAX, TREE_SITTER_MATCH_LIMIT).execute_query(
        &loader.config().injection_query.injection_query,
        &root,
        snapshot.rope_slice(),
    );
    let mut identifier = None;
    let mut block = None;
    while let Some((query_match, node_idx)) = cursor.next_matched_node() {
        match query_match.matched_node(node_idx).node.kind() {
            "identifier" => identifier = Some(Pattern(query_match.pattern().idx() as u32)),
            "block" => block = Some(Pattern(query_match.pattern().idx() as u32)),
            _ => {}
        }
    }
    (
        loader.language(),
        identifier.expect("identifier capture should exist"),
        block.expect("block capture should exist"),
    )
}

fn test_syntax(language: Language, child_pattern: Option<Pattern>) -> (Syntax, Layer) {
    let mut layers = Slab::with_capacity(2);
    let root = Layer(layers.insert(LayerData {
        language,
        parse_tree: None,
        origin_pattern: None,
        ranges: vec![0..u32::MAX],
        injections: Vec::new(),
        flags: LayerUpdateFlags::default(),
        parent: None,
        locals: Locals::default(),
    }));
    let child = Layer(layers.insert(LayerData {
        language,
        parse_tree: None,
        origin_pattern: child_pattern,
        ranges: Vec::new(),
        injections: Vec::new(),
        flags: LayerUpdateFlags::default(),
        parent: Some(root),
        locals: Locals::default(),
    }));
    (Syntax { layers, root }, child)
}

#[test]
fn planner_requires_matching_pattern_for_reuse() {
    let (language, identifier_pattern, block_pattern) = test_patterns();
    let (syntax, child) = test_syntax(language, Some(identifier_pattern));
    let old_injections = vec![Injection {
        range: 10..16,
        layer: child,
        matched_node_range: 10..16,
    }];
    let candidates = vec![InjectionCandidate {
        language,
        pattern: block_pattern,
        scope: None,
        last_match: true,
        matched_node_range: 10..16,
        emitted_ranges: Vec::from([10..16]),
    }];

    let plan = syntax.plan_injections(candidates, old_injections, &[]);

    assert!(matches!(plan.layer_actions[0].source, PlannedLayerSource::New));
}

#[test]
fn planner_reuses_a_layer_of_the_same_pattern() {
    let (language, identifier_pattern, _) = test_patterns();
    let (syntax, child) = test_syntax(language, Some(identifier_pattern));
    let old_injections = vec![Injection {
        range: 10..16,
        layer: child,
        matched_node_range: 10..16,
    }];
    let candidates = vec![InjectionCandidate {
        language,
        pattern: identifier_pattern,
        scope: None,
        last_match: true,
        matched_node_range: 10..16,
        emitted_ranges: Vec::from([10..16]),
    }];

    let plan = syntax.plan_injections(candidates, old_injections, &[]);

    assert_eq!(plan.layer_actions[0].source, PlannedLayerSource::Reuse(child));
    assert!(plan.retired_layers.is_empty());
}

#[test]
fn planner_retires_unmatched_layers() {
    let (language, identifier_pattern, _) = test_patterns();
    let (syntax, child) = test_syntax(language, Some(identifier_pattern));
    let old_injections = vec![Injection {
        range: 10..16,
        layer: child,
        matched_node_range: 10..16,
    }];

    let plan = syntax.plan_injections(Vec::new(), old_injections, &[]);

    assert_eq!(plan.retired_layers, vec![child]);
}

#[test]
fn planner_sorts_final_injections_by_start() {
    let (language, identifier_pattern, block_pattern) = test_patterns();
    let (syntax, _) = test_syntax(language, None);
    let candidates = vec![
        InjectionCandidate {
            language,
            pattern: identifier_pattern,
            scope: None,
            last_match: true,
            matched_node_range: 20..24,
            emitted_ranges: Vec::from([20..24]),
        },
        InjectionCandidate {
            language,
            pattern: block_pattern,
            scope: None,
            last_match: true,
            matched_node_range: 4..8,
            emitted_ranges: Vec::from([4..8]),
        },
    ];

    let plan = syntax.plan_injections(candidates, Vec::new(), &[]);

    assert_eq!(
        plan.injections
            .iter()
            .map(|injection| injection.range.clone())
            .collect::<Vec<_>>(),
        vec![4..8, 20..24],
    );
}

#[test]
fn mapping_insert_before_injection_is_move_only() {
    let (language, identifier_pattern, _) = test_patterns();
    let mapped = map_old_injections(
        &vec![Injection {
            range: 10..16,
            layer: Layer(1),
            matched_node_range: 8..18,
        }],
        &[InputEdit {
            start_byte: 0,
            old_end_byte: 0,
            new_end_byte: 3,
            start_point: Point { row: 0, col: 0 },
            old_end_point: Point { row: 0, col: 0 },
            new_end_point: Point { row: 0, col: 3 },
        }],
        |_| (language, Some(identifier_pattern)),
    );

    assert_eq!(mapped[0].range, 13..19);
    assert_eq!(mapped[0].matched_node_range, 11..21);
    assert!(mapped[0].moved);
    assert!(!mapped[0].modified);
}

#[test]
fn mapping_an_edit_inside_an_injection_modifies_it() {
    let mapped = map_old_injections(
        &vec![Injection {
            range: 10..16,
            layer: Layer(1),
            matched_node_range: 8..18,
        }],
        &[InputEdit {
            start_byte: 12,
            old_end_byte: 12,
            new_end_byte: 15,
            start_point: Point { row: 0, col: 12 },
            old_end_point: Point { row: 0, col: 12 },
            new_end_point: Point { row: 0, col: 15 },
        }],
        |_| (Language::new(0), None),
    );

    assert_eq!(mapped[0].range, 10..19);
    assert!(mapped[0].modified);
}

fn found(range: std::ops::Range<u32>, pattern: u32, include_children: IncludedChildren) -> InjectionQueryMatch {
    InjectionQueryMatch {
        include_children,
        language: Language::new(0),
        scope: None,
        node: MatchedRange {
            range,
            children: Vec::new(),
        },
        last_match: true,
        pattern: Pattern(pattern),
    }
}

#[test]
fn later_patterns_win_over_the_same_range() {
    let resolved = resolve_overlaps(vec![
        found(4..8, 0, IncludedChildren::Nothing),
        found(4..8, 1, IncludedChildren::Nothing),
        found(10..12, 0, IncludedChildren::Nothing),
    ]);
    let kept: Vec<(std::ops::Range<u32>, Pattern)> = resolved
        .iter()
        .map(|kept| (kept.node.range.clone(), kept.pattern))
        .collect();
    assert_eq!(kept, vec![(4..8, Pattern(1)), (10..12, Pattern(0))]);
}

#[test]
fn matches_come_in_the_order_of_the_document() {
    let resolved = resolve_overlaps(vec![
        found(2..5, 1, IncludedChildren::All),
        found(0..4, 0, IncludedChildren::Nothing),
        found(0..10, 0, IncludedChildren::All),
        found(2..5, 0, IncludedChildren::Nothing),
    ]);
    let kept: Vec<(std::ops::Range<u32>, Pattern)> = resolved
        .iter()
        .map(|kept| (kept.node.range.clone(), kept.pattern))
        .collect();
    assert_eq!(kept, vec![(0..10, Pattern(0)), (0..4, Pattern(0)), (2..5, Pattern(1))]);
}

#[test]
fn outer_nodes_are_executed_before_inner_ones() {
    let query = r#"
((token_tree) @injection.content (#set! injection.language "rust") (#set! injection.include-children))
((macro_invocation) @injection.content (#set! injection.language "rust") (#set! injection.include-children))
"#;
    let loader = loader_with(query);
    let rope = Rope::from_str("outer!{ a { b } }\n");
    let syntax = EditorSyntax::new(rope.slice(..), Language::new(0), &loader_with(""), SyntaxOptions::default())
        .expect("syntax should parse");
    let config = loader.config();
    let matches = config.injection_query.execute(syntax.tree(), rope.slice(..), &loader);
    let ranges: Vec<_> = matches.iter().map(|found| (found.node.range.clone(), found.pattern)).collect();
    assert_eq!(ranges, vec![(0..17, Pattern(1)), (6..17, Pattern(0)), (10..15, Pattern(0))]);
}

fn event(pattern: u32, node_idx: u32, nodes: &[(u32, std::ops::Range<u32>)]) -> CaptureEvent {
    CaptureEvent {
        id: 7,
        pattern: Pattern(pattern),
        node_idx,
        nodes: nodes
            .iter()
            .map(|(capture, range)| CapturedRange {
                capture: Capture(*capture),
                range: range.clone(),
            })
            .collect(),
        children: Vec::new(),
    }
}

#[test]
fn matches_are_done_with_behind_their_last_content_node() {
    let loader = loader_with(
        r#"
((token_tree) @injection.content (#set! injection.language "rust"))
(identifier) @injection.content
(block) @other
"#,
    );
    let query = &loader.config().injection_query;
    let rope = Rope::from_str("abcdefgh");
    let language = Language::new(0);
    let both = [(0, 0..2), (0, 4..6)];
    let judge = |event: CaptureEvent| query.judge_event(&event, rope.slice(..), &loader);
    assert_eq!(judge(event(0, 0, &both)), (Some(language), false));
    assert_eq!(judge(event(0, 1, &both)), (Some(language), true));
    assert_eq!(judge(event(1, 0, &both)), (None, true));
    assert_eq!(judge(event(2, 0, &[(1, 0..2)])), (None, false));

    let judged = |event: CaptureEvent, answer: Option<Language>| Judged {
        event,
        answer,
        removed: false,
    };
    let picked = query.pick_injections(vec![
        judged(event(0, 1, &both), Some(language)),
        judged(event(0, 0, &[(0, 3..3)]), Some(language)),
        judged(event(1, 0, &both), None),
        judged(event(0, 0, &both), Some(language)),
    ]);
    let ranges: Vec<_> = picked.iter().map(|found| (found.node.range.clone(), found.last_match)).collect();
    assert_eq!(ranges, vec![(0..2, false), (4..6, true)]);
}

#[test]
fn all_content_nodes_of_a_match_are_found() {
    let loader = loader_with(
        r#"
((token_tree (identifier)+ @injection.content) (#set! injection.language "rust"))
"#,
    );
    let rope = Rope::from_str("m!{ a b c }\n");
    let syntax = EditorSyntax::new(rope.slice(..), Language::new(0), &loader_with(""), SyntaxOptions::default())
        .expect("syntax should parse");
    let matches = loader
        .config()
        .injection_query
        .execute(syntax.tree(), rope.slice(..), &loader);
    let found: Vec<_> = matches.iter().map(|found| (found.node.range.clone(), found.last_match)).collect();
    assert_eq!(found, vec![(4..5, false), (6..7, false), (8..9, true)]);
}

/// Rust inside the braces of `outer!`.
const MACRO_QUERY: &str = r#"
((macro_invocation (token_tree) @injection.content)
  (#set! injection.language "rust")
  (#set! injection.include-children))
"#;

#[test]
fn injected_parts_have_layers_of_their_own() {
    let loader = loader_with(MACRO_QUERY);
    let source = "fn a() {}\nouter!{ fn b() {} }\n";
    let rope = Rope::from_str(source);
    let syntax = EditorSyntax::new(rope.slice(..), Language::new(0), &loader, SyntaxOptions::default())
        .expect("syntax should parse");
    assert_eq!(syntax.snapshot().layer_count(), 2);
    let start = source.find("b()").expect("function is there") as u32;
    let around = syntax.layers_for_byte_range(start, start + 1);
    assert_eq!(around.len(), 2);
    assert_eq!(around[0], syntax.root_layer());
    assert_eq!(syntax.layer_for_byte_range(start, start + 1), around[1]);
    assert_eq!(syntax.layer_for_byte_range(0, 1), syntax.root_layer());
    let injections = &syntax.layer(syntax.root_layer()).injections;
    assert_eq!(injections.len(), 1);
    assert_eq!(injections[0].range, 16..29);
    assert_eq!(injections[0].layer, around[1]);
    assert_eq!(syntax.layer(around[1]).parent, Some(syntax.root_layer()));
    assert_eq!(syntax.named_descendant_for_byte_range(start, start + 1), Some(start..start + 1));
}
