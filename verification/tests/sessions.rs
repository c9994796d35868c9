use glorp_syntax::change::{ChangeSet, Revision, SnapshotId, TextEdit};
use glorp_syntax::config::SingleLanguageLoader;
use glorp_syntax::editor_syntax::{remap_offset, remap_viewport_range, Syntax, SyntaxOptions, ViewportSyntax};
use glorp_syntax::engine::{outcome_result, EngineError};
use glorp_syntax::partial_syntax;
use glorp_syntax::sealed_source::SealedSource;
use glorp_syntax::session::{DocumentSession, EngineConfig};
use glorp_syntax::text::StringText;
use glorp_syntax::treesitter::ParseOutcome;
use glorp_syntax::types::{InputEdit, Language, Point};
use ropey::Rope;
use std::sync::Arc;
use std::time::Duration;
use tree_house_bindings::Grammar;

fn rust_grammar() -> Grammar {
    Grammar::try_from(tree_sitter_rust::LANGUAGE).expect("rust grammar should load")
}

fn rust_loader() -> SingleLanguageLoader {
    SingleLanguageLoader::from_queries(Language::new(0), rust_grammar(), "", "", "").expect("loader should build")
}

fn rust_session(src: &str) -> DocumentSession {
    let loader = rust_loader();
    DocumentSession::new(
        loader.language(),
        &StringText::new(src),
        &loader,
        EngineConfig::default(),
    )
    .expect("session should parse")
}

fn point(row: u32, col: u32) -> Point {
    Point { row, col }
}

#[test]
fn mod_apply_edits_updates_snapshot_text_and_revision() {
    let loader = rust_loader();
    let mut session = rust_session("fn alpha() {}\n");

    let result = session
        .apply_edits(&ChangeSet::single(3..8, "beta"), &loader)
        .expect("edit should apply");

    assert_eq!(result.revision, Revision(1));
    assert_eq!(session.snapshot().byte_text(0..14), "fn beta() {}\n");
    assert!(session.snapshot().named_node_at(3, 7).is_some());

    let mut session = rust_session("fn alpha() {}\n");

    let result = session
        .apply_edits_in_turn(&ChangeSet::single(3..8, "beta"), &loader)
        .expect("edit should apply");

    assert_eq!(result.revision, Revision(1));
    assert_eq!(session.snapshot().byte_text(0..14), "fn beta() {}\n");
    assert!(session.snapshot().named_node_at(3, 7).is_some());
}

#[test]
fn mod_oversized_edits_leave_session_unchanged() {
    let loader = rust_loader();
    let mut session = rust_session("fn alpha() {}\n");

    let error = session
        .apply_edits(&ChangeSet::single(0..99, ""), &loader)
        .expect_err("edit should fail");
    assert_eq!(error, EngineError::InvalidRanges);
    assert_eq!(session.snapshot().byte_text(0..14), "fn alpha() {}\n");

    let error = session
        .apply_edits_in_turn(&ChangeSet::single(0..99, ""), &loader)
        .expect_err("edit should fail");
    assert_eq!(error, EngineError::InvalidRanges);
    assert_eq!(session.snapshot().byte_text(0..14), "fn alpha() {}\n");
}

#[test]
fn mod_noop_edits_do_not_advance_revision() {
    let loader = rust_loader();
    let mut session = rust_session("fn alpha() {}\n");

    let result = session
        .apply_edits(&ChangeSet::single(3..8, "alpha"), &loader)
        .expect("edit should apply");

    assert!(!result.snapshot_changed);
    assert_eq!(result.revision, Revision(0));
    assert_eq!(result.snapshot_id, SnapshotId(1));
    assert!(result.changed_ranges.is_empty());

    let result = session
        .apply_edits_in_turn(&ChangeSet::single(3..8, "alpha"), &loader)
        .expect("edit should apply");

    assert!(!result.snapshot_changed);
    assert_eq!(result.revision, Revision(0));
    assert_eq!(result.snapshot_id, SnapshotId(1));
    assert!(result.changed_ranges.is_empty());
}

#[test]
fn mod_update_ranges_cover_old_and_new_extents() {
    let loader = rust_loader();
    let mut session = rust_session("fn alpha() {}\n");

    let result = session
        .apply_edits(&ChangeSet::single(3..8, "beta_gamma"), &loader)
        .expect("edit should apply");

    assert_eq!(result.changed_ranges, vec![3..13]);

    let mut session = rust_session("fn alpha() {}\n");

    let result = session
        .apply_edits_in_turn(&ChangeSet::single(3..8, "beta_gamma"), &loader)
        .expect("edit should apply");

    assert_eq!(result.changed_ranges, vec![3..13]);
}

#[test]
fn multiple_non_overlapping_edits_parse_once_against_final_text() {
    let loader = rust_loader();
    let mut session = rust_session("fn alpha() {\n    beta();\n}\n");
    let edits = ChangeSet::new(vec![TextEdit::new(3..8, "gamma"), TextEdit::new(17..21, "delta")]);

    let result = session.apply_edits(&edits, &loader).expect("edits should apply");

    assert!(result.snapshot_changed);
    assert_eq!(result.revision, Revision(1));
    assert_eq!(session.snapshot().byte_text(0..28), "fn gamma() {\n    delta();\n}\n");
    assert!(session.snapshot().named_node_at(3, 8).is_some());
    assert!(session.snapshot().named_node_at(17, 22).is_some());
}

#[test]
fn overlapping_edits_are_rejected() {
    let loader = rust_loader();
    let mut session = rust_session("fn alpha() {}\n");
    let edits = ChangeSet::new(vec![TextEdit::new(3..8, "beta"), TextEdit::new(5..8, "amma")]);

    let error = session
        .apply_edits(&edits, &loader)
        .expect_err("overlapping edits should fail");

    assert_eq!(error, EngineError::InvalidRanges);
    assert_eq!(session.snapshot().byte_text(0..14), "fn alpha() {}\n");
}

#[test]
fn timeout_returns_without_mutating_session() {
    let loader = rust_loader();
    let mut source = String::new();
    for idx in 0..20_000 {
        source.push_str(&format!("fn value_{idx}() -> i32 {{ {idx} }}\n"));
    }
    let text = StringText::new(&source);
    // A slow machine may need longer than usual for so long a text.
    let patient = EngineConfig {
        parse_timeout: Duration::from_secs(15),
    };
    let mut session = DocumentSession::new(loader.language(), &text, &loader, EngineConfig::default())
        .or_else(|_| DocumentSession::new(loader.language(), &text, &loader, patient))
        .expect("session should parse");
    session.set_config(EngineConfig {
        parse_timeout: Duration::from_micros(1),
    });
    let before = session.snapshot();

    let result = session
        .apply_edits(&ChangeSet::single(3..8, "updated"), &loader)
        .expect("timeout should be reported as an update result");

    assert!(result.timed_out);
    assert!(!result.snapshot_changed);
    assert_eq!(result.revision, before.revision());
    assert_eq!(result.snapshot_id, before.id());
    assert_eq!(session.snapshot().byte_text(0..15), before.byte_text(0..15));
}

#[test]
fn edits_in_turn_see_what_the_ones_before_have_done() {
    let loader = rust_loader();
    let edits = ChangeSet::new(vec![TextEdit::new(3..8, "b"), TextEdit::new(3..4, "ccc")]);

    let mut session = rust_session("fn alpha() {}\n");
    let result = session.apply_edits_in_turn(&edits, &loader).expect("edits should apply");
    assert_eq!(session.snapshot().byte_text(0..99), "fn ccc() {}\n");
    assert_eq!(result.revision, Revision(1));

    // Against the text before them all, the same edits overlap.
    let mut session = rust_session("fn alpha() {}\n");
    assert_eq!(
        session.apply_edits(&edits, &loader).expect_err("edits overlap"),
        EngineError::InvalidRanges
    );
}

#[test]
fn edits_leave_the_rest_of_the_text_alone() {
    let loader = rust_loader();
    let mut session = rust_session("fn alpha() {}\n");
    let edits = ChangeSet::new(vec![
        TextEdit::new(13..13, " // é"),
        TextEdit::new(0..0, "pub "),
        TextEdit::new(3..8, "alpha"),
    ]);
    let result = session.apply_edits(&edits, &loader).expect("edits should apply");
    assert_eq!(session.snapshot().byte_text(0..99), "pub fn alpha() {} // é\n");
    assert_eq!(session.len_bytes(), 24);
    assert_eq!(result.affected_layers, 1);
    assert_eq!(session.snapshot().root_end_byte(), 24);
    assert_eq!(session.snapshot().id(), SnapshotId(2));
}

#[test]
fn documents_without_a_configuration_are_refused() {
    let loader = rust_loader();
    let res = DocumentSession::new(
        Language::new(7),
        &StringText::new("fn alpha() {}\n"),
        &loader,
        EngineConfig::default(),
    );
    assert!(matches!(res, Err(EngineError::NoRootConfig)));
    let rope = Rope::from_str("x");
    let res = Syntax::new(rope.slice(..), Language::new(7), &loader, SyntaxOptions::default());
    assert!(matches!(res, Err(EngineError::NoRootConfig)));
    let res = partial_syntax::Syntax::new(rope.slice(..), Language::new(7), &loader, SyntaxOptions::default());
    assert!(matches!(res, Err(EngineError::NoRootConfig)));
}

#[test]
fn parses_take_half_a_second_at_most_by_default() {
    assert_eq!(EngineConfig::default().parse_timeout, Duration::from_millis(500));
    assert_eq!(SyntaxOptions::default().parse_timeout, Duration::from_millis(500));
    let config = EngineConfig::from(SyntaxOptions {
        parse_timeout: Duration::from_millis(3),
    });
    assert_eq!(config.parse_timeout, Duration::from_millis(3));
}

#[test]
fn full_update_refreshes_parse_timeout_without_edits() {
    let loader = rust_loader();
    let rope = Rope::from_str("fn alpha() {}\n");
    let mut syntax = Syntax::new(rope.slice(..), loader.language(), &loader, SyntaxOptions::default())
        .expect("syntax should parse");
    let timeout = Duration::from_millis(5);

    syntax
        .update(rope.slice(..), &[], &loader, SyntaxOptions { parse_timeout: timeout })
        .expect("no-op update should succeed");

    assert_eq!(syntax.opts().parse_timeout, timeout);
    assert_eq!(syntax.config().parse_timeout, timeout);
}

#[test]
fn full_update_refreshes_parse_timeout_before_editing() {
    let loader = rust_loader();
    let mut rope = Rope::from_str("fn alpha() {}\n");
    let mut syntax = Syntax::new(rope.slice(..), loader.language(), &loader, SyntaxOptions::default())
        .expect("syntax should parse");
    let replacement = "beta";
    let timeout = Duration::from_millis(7);
    rope.remove(3..8);
    rope.insert(3, replacement);
    let edit = InputEdit {
        start_byte: 3,
        old_end_byte: 8,
        new_end_byte: 3 + replacement.len() as u32,
        start_point: point(0, 3),
        old_end_point: point(0, 8),
        new_end_point: point(0, 7),
    };

    syntax
        .update(rope.slice(..), &[edit], &loader, SyntaxOptions { parse_timeout: timeout })
        .expect("update should succeed");

    assert_eq!(syntax.opts().parse_timeout, timeout);
    assert_eq!(syntax.config().parse_timeout, timeout);
    assert_eq!(syntax.snapshot().byte_text(0..14), "fn beta() {}\n");
}

#[test]
fn viewport_update_tracks_shifted_base_offset() {
    let loader = rust_loader();
    let mut rope = Rope::from_str("const before = 1;\nfn alpha() {}\n");
    let viewport_start = rope.to_string().find("fn alpha").expect("viewport start should exist") as u32;
    let viewport_end = rope.len_bytes() as u32;
    let sealed = Arc::new(SealedSource::from_byte_range_with_newline_padding(
        rope.slice(..),
        viewport_start..viewport_end,
    ));
    let mut syntax = ViewportSyntax::new(
        sealed,
        loader.language(),
        &loader,
        SyntaxOptions::default(),
        viewport_start,
    )
    .expect("viewport syntax should parse");

    rope.insert(0, "//\n");
    let edit = InputEdit {
        start_byte: 0,
        old_end_byte: 0,
        new_end_byte: 3,
        start_point: point(0, 0),
        old_end_point: point(0, 0),
        new_end_point: point(1, 0),
    };

    syntax
        .update(rope.slice(..), &[edit], &loader, SyntaxOptions::default())
        .expect("viewport update should succeed");

    assert_eq!(syntax.metadata().base_offset, viewport_start + 3);
    assert!(syntax.metadata().real_len >= viewport_end - viewport_start);
    assert_eq!(syntax.metadata().real_len, viewport_end - viewport_start);
    assert_eq!(syntax.metadata().sealed_source.slice().to_string(), "fn alpha() {}\n");
    assert_eq!(syntax.root_end_byte(), 14);
}

fn edit(start_byte: u32, old_end_byte: u32, new_end_byte: u32) -> InputEdit {
    InputEdit {
        start_byte,
        old_end_byte,
        new_end_byte,
        start_point: point(0, start_byte),
        old_end_point: point(0, old_end_byte),
        new_end_point: point(0, new_end_byte),
    }
}

#[test]
fn viewports_move_with_edits() {
    assert_eq!(remap_offset(4, &edit(5, 9, 7), false), 4);
    assert_eq!(remap_offset(10, &edit(5, 9, 7), false), 8);
    assert_eq!(remap_offset(6, &edit(5, 9, 7), false), 5);
    assert_eq!(remap_offset(6, &edit(5, 9, 7), true), 7);
    assert_eq!(remap_offset(u32::MAX, &edit(5, 9, 70), true), u32::MAX);
    assert_eq!(remap_viewport_range(10..20, &[edit(30, 40, 31)]), 10..20);
    assert_eq!(remap_viewport_range(10..20, &[edit(2, 4, 3)]), 9..19);
    assert_eq!(remap_viewport_range(10..20, &[edit(5, 25, 6)]), 5..6);
    assert_eq!(remap_viewport_range(10..20, &[edit(2, 4, 3), edit(0, 0, 11)]), 20..30);
}

#[test]
fn edits_of_a_part_lead_to_the_whole_document() {
    let loader = rust_loader();
    let rope = Rope::from_str("fn alpha() {}\n");
    let sealed = Arc::new(SealedSource::from_byte_range_with_newline_padding(rope.slice(..), 0..13));
    let opts = SyntaxOptions {
        parse_timeout: Duration::from_millis(400),
    };
    let mut syntax =
        partial_syntax::Syntax::new_viewport(sealed, loader.language(), &loader, opts, 0).expect("part should parse");
    assert!(syntax.is_partial());
    assert_eq!(syntax.viewport().map(|part| part.real_len), Some(13));
    assert_eq!(syntax.root_language(), Language::new(0));
    assert_eq!(syntax.named_descendant_for_byte_range(3, 8), Some(3..8));
    assert_eq!(syntax.descendant_for_byte_range(0, 2), Some(0..2));

    syntax
        .update(rope.slice(..), &[], &loader, SyntaxOptions::default())
        .expect("nothing to do");
    assert!(syntax.is_partial());
    assert_eq!(syntax.opts(), opts);

    let after = Rope::from_str("fn beta() {}\n");
    syntax
        .update(after.slice(..), &[edit(3, 8, 7)], &loader, SyntaxOptions::default())
        .expect("update should succeed");
    assert!(!syntax.is_partial());
    assert_eq!(syntax.opts(), SyntaxOptions::default());
    assert_eq!(syntax.named_descendant_for_byte_range(3, 7), Some(3..7));
    assert_eq!(syntax.layers_for_byte_range(3, 7), vec![syntax.root_layer()]);
    assert_eq!(syntax.layer_for_byte_range(3, 7), syntax.root_layer());
    assert_eq!(syntax.tree().root_node().end_byte(), 13);
    assert_eq!(syntax.tree_for_byte_range(3, 7).root_node().end_byte(), 13);
    assert!(syntax.layer(syntax.root_layer()).injections.is_empty());
}

#[test]
fn each_outcome_of_a_parse_is_told_apart() {
    let language = Language::new(3);
    assert_eq!(outcome_result(ParseOutcome::Stopped, language).err(), Some(EngineError::Timeout));
    assert_eq!(
        outcome_result(ParseOutcome::InvalidRanges, language).err(),
        Some(EngineError::InvalidRanges)
    );
    assert_eq!(
        outcome_result(ParseOutcome::IncompatibleGrammar, language).err(),
        Some(EngineError::IncompatibleGrammar(language))
    );
}
