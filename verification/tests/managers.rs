use glorp_syntax::config::SingleLanguageLoader;
use glorp_syntax::editor_syntax::{Syntax, SyntaxOptions};
use glorp_syntax::manager::{overlaps, CandidateScore, DocumentId, SyntaxManager, ViewportCache, ViewportKey};
use glorp_syntax::types::Language;
use ropey::Rope;
use tree_house_bindings::Grammar;

fn rust_syntax(src: &str) -> Syntax {
    let grammar = Grammar::try_from(tree_sitter_rust::LANGUAGE).expect("rust grammar should load");
    let loader =
        SingleLanguageLoader::from_queries(Language::new(0), grammar, "", "", "").expect("loader should build");
    let rope = Rope::from_str(src);
    Syntax::new(rope.slice(..), loader.language(), &loader, SyntaxOptions::default()).expect("syntax should parse")
}

#[test]
fn candidate_score_prefers_exact_full_then_enriched() {
    let exact_full = CandidateScore::new(4, true, false, 4);
    let exact_viewport_enriched = CandidateScore::new(4, false, true, 4);
    let stale_full = CandidateScore::new(3, true, false, 4);

    assert!(exact_full > exact_viewport_enriched);
    assert!(exact_viewport_enriched > stale_full);
    assert!(exact_full.beats(exact_viewport_enriched));
    assert!(exact_viewport_enriched.beats(stale_full));
    assert!(!exact_full.beats(exact_full));
    assert!(CandidateScore::new(3, true, false, 9).beats(CandidateScore::new(2, true, false, 9)));
}

#[test]
fn syntax_manager_tracks_updates_for_installed_documents() {
    let mut manager = SyntaxManager::new();
    let doc_id = DocumentId(17);

    assert!(!manager.take_updated(doc_id));
    assert!(!manager.has_syntax(doc_id));
    manager.install_full(doc_id, rust_syntax("fn alpha() {}\n"), 1);
    assert!(manager.take_updated(doc_id));
    assert!(!manager.take_updated(doc_id));
    manager.remember_full_tree_for_content(doc_id, &Rope::from_str("fn alpha() {}\n"));
    assert!(manager.restore_full_tree_for_content(doc_id, &Rope::from_str("fn alpha() {}\n"), 2));
    assert!(manager.take_updated(doc_id));
}

#[test]
fn miss_paths_do_not_create_document_slots() {
    let mut manager: SyntaxManager<Syntax> = SyntaxManager::new();
    let doc_id = DocumentId(88);

    manager.mark_dirty(doc_id);
    assert!(!manager.take_updated(doc_id));
    manager.drop_full(doc_id);
    manager.drop_viewports(doc_id);
    manager.drop_all_trees(doc_id);
    manager.remember_full_tree_for_content(doc_id, &Rope::from_str("fn alpha() {}\n"));
    assert!(!manager.restore_full_tree_for_content(doc_id, &Rope::from_str("fn alpha() {}\n"), 1));
    assert!(!manager.has_syntax(doc_id));
    assert_eq!(manager.syntax_version(doc_id), 0);
    assert!(!manager.remove_document(doc_id));
}

#[test]
fn full_and_best_document_selection_stay_distinct() {
    let mut manager = SyntaxManager::new();
    let doc_id = DocumentId(33);
    let key = ViewportKey(5);
    let viewport = rust_syntax("fn viewport() {}\n");

    manager.install_viewport_stage_b(doc_id, key, viewport.clone(), 0..16, 2);

    assert!(manager.full_syntax_for_doc(doc_id).is_none());
    let selection = manager
        .best_syntax_for_doc(doc_id)
        .expect("best syntax should be available");
    assert_eq!(selection.coverage, Some(0..16));

    manager.install_full(doc_id, viewport, 3);
    assert!(manager.full_syntax_for_doc(doc_id).is_some());
    assert_eq!(
        manager
            .best_syntax_for_doc(doc_id)
            .expect("full syntax should be selected")
            .coverage,
        None
    );
}

#[test]
fn stale_viewport_installs_are_ignored() {
    let mut manager = SyntaxManager::new();
    let doc_id = DocumentId(1);
    let key = ViewportKey(9);
    let fresh = rust_syntax("fn fresh() {}\n");
    let stale = rust_syntax("fn stale() {}\n");

    let change_id = manager.install_viewport_stage_b(doc_id, key, fresh, 0..12, 3);
    let returned = manager.install_viewport_stage_a(doc_id, key, stale, 0..12, 2);

    assert_eq!(returned, change_id);
    let entry = manager
        .document(doc_id)
        .and_then(|slot| slot.viewport_cache.map.get(&key.0))
        .expect("viewport entry should exist");
    assert!(entry.stage_a.is_none());
    assert_eq!(entry.stage_b.as_ref().map(|tree| tree.doc_version), Some(3));
}

#[test]
fn stale_viewports_do_not_reappear_after_newer_full_tree() {
    let mut manager = SyntaxManager::new();
    let doc_id = DocumentId(2);
    let key = ViewportKey(3);
    let full = rust_syntax("fn full() {}\n");
    let stale = rust_syntax("fn stale() {}\n");

    let change_id = manager.install_full(doc_id, full, 5);
    let returned = manager.install_viewport_stage_b(doc_id, key, stale, 0..11, 4);

    assert_eq!(returned, change_id);
    assert!(manager
        .document(doc_id)
        .is_some_and(|slot| !slot.viewport_cache.map.contains_key(&key.0)));
}

#[test]
fn the_viewport_used_longest_ago_makes_room() {
    let mut cache: ViewportCache<u8> = ViewportCache::new(2);
    for key in [1, 2] {
        let _entry = cache.get_mut_or_insert(ViewportKey(key));
    }
    cache.touch(ViewportKey(1));
    let _entry = cache.get_mut_or_insert(ViewportKey(3));
    let keys: Vec<u32> = cache.iter_keys_mru().iter().map(|key| key.0).collect();
    assert_eq!(keys, vec![3, 1]);
    assert!(!cache.has_any());
    assert_eq!(cache.best_doc_version(), None);
    cache.clear();
    assert!(cache.iter_keys_mru().is_empty());
}

#[test]
fn the_best_tree_for_a_viewport_is_chosen() {
    let mut manager: SyntaxManager<&str> = SyntaxManager::new();
    let doc_id = DocumentId(4);
    assert!(manager.syntax_for_viewport(doc_id, 1, 0..10).is_none());

    manager.install_viewport_stage_a(doc_id, ViewportKey(1), "quick", 0..20, 2);
    manager.install_viewport_stage_b(doc_id, ViewportKey(2), "elsewhere", 30..40, 2);
    let chosen = manager.syntax_for_viewport(doc_id, 2, 5..10).expect("a tree covers it");
    assert_eq!(*chosen.syntax, "quick");
    assert_eq!(chosen.coverage, Some(0..20));
    let chosen = manager.syntax_for_viewport(doc_id, 2, 35..36).expect("a tree covers it");
    assert_eq!(*chosen.syntax, "elsewhere");

    manager.install_viewport_stage_b(doc_id, ViewportKey(1), "enriched", 0..20, 2);
    let chosen = manager.syntax_for_viewport(doc_id, 2, 5..10).expect("a tree covers it");
    assert_eq!(*chosen.syntax, "enriched");

    manager.install_full(doc_id, "full", 2);
    let chosen = manager.syntax_for_viewport(doc_id, 2, 5..10).expect("a tree covers it");
    assert_eq!(*chosen.syntax, "full");
    assert_eq!(chosen.tree_doc_version, 2);
    assert_eq!(chosen.coverage, None);
    assert!(overlaps(Some(&(0..5)), &(4..6)));
    assert!(!overlaps(Some(&(0..5)), &(5..6)));
}

#[test]
fn the_tree_of_a_text_comes_back_with_the_text() {
    let mut manager: SyntaxManager<&str> = SyntaxManager::new();
    let doc_id = DocumentId(6);
    let first = Rope::from_str("first");
    let second = Rope::from_str("second");
    manager.install_full(doc_id, "tree of first", 1);
    manager.remember_full_tree_for_content(doc_id, &first);
    manager.install_full(doc_id, "tree of second", 2);
    assert!(!manager.restore_full_tree_for_content(doc_id, &second, 3));
    assert_eq!(manager.syntax_for_doc(doc_id), Some(&"tree of second"));
    assert!(manager.restore_full_tree_for_content(doc_id, &first, 3));
    assert_eq!(manager.syntax_for_doc(doc_id), Some(&"tree of first"));
    manager.mark_dirty(doc_id);
    assert!(manager.is_dirty(doc_id));
    assert!(manager.remove_document(doc_id));
    assert!(manager.document(doc_id).is_none());
}

#[test]
fn trees_are_remembered_until_too_many_texts_were_used() {
    let mut manager: SyntaxManager<&str> = SyntaxManager::new();
    let doc_id = DocumentId(9);
    let first = Rope::from_str("first");
    manager.install_full(doc_id, "tree of first", 1);
    manager.remember_full_tree_for_content(doc_id, &first);
    manager.install_full(doc_id, "tree of others", 2);
    for at in 0..7 {
        manager.remember_full_tree_for_content(doc_id, &Rope::from_str(&format!("other {at}")));
    }
    assert!(manager.restore_full_tree_for_content(doc_id, &first, 3));
    assert_eq!(manager.syntax_for_doc(doc_id), Some(&"tree of first"));
    assert!(manager.restore_full_tree_for_content(doc_id, &first, 4));
    for at in 7..15 {
        manager.remember_full_tree_for_content(doc_id, &Rope::from_str(&format!("other {at}")));
    }
    assert!(!manager.restore_full_tree_for_content(doc_id, &first, 5));
}
