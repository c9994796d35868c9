use glorp_syntax::highlight_cache::{
    HighlightKey, HighlightSpan, HighlightSpanQuery, HighlightTile, HighlightTiles, TILE_SIZE,
};
use glorp_syntax::manager::DocumentId;
use glorp_syntax::types::Highlight;
use ropey::Rope;
use std::cell::RefCell;

fn key(syntax_version: u64, tree_id: u64, tile_idx: usize) -> HighlightKey {
    HighlightKey {
        syntax_version,
        tree_id,
        theme_epoch: 0,
        tile_idx,
    }
}

fn empty_tile<S>(key: HighlightKey) -> HighlightTile<S> {
    HighlightTile {
        key,
        spans: Vec::new(),
    }
}

fn tiles_of<S>(cache: &HighlightTiles<S>, doc_id: DocumentId) -> usize {
    (0..cache.len())
        .filter(|slot| cache.tile(*slot).is_some_and(|(owner, _)| owner == doc_id))
        .count()
}

#[test]
fn theme_epoch_invalidates_tiles() {
    let mut cache = HighlightTiles::<u8>::with_capacity(2);
    cache.insert_tile(DocumentId(1), empty_tile(key(1, 11, 0)));

    cache.set_theme_epoch(1);

    assert_eq!(cache.theme_epoch(), 1);
    assert_eq!(cache.len(), 0);
    assert!(cache.mru_order().is_empty());
    assert_eq!(tiles_of(&cache, DocumentId(1)), 0);
}

#[test]
fn same_theme_epoch_keeps_tiles() {
    let mut cache = HighlightTiles::<u8>::with_capacity(2);
    cache.insert_tile(DocumentId(1), empty_tile(key(1, 11, 0)));
    cache.set_theme_epoch(0);
    assert_eq!(cache.len(), 1);
    cache.clear();
    assert_eq!(cache.len(), 0);
    assert_eq!(cache.theme_epoch(), 0);
}

#[test]
fn lru_eviction_reuses_slots() {
    let mut cache = HighlightTiles::<u8>::with_capacity(2);
    for tile_idx in 0..2 {
        cache.insert_tile(DocumentId(1), empty_tile(key(1, 11, tile_idx)));
    }

    cache.touch(0);
    cache.insert_tile(DocumentId(1), empty_tile(key(1, 11, 2)));

    assert!(cache.find_slot(DocumentId(1), 11, 0).is_some());
    assert!(cache.find_slot(DocumentId(1), 11, 1).is_none());
    assert!(cache.find_slot(DocumentId(1), 11, 2).is_some());
    assert_eq!(cache.find_slot(DocumentId(1), 11, 2), Some(1));
    assert_eq!(cache.len(), 2);
}

#[test]
fn replacing_same_tile_reuses_slot() {
    let mut cache = HighlightTiles::<u8>::with_capacity(3);
    cache.insert_tile(DocumentId(1), empty_tile(key(1, 11, 0)));

    cache.insert_tile(DocumentId(1), empty_tile(key(2, 11, 0)));

    assert_eq!(cache.len(), 1);
    assert_eq!(cache.mru_order().len(), 1);
    assert_eq!(cache.tile(0).map(|(_, tile)| tile.key.syntax_version), Some(2));
    assert_eq!(cache.find_slot(DocumentId(1), 11, 0), Some(0));
}

#[test]
fn invalidate_document_reclaims_dead_tile_slots() {
    let mut cache = HighlightTiles::<u8>::with_capacity(3);
    for tile_idx in 0..2 {
        cache.insert_tile(DocumentId(1), empty_tile(key(1, 11, tile_idx)));
    }
    cache.insert_tile(DocumentId(2), empty_tile(key(1, 22, 0)));

    cache.invalidate_document(DocumentId(1));

    assert_eq!(cache.len(), 1);
    assert_eq!(cache.mru_order().len(), 1);
    assert_eq!(tiles_of(&cache, DocumentId(1)), 0);
    assert!(cache.find_slot(DocumentId(2), 22, 0).is_some());
    assert_eq!(cache.find_slot(DocumentId(2), 22, 0), Some(0));
}

#[test]
fn tiles_do_not_alias_across_tree_ids() {
    let mut cache = HighlightTiles::<u32>::with_capacity(4);
    cache.insert_tile(
        DocumentId(1),
        HighlightTile {
            key: key(7, 1, 0),
            spans: vec![(
                HighlightSpan {
                    start: 0,
                    end: 5,
                    highlight: Highlight::new(1),
                },
                1,
            )],
        },
    );
    cache.insert_tile(
        DocumentId(1),
        HighlightTile {
            key: key(7, 2, 0),
            spans: vec![(
                HighlightSpan {
                    start: 10,
                    end: 15,
                    highlight: Highlight::new(1),
                },
                2,
            )],
        },
    );

    assert_eq!(cache.len(), 2);
    assert!(cache.find_slot(DocumentId(1), 1, 0).is_some());
    assert!(cache.find_slot(DocumentId(1), 2, 0).is_some());
    assert_eq!(tiles_of(&cache, DocumentId(1)), 2);
}

#[test]
fn removing_slots_keeps_the_order_of_use() {
    let mut cache = HighlightTiles::<u8>::with_capacity(4);
    cache.insert_tile(DocumentId(1), empty_tile(key(1, 1, 0)));
    cache.insert_tile(DocumentId(2), empty_tile(key(1, 2, 0)));
    cache.insert_tile(DocumentId(1), empty_tile(key(1, 1, 1)));
    cache.insert_tile(DocumentId(2), empty_tile(key(1, 2, 1)));
    cache.touch(1);

    cache.invalidate_document(DocumentId(1));

    assert_eq!(cache.find_slot(DocumentId(2), 2, 0), Some(0));
    assert_eq!(cache.find_slot(DocumentId(2), 2, 1), Some(1));
    assert_eq!(
        cache.mru_order().iter().copied().collect::<Vec<usize>>(),
        vec![0, 1]
    );
}

fn ask<'a, F, G>(
    rope: &'a Rope,
    root_end_byte: u32,
    spans: F,
    resolve: G,
    start_line: usize,
    end_line: usize,
) -> HighlightSpanQuery<'a, F, G>
where
    F: Fn(u32, u32) -> Vec<HighlightSpan>,
    G: Fn(Highlight) -> u32,
{
    HighlightSpanQuery {
        doc_id: DocumentId(1),
        syntax_version: 1,
        rope,
        tree_id: 1,
        root_end_byte,
        highlight_spans: spans,
        style_resolver: resolve,
        start_line,
        end_line,
    }
}

#[test]
fn spans_are_clipped_to_the_lines_and_read_once() {
    let text = "abcdefghi\n".repeat(300);
    let rope = Rope::from_str(&text);
    let asked = RefCell::new(Vec::new());
    let mut cache = HighlightTiles::<u32>::new();
    let whole = |start: u32, end: u32| {
        asked.borrow_mut().push((start, end));
        vec![HighlightSpan {
            start: 0,
            end: 3000,
            highlight: Highlight::new(7),
        }]
    };
    let q = ask(&rope, 3000, whole, |highlight: Highlight| highlight.get() + 1, 127, 130);

    let found = cache.get_spans(&q);
    let edge = (TILE_SIZE * 10) as u32;
    let expected = vec![
        (
            HighlightSpan {
                start: 1270,
                end: edge,
                highlight: Highlight::new(7),
            },
            8,
        ),
        (
            HighlightSpan {
                start: edge,
                end: 1300,
                highlight: Highlight::new(7),
            },
            8,
        ),
    ];
    assert_eq!(found, expected);
    assert_eq!(*asked.borrow(), vec![(0, edge), (edge, 2 * edge)]);

    assert_eq!(cache.get_spans(&q), expected);
    assert_eq!(asked.borrow().len(), 2);
    assert_eq!(cache.len(), 2);
}

#[test]
fn trees_that_end_behind_the_text_have_no_highlights() {
    let rope = Rope::from_str("one\ntwo\n");
    let mut cache = HighlightTiles::<u32>::new();
    let spans = |_: u32, _: u32| {
        vec![HighlightSpan {
            start: 0,
            end: 3,
            highlight: Highlight::new(0),
        }]
    };
    let q = ask(&rope, 9, spans, |_: Highlight| 0, 0, 2);
    assert_eq!(cache.get_spans(&q), vec![]);
    let q = ask(&rope, 8, spans, |_: Highlight| 0, 2, 2);
    assert_eq!(cache.get_spans(&q), vec![]);
}

#[test]
fn highlights_elsewhere_are_left_out() {
    let rope = Rope::from_str("one\ntwo\nthree\n");
    let mut cache = HighlightTiles::<u32>::new();
    let spans = |_: u32, _: u32| {
        vec![
            HighlightSpan {
                start: 0,
                end: 3,
                highlight: Highlight::new(0),
            },
            HighlightSpan {
                start: 5,
                end: 100,
                highlight: Highlight::new(1),
            },
        ]
    };
    let q = ask(&rope, 14, spans, |highlight: Highlight| highlight.get(), 1, 9);
    assert_eq!(
        cache.get_spans(&q),
        vec![(
            HighlightSpan {
                start: 5,
                end: 14,
                highlight: Highlight::new(1)
            },
            1
        )]
    );
}

#[test]
fn no_lines_have_no_highlights() {
    let rope = Rope::from_str("abc\ndef\n");
    let asked = RefCell::new(0);
    let mut cache = HighlightTiles::<u32>::new();
    let changing = |_: u32, _: u32| {
        *asked.borrow_mut() += 1;
        vec![HighlightSpan {
            start: 0,
            end: *asked.borrow() * 2,
            highlight: Highlight::new(0),
        }]
    };
    let q = ask(&rope, 8, changing, |_| 0, 1, 1);
    assert_eq!(cache.get_spans(&q), vec![]);
    assert_eq!(*asked.borrow(), 0);
    assert_eq!(cache.len(), 0);
}
