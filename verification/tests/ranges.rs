use glorp_syntax::candidates::{collect_injection_candidates, collect_intersected_ranges};
use glorp_syntax::change::{ChangeSet, TextEdit};
use glorp_syntax::edits::{
    apply_edit, build_input_edit, byte_range_eq, invalidated_range, normalize_edits, point_after_insert,
    point_for_byte, validate_edit,
};
use glorp_syntax::engine::EngineError;
use glorp_syntax::injection::{
    order_by_precedence, IncludedChildren, InjectionQueryMatch, MatchedRange, NodeChild,
};
use glorp_syntax::mapping::shift_by_offset;
use glorp_syntax::sealed_source::SealedSource;
use glorp_syntax::spans::{
    coalesce_ranges, coalesce_sorted_ranges, intersect_ranges_impl, ranges_intersect, skip_ranges_before,
};
use glorp_syntax::text::{ByteRangeText, RopeText, TextSlice, TextStorage};
use glorp_syntax::types::{InputEdit, Language, Pattern, Point};
use ropey::Rope;
use std::ops::Range;

fn point(row: u32, col: u32) -> Point {
    Point { row, col }
}

#[test]
fn ranges_that_touch_are_joined() {
    assert_eq!(coalesce_sorted_ranges(&vec![0..2, 2..4, 6..7]), vec![0..4, 6..7]);
    assert_eq!(coalesce_ranges(vec![6..7, 0..2, 2..4, 5..6]), vec![0..4, 5..7]);
    assert_eq!(coalesce_ranges(vec![0..9, 2..4]), vec![0..9]);
    assert!(ranges_intersect(&(0..3), &(2..5)));
    assert!(!ranges_intersect(&(0..3), &(3..5)));
    assert_eq!(skip_ranges_before(&[0..3, 4..6, 8..9], 5), 1);
    assert_eq!(skip_ranges_before(&[0..3, 4..6, 8..9], 6), 2);
}

#[test]
fn excluded_parts_and_gaps_are_cut_out() {
    assert_eq!(intersect_ranges_impl(&(2..20), &vec![5..7, 9..9], &[0..10, 12..30]), vec![2..5, 7..10, 12..20]);
    assert_eq!(intersect_ranges_impl(&(2..20), &vec![], &[0..30]), vec![2..20]);
    assert_eq!(intersect_ranges_impl(&(2..20), &vec![2..20], &[0..30]), Vec::<Range<u32>>::new());
}

fn child(range: Range<u32>, named: bool) -> NodeChild {
    NodeChild { range, named }
}

fn node(range: Range<u32>) -> MatchedRange {
    MatchedRange {
        range,
        children: vec![child(2..4, true), child(5..6, false)],
    }
}

#[test]
fn children_are_injected_only_where_they_are_asked_for() {
    let whole: [Range<u32>; 1] = [0..u32::MAX];
    assert_eq!(
        collect_intersected_ranges(IncludedChildren::Nothing, &node(0..10), &whole),
        vec![0..2, 4..5, 6..10]
    );
    assert_eq!(
        collect_intersected_ranges(IncludedChildren::Unnamed, &node(0..10), &whole),
        vec![0..2, 4..10]
    );
    assert_eq!(
        collect_intersected_ranges(IncludedChildren::All, &node(0..10), &whole),
        vec![0..10]
    );
}

fn found(range: Range<u32>) -> InjectionQueryMatch {
    InjectionQueryMatch {
        include_children: IncludedChildren::All,
        language: Language::new(0),
        scope: None,
        node: MatchedRange {
            range,
            children: Vec::new(),
        },
        last_match: true,
        pattern: Pattern(0),
    }
}

#[test]
fn matches_that_overlap_earlier_ones_are_not_taken() {
    let candidates = collect_injection_candidates(&vec![found(0..10), found(5..8), found(12..14)], &[0..u32::MAX]);
    let taken: Vec<Vec<Range<u32>>> = candidates
        .iter()
        .map(|candidate| candidate.emitted_ranges.clone())
        .collect();
    assert_eq!(taken, vec![vec![0..10], vec![12..14]]);
}

#[test]
fn places_count_lines_and_bytes() {
    let rope = Rope::from_str("ab\ncdé\r\nf");
    assert_eq!(point_for_byte(&rope, 0), point(0, 0));
    assert_eq!(point_for_byte(&rope, 3), point(1, 0));
    assert_eq!(point_for_byte(&rope, 7), point(1, 4));
    assert_eq!(point_for_byte(&rope, 9), point(2, 0));
    assert_eq!(point_for_byte(&rope, 10), point(2, 1));
    assert_eq!(point_after_insert(point(1, 4), "xyz"), point(1, 7));
    assert_eq!(point_after_insert(point(1, 4), "x\ny\nzé"), point(3, 3));
    assert_eq!(point_after_insert(point(u32::MAX, 4), "xyz"), point(u32::MAX, 7));
    assert_eq!(point_after_insert(point(1, u32::MAX), "x\ny"), point(2, 1));
    assert_eq!(
        build_input_edit(&rope, &TextEdit::new(1..4, "x\ny")),
        InputEdit {
            start_byte: 1,
            old_end_byte: 4,
            new_end_byte: 4,
            start_point: point(0, 1),
            old_end_point: point(1, 1),
            new_end_point: point(1, 1),
        }
    );
    assert_eq!(invalidated_range(&TextEdit::new(1..4, "x")), 1..4);
    assert_eq!(invalidated_range(&TextEdit::new(1..4, "abcdef")), 1..7);
}

#[test]
fn edits_are_checked_and_ordered() {
    let mut rope = Rope::from_str("alpha beta");
    assert_eq!(validate_edit(&rope, &TextEdit::new(0..10, "")), Ok(()));
    assert_eq!(validate_edit(&rope, &TextEdit::new(0..11, "")), Err(EngineError::InvalidRanges));
    assert!(byte_range_eq(&rope, &(6..10), "beta"));
    assert!(!byte_range_eq(&rope, &(6..10), "bets"));
    let edits = ChangeSet::new(vec![
        TextEdit::new(6..10, "gamma"),
        TextEdit::new(0..5, "alpha"),
        TextEdit::new(0..0, ">"),
    ]);
    assert!(!edits.is_empty());
    assert_eq!(
        normalize_edits(&rope, &edits),
        Ok(vec![TextEdit::new(0..0, ">"), TextEdit::new(6..10, "gamma")])
    );
    assert_eq!(apply_edit(&mut rope, &TextEdit::new(6..10, "gamma")), Ok(()));
    assert_eq!(rope.to_string(), "alpha gamma");
}

#[test]
fn offsets_wrap_where_they_fall_below_zero() {
    assert_eq!(shift_by_offset(10, -3), 7);
    assert_eq!(shift_by_offset(2, -3), u32::MAX);
}

#[test]
fn texts_come_in_many_forms() {
    let rope = Rope::from_str("aé世b");
    assert_eq!(rope.byte_text(1..99), "é世b");
    assert_eq!(RopeText::from_slice(rope.slice(1..3)).to_rope().to_string(), "é世");
    assert_eq!(RopeText::new(rope.clone()).byte_text(0..3), "aé");
    assert_eq!("aé".to_rope().len_bytes(), 3);
    assert_eq!("aé".to_owned().to_rope().len_chars(), 2);
    assert_eq!(TextSlice::len_bytes(&rope.slice(..)), 7);
    assert_eq!(rope.slice(..).to_owned_string(), "aé世b");
    assert_eq!("aé".to_owned_string(), "aé");
}

#[test]
fn sealed_windows_are_closed_by_their_suffix() {
    let rope = Rope::from_str("fn a() {\n}\n");
    let sealed = SealedSource::from_byte_range(rope.slice(..), 0..8, "}");
    assert_eq!(sealed.slice().to_string(), "fn a() {}");
    assert_eq!(sealed.real_len_bytes, 8);
    assert_eq!(sealed.suffix_len_bytes, 1);
}

#[test]
fn texts_put_in_turn_end_where_both_end() {
    let start = point(2, 5);
    for (front, behind) in [("ab", "cd"), ("a\nb", "cé"), ("a", "b\n"), ("a\n", "b\nc"), ("", "x")] {
        let both = format!("{front}{behind}");
        assert_eq!(
            point_after_insert(point_after_insert(start, front), behind),
            point_after_insert(start, &both)
        );
    }
    assert_eq!(point_after_insert(start, ""), start);
}

#[test]
fn matches_are_taken_in_the_order_in_which_they_come() {
    let nested = || {
        let mut inner = found(2..5);
        inner.pattern = Pattern(1);
        vec![found(0..10), inner]
    };
    let candidates = collect_injection_candidates(&nested(), &[0..u32::MAX]);
    assert_eq!(candidates.len(), 1);
    assert_eq!(candidates[0].matched_node_range, 0..10);

    let in_turn = order_by_precedence(nested());
    let candidates = collect_injection_candidates(&in_turn, &[0..u32::MAX]);
    assert_eq!(candidates.len(), 1);
    assert_eq!(candidates[0].pattern, Pattern(1));
    assert_eq!(candidates[0].matched_node_range, 2..5);
}
