//! Checks edits of a text, brings them into order and applies them.
use crate::byte_text::{
    between, byte_at, byte_len, fits, is_boundary, lemma_boundary_in_text,
    lemma_boundary_is_character, lemma_byte_at, lemma_byte_at_grows, lemma_encode_concat,
    lemma_encode_injective, str_len, strip_prefix,
};
use crate::change::{ChangeSet, TextEdit};
use crate::engine::EngineError;
use crate::ordering::{
    in_key_order, lemma_stably_ordered, order_by_key, place_after, stably_ordered, Keyed,
};
use crate::rope::{
    is_char_of, is_line_of, joined_texts, lemma_line_ends, line_ends, line_start, rope_byte_to_line,
    rope_insert, rope_len_bytes, rope_line_to_byte, rope_remove, rope_slice, rope_text,
    rope_try_byte_to_char, slice_byte_slice, slice_chunks, slice_len_bytes, slice_text,
};
use crate::treesitter::is_edit;
use crate::types::{InputEdit, Point};
use ropey::Rope;
use std::ops::Range;
use vstd::prelude::*;
use vstd::utf8::*;

verus! {

/// Whether an edit lies within a text.
pub open spec fn is_in_range(text: Seq<char>, edit: TextEdit) -> bool {
    edit.range.start <= edit.range.end <= byte_len(text)
}

/// Whether an edit begins and ends at characters of a text.
pub open spec fn is_aligned(text: Seq<char>, edit: TextEdit) -> bool {
    fits(text, edit.range.start as int, edit.range.end as int)
}

/// Whether an edit replaces a part of a text by what is there.
pub open spec fn is_noop(text: Seq<char>, edit: TextEdit) -> bool {
    between(text, edit.range.start as int, edit.range.end as int) == edit.replacement@
}

/// The byte at which the replacement of an edit ends.
pub open spec fn new_end(edit: TextEdit) -> int {
    edit.range.start + byte_len(edit.replacement@)
}

/// Refuses an edit that does not lie within a text.
pub fn validate_edit(text: &Rope, edit: &TextEdit) -> (res: Result<(), EngineError>)
    requires
        byte_len(rope_text(*text)) <= u32::MAX,
    ensures
        res == if is_in_range(rope_text(*text), *edit) {
            Ok::<(), EngineError>(())
        } else {
            Err::<(), EngineError>(EngineError::InvalidRanges)
        },
{
    if edit.range.start > edit.range.end || edit.range.end > rope_len_bytes(text) as u32 {
        return Err(EngineError::InvalidRanges);
    }
    match rope_try_byte_to_char(text, edit.range.start as usize) {
        Ok(_) => {},
        Err(_) => return Err(EngineError::InvalidRanges),
    }
    match rope_try_byte_to_char(text, edit.range.end as usize) {
        Ok(_) => {},
        Err(_) => return Err(EngineError::InvalidRanges),
    }
    Ok(())
}

/// Tells whether a part of a text is `expected`.
pub fn byte_range_eq(text: &Rope, range: &Range<u32>, expected: &str) -> (same: bool)
    requires
        fits(rope_text(*text), range.start as int, range.end as int),
    ensures
        same == (between(rope_text(*text), range.start as int, range.end as int) == expected@),
{
    let whole = rope_slice(text);
    let slice = slice_byte_slice(&whole, range.start as usize, range.end as usize);
    if slice_len_bytes(&slice) != str_len(expected) {
        return false;
    }
    let chunks = slice_chunks(&slice);
    let mut remaining: &str = expected;
    let ghost part = slice_text(slice);
    assert(chunks@.take(0) =~= Seq::empty());
    assert(joined_texts(chunks@.take(0)) + remaining@ =~= expected@);
    for i in 0..chunks.len()
        invariant
            part == between(rope_text(*text), range.start as int, range.end as int),
            joined_texts(chunks@) == part,
            byte_len(part) == byte_len(expected@),
            joined_texts(chunks@.take(i as int)) + remaining@ == expected@,
    {
        let ghost done = joined_texts(chunks@.take(i as int));
        proof {
            assert(chunks@.take(i + 1).drop_last() =~= chunks@.take(i as int));
            assert(chunks@.take(i + 1).last() == chunks@[i as int]);
            lemma_joined_prefix(chunks@, i + 1);
        }
        match strip_prefix(remaining, chunks[i]) {
            Some(rest) => {
                proof {
                    let chunk = chunks@[i as int]@;
                    assert(remaining@ =~= chunk + rest@) by {
                        assert(chunk == remaining@.subrange(0, chunk.len() as int));
                    }
                    assert(done + chunk + rest@ =~= expected@);
                }
                remaining = rest;
            },
            None => {
                proof {
                    if part == expected@ {
                        let chunk = chunks@[i as int]@;
                        let seen = done + chunk;
                        assert(seen.is_prefix_of(part));
                        assert(chunk =~= remaining@.subrange(0, chunk.len() as int)) by {
                            assert(seen == part.subrange(0, seen.len() as int));
                            assert forall|k: int| 0 <= k < chunk.len() implies chunk[k]
                                == remaining@[k] by {
                                assert(seen[done.len() + k] == part[done.len() + k]);
                            }
                            assert(seen.len() <= part.len());
                        }
                    }
                }
                return false;
            },
        }
    }
    proof {
        assert(chunks@.take(chunks.len() as int) =~= chunks@);
        lemma_encode_concat(part, remaining@);
        assert(part + remaining@ == expected@);
        if remaining@.len() == 0 {
            assert(part + remaining@ =~= part);
        }
    }
    remaining.is_empty()
}

/// The first pieces of a text are its beginning.
proof fn lemma_joined_prefix(chunks: Seq<&str>, count: int)
    requires
        0 <= count <= chunks.len(),
    ensures
        joined_texts(chunks.take(count)).is_prefix_of(joined_texts(chunks)),
    decreases chunks.len() - count,
{
    let seen = joined_texts(chunks.take(count));
    if count < chunks.len() {
        lemma_joined_prefix(chunks, count + 1);
        assert(chunks.take(count + 1).drop_last() =~= chunks.take(count));
        let more = joined_texts(chunks.take(count + 1));
        let all = joined_texts(chunks);
        assert(more == seen + chunks.take(count + 1).last()@);
        assert(more == all.subrange(0, more.len() as int));
        assert(seen =~= all.subrange(0, seen.len() as int)) by {
            assert forall|k: int| 0 <= k < seen.len() implies seen[k] == all[k] by {
                assert(more[k] == all[k]);
            }
        }
    } else {
        assert(chunks.take(count) =~= chunks);
        assert(seen =~= joined_texts(chunks).subrange(0, seen.len() as int));
    }
}

/// The edits that change something, in their order.
pub open spec fn effective(text: Seq<char>, edits: Seq<TextEdit>) -> Seq<TextEdit>
    decreases edits.len(),
{
    if edits.len() == 0 {
        edits
    } else {
        let front = effective(text, edits.drop_last());
        if is_noop(text, edits.last()) {
            front
        } else {
            front.push(edits.last())
        }
    }
}

/// Whether all edits lie within a text.
pub open spec fn all_in_range(text: Seq<char>, edits: Seq<TextEdit>) -> bool {
    forall|i: int| 0 <= i < edits.len() ==> is_in_range(text, #[trigger] edits[i])
}

/// Whether some edit begins before the one in front of it ends.
pub open spec fn overlap(edits: Seq<TextEdit>) -> bool {
    exists|i: int, j: int|
        0 <= i < j < edits.len() && j == i + 1 && (#[trigger] edits[i]).range.end > (
        #[trigger] edits[j]).range.start
}

/// The edits that change something, in the order of the text. There is no answer where an edit lies
/// outside of the text, or where edits overlap.
pub open spec fn normalized(text: Seq<char>, edits: Seq<TextEdit>) -> Option<Seq<TextEdit>> {
    let ordered = stably_ordered(effective(text, edits));
    if all_in_range(text, edits) && !overlap(ordered) {
        Some(ordered)
    } else {
        None
    }
}

/// Whether each edit, up to the first one that does not lie within the text, begins and ends at
/// characters.
pub open spec fn aligned_until_invalid(text: Seq<char>, edits: Seq<TextEdit>) -> bool {
    forall|i: int|
        0 <= i < edits.len() && all_in_range(text, edits.take(i + 1)) ==> is_aligned(
            text,
            #[trigger] edits[i],
        )
}

/// The number of bytes that edits put into a text.
pub open spec fn inserted_total(edits: Seq<TextEdit>) -> int
    decreases edits.len(),
{
    if edits.len() == 0 {
        0
    } else {
        inserted_total(edits.drop_last()) + byte_len(edits.last().replacement@)
    }
}

/// What the first edits put into a text is part of what all of them do.
pub proof fn lemma_inserted_prefix(edits: Seq<TextEdit>, count: int)
    requires
        0 <= count <= edits.len(),
    ensures
        0 <= inserted_total(edits.take(count)) <= inserted_total(edits),
    decreases edits.len(),
{
    if count < edits.len() {
        lemma_inserted_prefix(edits.drop_last(), count);
        assert(edits.drop_last().take(count) =~= edits.take(count));
    } else {
        assert(edits.take(count) =~= edits);
        if count > 0 {
            lemma_inserted_prefix(edits.drop_last(), count - 1);
            assert(edits.drop_last().take(count - 1) =~= edits.drop_last());
        }
    }
}

/// What one edit puts into a text is part of what all of them do.
pub proof fn lemma_inserted_part(edits: Seq<TextEdit>, at: int)
    requires
        0 <= at < edits.len(),
    ensures
        byte_len(edits[at].replacement@) <= inserted_total(edits),
{
    lemma_inserted_prefix(edits, at);
    lemma_inserted_prefix(edits, at + 1);
    assert(edits.take(at + 1).drop_last() =~= edits.take(at));
}

proof fn lemma_inserted_insert(edits: Seq<TextEdit>, at: int, edit: TextEdit)
    requires
        0 <= at <= edits.len(),
    ensures
        inserted_total(edits.insert(at, edit)) == inserted_total(edits) + byte_len(
            edit.replacement@,
        ),
    decreases edits.len(),
{
    let all = edits.insert(at, edit);
    if at == edits.len() {
        assert(all.drop_last() =~= edits);
    } else {
        lemma_inserted_insert(edits.drop_last(), at, edit);
        assert(all.drop_last() =~= edits.drop_last().insert(at, edit));
        assert(all.last() == edits.last());
    }
}

proof fn lemma_inserted_ordered(edits: Seq<TextEdit>)
    ensures
        inserted_total(stably_ordered(edits)) == inserted_total(edits),
    decreases edits.len(),
{
    if edits.len() > 0 {
        lemma_inserted_ordered(edits.drop_last());
        let front = stably_ordered(edits.drop_last());
        let at = place_after(front, edits.last().order_key());
        lemma_place_in(front, edits.last().order_key());
        lemma_inserted_insert(front, at, edits.last());
    }
}

proof fn lemma_place_in(edits: Seq<TextEdit>, key: u64)
    ensures
        0 <= place_after(edits, key) <= edits.len(),
    decreases edits.len(),
{
    if edits.len() > 0 {
        lemma_place_in(edits.drop_last(), key);
    }
}

/// Leaving out and reordering edits puts no more into a text.
pub proof fn lemma_inserted_normalized(text: Seq<char>, edits: Seq<TextEdit>)
    ensures
        inserted_total(stably_ordered(effective(text, edits))) <= inserted_total(edits),
    decreases edits.len(),
{
    lemma_inserted_ordered(effective(text, edits));
    lemma_inserted_effective(text, edits);
}

/// Leaving out edits puts no more into a text.
pub proof fn lemma_inserted_effective(text: Seq<char>, edits: Seq<TextEdit>)
    ensures
        inserted_total(effective(text, edits)) <= inserted_total(edits),
    decreases edits.len(),
{
    if edits.len() > 0 {
        lemma_inserted_effective(text, edits.drop_last());
        let front = effective(text, edits.drop_last());
        assert(front.push(edits.last()).drop_last() =~= front);
    }
}

/// Checks edits and leaves out those that change nothing.
pub fn effective_edits(text: &Rope, edits: &ChangeSet) -> (res: Result<Vec<TextEdit>, EngineError>)
    requires
        byte_len(rope_text(*text)) <= u32::MAX,
        aligned_until_invalid(rope_text(*text), edits@),
    ensures
        match res {
            Ok(kept) => all_in_range(rope_text(*text), edits@) && kept@ == effective(
                rope_text(*text),
                edits@,
            ),
            Err(error) => !all_in_range(rope_text(*text), edits@) && error
                == EngineError::InvalidRanges,
        },
{
    let ghost chars = rope_text(*text);
    let items = edits.iter();
    let mut kept: Vec<TextEdit> = Vec::with_capacity(items.len());
    assert(items@.take(0) =~= Seq::empty());
    for i in 0..items.len()
        invariant
            chars == rope_text(*text),
            byte_len(chars) <= u32::MAX,
            items@ == edits@,
            aligned_until_invalid(chars, edits@),
            all_in_range(chars, items@.take(i as int)),
            kept@ == effective(chars, items@.take(i as int)),
    {
        let edit = &items[i];
        proof {
            assert(items@.take(i + 1).drop_last() =~= items@.take(i as int));
            assert(items@.take(i + 1).last() == items@[i as int]);
        }
        match validate_edit(text, edit) {
            Ok(()) => {},
            Err(error) => {
                assert(!is_in_range(chars, edits@[i as int]));
                return Err(error);
            },
        }
        proof {
            assert forall|k: int| 0 <= k < i + 1 implies is_in_range(
                chars,
                #[trigger] items@.take(i + 1)[k],
            ) by {
                if k < i {
                    assert(items@.take(i as int)[k] == items@.take(i + 1)[k]);
                }
            }
            assert(is_aligned(chars, edits@[i as int]));
        }
        if !byte_range_eq(text, &edit.range, &edit.replacement) {
            kept.push(edit.clone());
        }
    }
    proof {
        assert(items@.take(items.len() as int) =~= items@);
    }
    Ok(kept)
}

/// Checks edits, leaves out those that change nothing, and brings the others into the order of the
/// text.
pub fn normalize_edits(text: &Rope, edits: &ChangeSet) -> (res: Result<Vec<TextEdit>, EngineError>)
    requires
        byte_len(rope_text(*text)) <= u32::MAX,
        aligned_until_invalid(rope_text(*text), edits@),
    ensures
        match res {
            Ok(kept) => normalized(rope_text(*text), edits@) == Some(kept@),
            Err(error) => normalized(rope_text(*text), edits@) is None && error
                == EngineError::InvalidRanges,
        },
{
    let ghost chars = rope_text(*text);
    let mut kept = match effective_edits(text, edits) {
        Ok(kept) => kept,
        Err(error) => return Err(error),
    };
    order_by_key(&mut kept);
    let mut at: usize = 1;
    while at < kept.len()
        invariant
            chars == rope_text(*text),
            kept@ == stably_ordered(effective(chars, edits@)),
            1 <= at,
            forall|i: int, j: int|
                0 <= i < j < at && j < kept.len() && j == i + 1 ==> (
                #[trigger] kept@[i]).range.end <= (#[trigger] kept@[j]).range.start,
        decreases kept.len() - at,
    {
        if kept[at - 1].range.end > kept[at].range.start {
            assert(overlap(kept@)) by {
                assert(kept@[at - 1].range.end > kept@[at as int].range.start);
            }
            return Err(EngineError::InvalidRanges);
        }
        at = at + 1;
    }
    Ok(kept)
}

/// Whether a point is the place of a byte: its line, and how far it lies behind the line's start.
pub open spec fn is_point_of(text: Seq<char>, byte: int, point: Point) -> bool {
    &&& is_line_of(text, byte, point.row as int)
    &&& point.col == byte - line_start(text, point.row as int)
}

/// A byte comes no earlier than its line's start, and no earlier than its line's number.
pub proof fn lemma_line_bounds(text: Seq<char>, byte: int, line: int)
    requires
        is_line_of(text, byte, line),
        0 <= byte <= byte_len(text),
    ensures
        0 <= line <= byte,
        0 <= line_start(text, line) <= byte,
{
    lemma_line_ends(text, text.len() as int);
    if line > 0 {
        lemma_line_end_numbers(text, line - 1);
        assert(line_ends(text)[line - 1] <= byte);
    }
}

proof fn lemma_line_end_numbers(text: Seq<char>, k: int)
    requires
        0 <= k < line_ends(text).len(),
    ensures
        k < line_ends(text)[k],
    decreases k,
{
    lemma_line_ends(text, text.len() as int);
    if k > 0 {
        lemma_line_end_numbers(text, k - 1);
        assert(line_ends(text)[k - 1] < line_ends(text)[k]);
    }
}

/// Finds the place of a byte.
pub fn point_for_byte(text: &Rope, byte: u32) -> (point: Point)
    requires
        byte <= byte_len(rope_text(*text)),
    ensures
        is_point_of(rope_text(*text), byte as int, point),
        point.row <= byte,
        point.col <= byte,
{
    let line: usize = rope_byte_to_line(text, byte as usize);
    proof {
        lemma_line_bounds(rope_text(*text), byte as int, line as int);
    }
    let start: usize = rope_line_to_byte(text, line);
    Point { row: line as u32, col: byte - start as u32 }
}

/// The number of line feeds among some bytes.
pub open spec fn line_feeds(bytes: Seq<u8>) -> int
    decreases bytes.len(),
{
    if bytes.len() == 0 {
        0
    } else {
        line_feeds(bytes.drop_last()) + if bytes.last() == 0x0A {
            1int
        } else {
            0
        }
    }
}

/// The number of bytes behind the last line feed.
pub open spec fn last_line_len(bytes: Seq<u8>) -> int
    decreases bytes.len(),
{
    if bytes.len() == 0 || bytes.last() == 0x0A {
        0
    } else {
        last_line_len(bytes.drop_last()) + 1
    }
}

/// Where a text ends that is put at `start`.
pub open spec fn point_after(start: Point, inserted: Seq<char>) -> Point {
    let bytes = encode_utf8(inserted);
    if line_feeds(bytes) == 0 {
        Point { row: start.row, col: (start.col + bytes.len()) as u32 }
    } else {
        Point { row: (start.row + line_feeds(bytes)) as u32, col: last_line_len(bytes) as u32 }
    }
}

/// Whether the place can be counted where a text ends that is put at `start`.
pub open spec fn ends_in_sight(start: Point, inserted: Seq<char>) -> bool {
    let bytes = encode_utf8(inserted);
    &&& start.row + line_feeds(bytes) <= u32::MAX
    &&& line_feeds(bytes) == 0 ==> start.col + bytes.len() <= u32::MAX
    &&& last_line_len(bytes) <= u32::MAX
}

proof fn lemma_line_feeds(bytes: Seq<u8>)
    ensures
        0 <= line_feeds(bytes) <= bytes.len(),
        0 <= last_line_len(bytes) <= bytes.len(),
        line_feeds(bytes) == 0 ==> last_line_len(bytes) == bytes.len(),
    decreases bytes.len(),
{
    if bytes.len() > 0 {
        lemma_line_feeds(bytes.drop_last());
    }
}

proof fn lemma_line_feeds_of_both(front: Seq<u8>, behind: Seq<u8>)
    ensures
        line_feeds(front + behind) == line_feeds(front) + line_feeds(behind),
        last_line_len(front + behind) == if line_feeds(behind) == 0 {
            last_line_len(front) + behind.len()
        } else {
            last_line_len(behind)
        },
    decreases behind.len(),
{
    if behind.len() > 0 {
        lemma_line_feeds_of_both(front, behind.drop_last());
        assert((front + behind).drop_last() =~= front + behind.drop_last());
        lemma_line_feeds(behind.drop_last());
    } else {
        assert(front + behind =~= front);
    }
}

/// Putting two texts one behind the other ends where both put at once end; putting nothing ends
/// where it starts.
pub proof fn lemma_inserts_in_turn(start: Point, front: Seq<char>, behind: Seq<char>)
    requires
        ends_in_sight(start, front),
        ends_in_sight(point_after(start, front), behind),
    ensures
        ends_in_sight(start, front + behind),
        point_after(point_after(start, front), behind) == point_after(start, front + behind),
        point_after(start, Seq::empty()) == start,
{
    lemma_encode_concat(front, behind);
    lemma_line_feeds(encode_utf8(front));
    lemma_line_feeds(encode_utf8(behind));
    lemma_line_feeds_of_both(encode_utf8(front), encode_utf8(behind));
    assert(encode_utf8(Seq::<char>::empty()) =~= Seq::empty());
}

/// Finds where a text ends that is put at `start`.
pub fn point_after_insert(start: Point, inserted: &str) -> (point: Point)
    requires
        ends_in_sight(start, inserted@),
    ensures
        point == point_after(start, inserted@),
{
    let bytes = inserted.as_bytes();
    let mut newline_count: usize = 0;
    let mut behind: usize = 0;
    assert(bytes@.take(0) =~= Seq::empty());
    for i in 0..bytes.len()
        invariant
            bytes@ == encode_utf8(inserted@),
            newline_count == line_feeds(bytes@.take(i as int)),
            behind == last_line_len(bytes@.take(i as int)),
            newline_count <= i,
            behind <= i,
    {
        proof {
            assert(bytes@.take(i + 1).drop_last() =~= bytes@.take(i as int));
            assert(bytes@.take(i + 1).last() == bytes@[i as int]);
        }
        if bytes[i] == 0x0A {
            newline_count = newline_count + 1;
            behind = 0;
        } else {
            behind = behind + 1;
        }
    }
    assert(bytes@.take(bytes.len() as int) =~= bytes@);
    if newline_count == 0 {
        Point { row: start.row, col: start.col + bytes.len() as u32 }
    } else {
        Point { row: start.row + newline_count as u32, col: behind as u32 }
    }
}

/// Whether an edit of the engine says what a text edit says.
pub open spec fn is_input_edit(text: Seq<char>, edit: TextEdit, input: InputEdit) -> bool {
    &&& input.start_byte == edit.range.start
    &&& input.old_end_byte == edit.range.end
    &&& input.new_end_byte == new_end(edit)
    &&& is_point_of(text, edit.range.start as int, input.start_point)
    &&& is_point_of(text, edit.range.end as int, input.old_end_point)
    &&& input.new_end_point == point_after(input.start_point, edit.replacement@)
}

/// Says to the engine what a text edit says.
pub fn build_input_edit(text: &Rope, edit: &TextEdit) -> (input: InputEdit)
    requires
        is_in_range(rope_text(*text), *edit),
        new_end(*edit) <= u32::MAX,
    ensures
        is_input_edit(rope_text(*text), *edit, input),
{
    let start_byte: u32 = edit.range.start;
    let old_end_byte: u32 = edit.range.end;
    let new_end_byte: u32 = start_byte + str_len(&edit.replacement) as u32;
    let start_point = point_for_byte(text, start_byte);
    proof {
        lemma_line_feeds(encode_utf8(edit.replacement@));
    }
    InputEdit {
        start_byte,
        old_end_byte,
        new_end_byte,
        start_point,
        old_end_point: point_for_byte(text, old_end_byte),
        new_end_point: point_after_insert(start_point, &edit.replacement),
    }
}

/// The bytes that an edit touches, before or after.
pub open spec fn invalidated(edit: TextEdit) -> Range<u32> {
    Range {
        start: edit.range.start,
        end: if new_end(edit) > edit.range.end {
            new_end(edit) as u32
        } else {
            edit.range.end
        },
    }
}

/// Finds the bytes that an edit touches, before or after.
pub fn invalidated_range(edit: &TextEdit) -> (range: Range<u32>)
    requires
        new_end(*edit) <= u32::MAX,
    ensures
        range == invalidated(*edit),
{
    let new_end: u32 = edit.range.start + str_len(&edit.replacement) as u32;
    edit.range.start..(if new_end > edit.range.end {
        new_end
    } else {
        edit.range.end
    })
}

/// `bytes` with those from `start` to `end` replaced.
pub open spec fn replaced(bytes: Seq<u8>, start: int, end: int, new: Seq<u8>) -> Seq<u8> {
    bytes.take(start) + new + bytes.skip(end)
}

/// The bytes of a text once an edit has been applied to it.
pub open spec fn edited_by(bytes: Seq<u8>, edit: TextEdit) -> Seq<u8> {
    replaced(
        bytes,
        edit.range.start as int,
        edit.range.end as int,
        encode_utf8(edit.replacement@),
    )
}

/// The bytes of a text once edits have been applied to it, the last one first.
pub open spec fn edited(bytes: Seq<u8>, edits: Seq<TextEdit>) -> Seq<u8>
    decreases edits.len(),
{
    if edits.len() == 0 {
        bytes
    } else {
        edited(edited_by(bytes, edits.last()), edits.drop_last())
    }
}

/// The bytes of a text once edits have been applied to it, one after the other.
pub open spec fn edited_in_turn(bytes: Seq<u8>, edits: Seq<TextEdit>) -> Seq<u8>
    decreases edits.len(),
{
    if edits.len() == 0 {
        bytes
    } else {
        edited_by(edited_in_turn(bytes, edits.drop_last()), edits.last())
    }
}

/// Whether each edit lies at characters of the text that those before it leave behind.
pub open spec fn aligned_in_turn(bytes: Seq<u8>, edits: Seq<TextEdit>) -> bool {
    forall|i: int|
        0 <= i < edits.len() ==> {
            let now = edited_in_turn(bytes, edits.take(i));
            &&& (#[trigger] edits[i]).range.start <= edits[i].range.end
            &&& is_char_boundary(now, edits[i].range.start as int)
            &&& is_char_boundary(now, edits[i].range.end as int)
        }
}

/// A byte belongs to the character that begins at it.
proof fn lemma_char_of_boundary(text: Seq<char>, byte: int, index: int, found: int)
    requires
        0 <= index <= text.len(),
        byte_at(text, index) == byte,
        is_char_of(text, byte, found),
    ensures
        found == index,
{
    if found < index {
        if found + 1 < index {
            lemma_byte_at_grows(text, found + 1, index);
        }
    } else if index < found {
        lemma_byte_at_grows(text, index, found);
    }
}

/// Applies an edit to a text.
pub fn apply_edit(text: &mut Rope, edit: &TextEdit) -> (res: Result<(), EngineError>)
    requires
        byte_len(rope_text(*old(text))) <= u32::MAX,
        is_in_range(rope_text(*old(text)), *edit) ==> is_aligned(rope_text(*old(text)), *edit),
    ensures
        match res {
            Ok(()) => {
                &&& is_in_range(rope_text(*old(text)), *edit)
                &&& encode_utf8(rope_text(*final(text))) == edited_by(
                    encode_utf8(rope_text(*old(text))),
                    *edit,
                )
                &&& fits(rope_text(*final(text)), edit.range.start as int, new_end(*edit))
            },
            Err(error) => {
                &&& error == EngineError::InvalidRanges
                &&& !is_in_range(rope_text(*old(text)), *edit)
                &&& *final(text) == *old(text)
            },
        },
{
    match validate_edit(text, edit) {
        Ok(()) => {},
        Err(error) => return Err(error),
    }
    let start_char: usize = match rope_try_byte_to_char(text, edit.range.start as usize) {
        Ok(index) => index,
        Err(_) => return Err(EngineError::InvalidRanges),
    };
    let end_char: usize = match rope_try_byte_to_char(text, edit.range.end as usize) {
        Ok(index) => index,
        Err(_) => return Err(EngineError::InvalidRanges),
    };
    let ghost before = rope_text(*text);
    let ghost i = start_char as int;
    let ghost j = end_char as int;
    proof {
        let a = lemma_boundary_is_character(before, edit.range.start as int);
        let b = lemma_boundary_is_character(before, edit.range.end as int);
        lemma_char_of_boundary(before, edit.range.start as int, a, i);
        lemma_char_of_boundary(before, edit.range.end as int, b, j);
        if j < i {
            lemma_byte_at_grows(before, j, i);
        }
    }
    rope_remove(text, start_char, end_char);
    let ghost cut = rope_text(*text);
    rope_insert(text, start_char, &edit.replacement);
    proof {
        let new = edit.replacement@;
        let after = rope_text(*text);
        let bytes = encode_utf8(before);
        assert(cut.take(i) =~= before.take(i));
        assert(cut.skip(i) =~= before.skip(j));
        assert(after =~= before.take(i) + new + before.skip(j));
        lemma_encode_concat(before.take(i) + new, before.skip(j));
        lemma_encode_concat(before.take(i), new);
        crate::byte_text::lemma_take_bytes(before, i);
        crate::byte_text::lemma_take_bytes(before, j);
        assert(bytes.take(edit.range.start as int) =~= encode_utf8(before.take(i)));
        assert(bytes.skip(edit.range.end as int) =~= encode_utf8(before.skip(j)));
        let k = i + new.len();
        assert(after.take(i) =~= before.take(i));
        assert(after.take(k) =~= before.take(i) + new);
        lemma_byte_at(after, i);
        lemma_byte_at(after, k);
    }
    Ok(())
}

/// Texts that begin with the same bytes have the same boundaries there.
proof fn lemma_same_boundaries(a: Seq<char>, b: Seq<char>, until: int, byte: int)
    requires
        is_boundary(a, until),
        is_boundary(b, until),
        encode_utf8(a).take(until) == encode_utf8(b).take(until),
        is_boundary(a, byte),
        byte <= until,
    ensures
        is_boundary(b, byte),
{
    let j = lemma_boundary_is_character(a, until);
    let k = lemma_boundary_is_character(b, until);
    let i = lemma_boundary_is_character(a, byte);
    if i > j {
        lemma_byte_at_grows(a, j, i);
    }
    crate::byte_text::lemma_take_bytes(a, j);
    crate::byte_text::lemma_take_bytes(b, k);
    assert(encode_utf8(a).take(until) =~= encode_utf8(a.take(j)));
    assert(encode_utf8(b).take(until) =~= encode_utf8(b.take(k)));
    lemma_encode_injective(a.take(j), b.take(k));
    assert(a.take(j).len() == j && b.take(k).len() == k);
    assert(b.take(i) =~= a.take(i)) by {
        assert forall|m: int| 0 <= m < i implies b[m] == a[m] by {
            assert(a.take(j)[m] == b.take(k)[m]);
        }
    }
    lemma_byte_at(b, i);
}

/// Whether edits lie at characters of a text, one behind the other.
pub open spec fn lie_apart(text: Seq<char>, edits: Seq<TextEdit>) -> bool {
    &&& forall|i: int| 0 <= i < edits.len() ==> is_aligned(text, #[trigger] edits[i])
    &&& forall|i: int, j: int|
        0 <= i < j < edits.len() ==> (#[trigger] edits[i]).range.end <= (
        #[trigger] edits[j]).range.start
}

/// The edits that change something are among those that were given.
pub proof fn lemma_effective_were_given(text: Seq<char>, edits: Seq<TextEdit>)
    ensures
        forall|i: int|
            0 <= i < effective(text, edits).len() ==> edits.contains(
                #[trigger] effective(text, edits)[i],
            ),
    decreases edits.len(),
{
    if edits.len() > 0 {
        let front = edits.drop_last();
        lemma_effective_were_given(text, front);
        assert forall|i: int| 0 <= i < effective(text, edits).len() implies edits.contains(
            #[trigger] effective(text, edits)[i],
        ) by {
            let kept = effective(text, edits)[i];
            if i < effective(text, front).len() {
                assert(front.contains(effective(text, front)[i]));
                let k = choose|k: int| 0 <= k < front.len() && front[k] == kept;
                assert(edits[k] == kept);
            } else {
                assert(edits[edits.len() - 1] == kept);
            }
        }
    }
}

/// Normalized edits are among those that were given, lie at characters, and lie apart.
pub proof fn lemma_normalized(text: Seq<char>, edits: Seq<TextEdit>)
    requires
        normalized(text, edits) is Some,
        aligned_until_invalid(text, edits),
    ensures
        lie_apart(text, normalized(text, edits)->0),
        in_key_order(normalized(text, edits)->0),
        forall|i: int|
            0 <= i < normalized(text, edits)->0.len() ==> edits.contains(
                #[trigger] normalized(text, edits)->0[i],
            ),
{
    broadcast use vstd::seq_lib::group_to_multiset_ensures;

    let kept = effective(text, edits);
    let ordered = stably_ordered(kept);
    lemma_effective_were_given(text, edits);
    lemma_stably_ordered(kept);
    assert forall|i: int| 0 <= i < ordered.len() implies edits.contains(#[trigger] ordered[i]) by {
        assert(ordered.contains(ordered[i]));
        assert(ordered.to_multiset().count(ordered[i]) > 0);
        assert(kept.contains(ordered[i]));
        let k = choose|k: int| 0 <= k < kept.len() && kept[k] == ordered[i];
        assert(edits.contains(kept[k]));
    }
    assert forall|i: int| 0 <= i < ordered.len() implies is_aligned(text, #[trigger] ordered[i]) by {
        assert(edits.contains(ordered[i]));
        let k = choose|k: int| 0 <= k < edits.len() && edits[k] == ordered[i];
        assert forall|m: int| 0 <= m < k + 1 implies is_in_range(
            text,
            #[trigger] edits.take(k + 1)[m],
        ) by {
            assert(edits.take(k + 1)[m] == edits[m]);
        }
        assert(is_aligned(text, edits[k]));
    }
    assert forall|i: int, j: int| 0 <= i < j < ordered.len() implies (
    #[trigger] ordered[i]).range.end <= (#[trigger] ordered[j]).range.start by {
        lemma_apart_from_neighbours(ordered, i, j);
    }
}

proof fn lemma_apart_from_neighbours(edits: Seq<TextEdit>, i: int, j: int)
    requires
        !overlap(edits),
        forall|k: int|
            0 <= k < edits.len() ==> (#[trigger] edits[k]).range.start <= edits[k].range.end,
        0 <= i < j < edits.len(),
    ensures
        edits[i].range.end <= edits[j].range.start,
    decreases j - i,
{
    let next = i + 1;
    assert(edits[i].range.end <= edits[next].range.start);
    if next < j {
        lemma_apart_from_neighbours(edits, next, j);
        assert(edits[next].range.start <= edits[next].range.end);
    }
}

/// Applies edits to a text, the last one first, so that none of them displaces another.
pub(crate) fn apply_in_reverse(text: &mut Rope, edits: &Vec<TextEdit>, Ghost(inputs): Ghost<Seq<InputEdit>>)
    requires
        byte_len(rope_text(*old(text))) + inserted_total(edits@) <= u32::MAX,
        lie_apart(rope_text(*old(text)), edits@),
        inputs.len() == edits.len(),
        forall|i: int|
            0 <= i < edits.len() ==> is_input_edit(
                rope_text(*old(text)),
                edits@[i],
                #[trigger] inputs[i],
            ),
    ensures
        encode_utf8(rope_text(*final(text))) == edited(encode_utf8(rope_text(*old(text))), edits@),
        crate::engine::edits_turn(rope_text(*old(text)), rope_text(*final(text)), inputs),
{
    let ghost whole = rope_text(*text);
    let mut left: usize = edits.len();
    let ghost mut until = byte_len(whole) as int;
    proof {
        crate::byte_text::lemma_ends_are_boundaries(whole);
        assert(edits@.take(left as int) =~= edits@);
        assert(inputs.take(left as int) =~= inputs);
        if left > 0 {
            assert(is_aligned(whole, edits@[left - 1]));
            lemma_boundary_in_text(whole, edits@[left - 1].range.end as int);
        }
    }
    while left > 0
        invariant
            left <= edits.len(),
            inputs.len() == edits.len(),
            byte_len(rope_text(*text)) + inserted_total(edits@.take(left as int)) <= u32::MAX,
            lie_apart(whole, edits@),
            forall|i: int|
                0 <= i < edits.len() ==> is_input_edit(whole, edits@[i], #[trigger] inputs[i]),
            left > 0 ==> edits@[left - 1].range.end <= until,
            is_boundary(whole, until),
            is_boundary(rope_text(*text), until),
            encode_utf8(whole).take(until) == encode_utf8(rope_text(*text)).take(until),
            edited(encode_utf8(whole), edits@) == edited(
                encode_utf8(rope_text(*text)),
                edits@.take(left as int),
            ),
            forall|after: Seq<char>|
                crate::engine::edits_turn(rope_text(*text), after, inputs.take(left as int))
                    ==> #[trigger] crate::engine::edits_turn(whole, after, inputs),
        decreases left,
    {
        let ghost before = rope_text(*text);
        left = left - 1;
        let edit = &edits[left];
        let ghost start = edit.range.start as int;
        proof {
            assert(is_aligned(whole, edits@[left as int]));
            lemma_same_boundaries(whole, before, until, start);
            lemma_same_boundaries(whole, before, until, edit.range.end as int);
            lemma_boundary_in_text(before, edit.range.end as int);
            lemma_boundary_in_text(whole, until);
            lemma_boundary_in_text(before, until);
        }
        proof {
            lemma_inserted_prefix(edits@, left + 1);
            assert(edits@.take(left + 1).drop_last() =~= edits@.take(left as int));
            assert(edits@.take(left + 1).last() == edits@[left as int]);
        }
        let applied = apply_edit(text, edit);
        assert(applied is Ok);
        proof {
            let after = rope_text(*text);
            let some = edits@.take(left + 1);
            assert(some.drop_last() =~= edits@.take(left as int));
            assert(some.last() == edits@[left as int]);
            lemma_boundary_in_text(before, start);
            assert(encode_utf8(after).take(start) =~= encode_utf8(before).take(start));
            assert(encode_utf8(before).take(start) =~= encode_utf8(before).take(until).take(start));
            assert(encode_utf8(whole).take(start) =~= encode_utf8(whole).take(until).take(start));
            let input = inputs[left as int];
            assert(is_input_edit(whole, edits@[left as int], input));
            assert(encode_utf8(after).skip(new_end(*edit)) =~= encode_utf8(before).skip(
                edit.range.end as int,
            ));
            assert(is_edit(before, after, input));
            assert(byte_len(after) <= u32::MAX) by {
                lemma_inserted_prefix(edits@, left as int);
                assert(encode_utf8(after).len() <= encode_utf8(before).len() + byte_len(
                    edit.replacement@,
                ));
            }
            let given = inputs.take(left + 1);
            assert(given.drop_last() =~= inputs.take(left as int));
            assert(given.last() == input);
            assert forall|last: Seq<char>|
                crate::engine::edits_turn(
                    after,
                    last,
                    inputs.take(left as int),
                ) implies #[trigger] crate::engine::edits_turn(whole, last, inputs) by {
                assert(crate::engine::edits_turn(before, last, given));
            }
            until = start;
            if left > 0 {
                assert(edits@[left - 1].range.end <= edits@[left as int].range.start);
            }
        }
    }
    proof {
        assert(inputs.take(0) =~= Seq::empty());
        assert(crate::engine::edits_turn(rope_text(*text), rope_text(*text), inputs.take(0)));
    }
}

/// By how many bytes an edit moves what follows it.
pub open spec fn shift_of(edit: TextEdit) -> int {
    new_end(edit) - edit.range.end
}

/// By how many bytes edits move what follows them.
pub open spec fn shift_of_all(edits: Seq<TextEdit>) -> int
    decreases edits.len(),
{
    if edits.len() == 0 {
        0
    } else {
        shift_of_all(edits.drop_last()) + shift_of(edits.last())
    }
}

/// Whether edits lie within `len` bytes, one behind the other.
pub open spec fn lie_within(edits: Seq<TextEdit>, len: int) -> bool {
    &&& forall|i: int|
        0 <= i < edits.len() ==> (#[trigger] edits[i]).range.start <= edits[i].range.end <= len
    &&& forall|i: int, j: int|
        0 <= i < j < edits.len() ==> (#[trigger] edits[i]).range.end <= (
        #[trigger] edits[j]).range.start
}

proof fn lemma_lie_within_front(edits: Seq<TextEdit>, len: int)
    requires
        lie_within(edits, len),
        edits.len() > 0,
    ensures
        lie_within(edits.drop_last(), edits.last().range.start as int),
{
    let front = edits.drop_last();
    assert forall|i: int| 0 <= i < front.len() implies (#[trigger] front[i]).range.start
        <= front[i].range.end <= edits.last().range.start by {
        assert(edits[i].range.end <= edits[edits.len() - 1].range.start);
    }
    assert forall|i: int, j: int| 0 <= i < j < front.len() implies (#[trigger] front[i]).range.end
        <= (#[trigger] front[j]).range.start by {
        assert(edits[i].range.end <= edits[j].range.start);
    }
}

/// Bytes behind all edits are still there afterwards, moved by what the edits have put in and taken
/// out; bytes before all edits stay.
pub proof fn lemma_edited_keeps_the_rest(bytes: Seq<u8>, edits: Seq<TextEdit>, from: int)
    requires
        lie_within(edits, from),
        0 <= from <= bytes.len(),
    ensures
        0 <= from + shift_of_all(edits) <= edited(bytes, edits).len(),
        edited(bytes, edits).skip(from + shift_of_all(edits)) == bytes.skip(from),
        edited(bytes, edits).len() == bytes.len() + shift_of_all(edits),
        edits.len() > 0 ==> edited(bytes, edits).take(edits[0].range.start as int) == bytes.take(
            edits[0].range.start as int,
        ),
    decreases edits.len(),
{
    if edits.len() > 0 {
        let last = edits.last();
        let once = edited_by(bytes, last);
        let after = from + shift_of(last);
        lemma_lie_within_front(edits, from);
        assert(last.range.start <= last.range.end <= from) by {
            assert(edits[edits.len() - 1] == last);
        }
        assert(once.len() == bytes.len() + shift_of(last));
        assert(once.skip(after) =~= bytes.skip(from));
        lemma_lie_within_more(edits.drop_last(), last.range.start as int, after);
        lemma_edited_keeps_the_rest(once, edits.drop_last(), after);
        let first = edits[0].range.start as int;
        if edits.len() > 1 {
            assert(edits.drop_last()[0] == edits[0]);
            assert(edits[0].range.end <= edits[edits.len() - 1].range.start);
            assert(once.take(first) =~= bytes.take(first));
        } else {
            assert(edits.drop_last() =~= Seq::empty());
            assert(once.take(first) =~= bytes.take(first));
        }
    } else {
        assert(shift_of_all(edits) == 0);
    }
}

proof fn lemma_lie_within_more(edits: Seq<TextEdit>, len: int, more: int)
    requires
        lie_within(edits, len),
        len <= more,
    ensures
        lie_within(edits, more),
{
    assert forall|i: int| 0 <= i < edits.len() implies (#[trigger] edits[i]).range.start
        <= edits[i].range.end <= more by {
    }
}

/// After edits that lie apart, each replacement is found where its edit began, moved by what the
/// edits before it have put in and taken out.
pub proof fn lemma_edited_reads_back(bytes: Seq<u8>, edits: Seq<TextEdit>, at: int)
    requires
        lie_within(edits, bytes.len() as int),
        0 <= at < edits.len(),
    ensures
        ({
            let start = edits[at].range.start + shift_of_all(edits.take(at));
            let new = encode_utf8(edits[at].replacement@);
            &&& 0 <= start <= start + new.len() <= edited(bytes, edits).len()
            &&& edited(bytes, edits).subrange(start, start + new.len()) == new
        }),
    decreases edits.len(),
{
    let last = edits.last();
    let front = edits.drop_last();
    let once = edited_by(bytes, last);
    let new = encode_utf8(edits[at].replacement@);
    lemma_lie_within_front(edits, bytes.len() as int);
    assert(last.range.start <= last.range.end <= bytes.len()) by {
        assert(edits[edits.len() - 1] == last);
    }
    lemma_lie_within_more(front, last.range.start as int, once.len() as int);
    if at < edits.len() - 1 {
        lemma_edited_reads_back(once, front, at);
        assert(front.take(at) =~= edits.take(at));
    } else {
        let begin = last.range.start as int;
        lemma_edited_keeps_the_rest(once, front, begin);
        assert(edits.take(at) =~= front);
        let all = edited(bytes, edits);
        let start = begin + shift_of_all(front);
        assert(all.skip(start) == once.skip(begin));
        assert(once.skip(begin).take(new.len() as int) =~= new);
        assert(all.subrange(start, start + new.len()) =~= all.skip(start).take(new.len() as int));
    }
}

/// A text has one line feed more for each line feed that is in it, and no other character makes
/// one.
proof fn lemma_line_feed_of(c: char)
    ensures
        line_feeds(encode_utf8(seq![c])) == if c == '\n' {
            1int
        } else {
            0
        },
{
    let bytes = encode_utf8(seq![c]);
    encode_utf8_first_scalar(seq![c]);
    assert(seq![c].drop_first() =~= Seq::empty());
    reveal_with_fuel(encode_utf8, 2);
    assert(bytes.len() == length_of_first_scalar(bytes));
    if is_leading_byte_width_1(bytes[0]) {
        assert(bytes =~= seq![bytes[0]]);
        assert(seq![bytes[0]].drop_last() =~= Seq::empty());
        reveal_with_fuel(line_feeds, 2);
        let byte = bytes[0];
        assert(byte <= 0x7f ==> (byte & 0x7f) == byte) by (bit_vector);
        assert(c as u32 == bytes[0] as u32);
    } else {
        lemma_no_line_feeds(bytes);
        assert(c as u32 != 0x0A);
    }
}

proof fn lemma_no_line_feeds(bytes: Seq<u8>)
    requires
        forall|i: int| 0 <= i < bytes.len() ==> #[trigger] bytes[i] != 0x0A,
    ensures
        line_feeds(bytes) == 0,
    decreases bytes.len(),
{
    if bytes.len() > 0 {
        lemma_no_line_feeds(bytes.drop_last());
        assert(bytes[bytes.len() - 1] != 0x0A);
    }
}

proof fn lemma_line_feeds_of_text(text: Seq<char>)
    requires
        !text.contains('\n'),
    ensures
        line_feeds(encode_utf8(text)) == 0,
    decreases text.len(),
{
    if text.len() > 0 {
        let front = text.drop_last();
        let last = text.last();
        assert(text[text.len() - 1] == last);
        assert(!front.contains('\n')) by {
            if front.contains('\n') {
                let i = choose|i: int| 0 <= i < front.len() && front[i] == '\n';
                assert(text[i] == '\n');
            }
        }
        lemma_line_feeds_of_text(front);
        lemma_line_feed_of(last);
        lemma_encode_concat(front, seq![last]);
        lemma_line_feeds_of_both(encode_utf8(front), encode_utf8(seq![last]));
        assert(front + seq![last] =~= text);
    } else {
        assert(encode_utf8(text) =~= Seq::empty());
    }
}

/// A text without a line feed ends as many bytes further on the same line. One whose last line is
/// `tail` ends on the line behind the one where what comes before ends, as many bytes from its
/// start as the tail has.
pub proof fn lemma_point_behind(start: Point, front: Seq<char>, tail: Seq<char>)
    requires
        !tail.contains('\n'),
        ends_in_sight(start, tail),
        ends_in_sight(start, front + seq!['\n'] + tail),
    ensures
        point_after(start, tail).row == start.row,
        point_after(start, tail).col == start.col + byte_len(tail),
        point_after(start, front + seq!['\n'] + tail).row == point_after(start, front).row + 1,
        point_after(start, front + seq!['\n'] + tail).col == byte_len(tail),
{
    let whole = front + seq!['\n'] + tail;
    lemma_line_feeds_of_text(tail);
    lemma_line_feed_of('\n');
    lemma_encode_concat(front, seq!['\n']);
    lemma_encode_concat(front + seq!['\n'], tail);
    let (a, b, c) = (encode_utf8(front), encode_utf8(seq!['\n']), encode_utf8(tail));
    lemma_line_feeds_of_both(a, b);
    lemma_line_feeds_of_both(a + b, c);
    lemma_line_feeds(a);
    lemma_line_feeds(b);
    lemma_line_feeds(c);
    lemma_line_feeds(a + b);
    lemma_last_line_of_feed(a);
    assert(b =~= seq![0x0Au8]) by {
        encode_utf8_first_scalar(seq!['\n']);
        assert(seq!['\n'].drop_first() =~= Seq::empty());
        reveal_with_fuel(encode_utf8, 2);
        reveal_with_fuel(line_feeds, 2);
        assert(b.len() == 1);
        assert(b =~= seq![b[0]]);
        assert(seq![b[0]].drop_last() =~= Seq::empty());
    }
}

proof fn lemma_last_line_of_feed(bytes: Seq<u8>)
    ensures
        last_line_len(bytes + seq![0x0Au8]) == 0,
{
    assert((bytes + seq![0x0Au8]).last() == 0x0A);
}

/// One edit replaces the bytes of its range by those of its replacement, which end where the edit
/// is said to end, and leaves all others as they are.
pub proof fn lemma_one_edit(bytes: Seq<u8>, edit: TextEdit)
    requires
        edit.range.start <= edit.range.end <= bytes.len(),
    ensures
        edited_by(bytes, edit).take(edit.range.start as int) == bytes.take(edit.range.start as int),
        edited_by(bytes, edit).subrange(edit.range.start as int, new_end(edit)) == encode_utf8(
            edit.replacement@,
        ),
        edited_by(bytes, edit).skip(new_end(edit)) == bytes.skip(edit.range.end as int),
        edited(bytes, seq![edit]) == edited_by(bytes, edit),
        edited_in_turn(bytes, seq![edit]) == edited_by(bytes, edit),
{
    let out = edited_by(bytes, edit);
    assert(out.take(edit.range.start as int) =~= bytes.take(edit.range.start as int));
    assert(out.subrange(edit.range.start as int, new_end(edit)) =~= encode_utf8(edit.replacement@));
    assert(out.skip(new_end(edit)) =~= bytes.skip(edit.range.end as int));
    assert(seq![edit].drop_last() =~= Seq::empty());
    reveal_with_fuel(edited, 2);
    reveal_with_fuel(edited_in_turn, 2);
}

/// Edits that are applied one after the other: each finds the text that those before it leave.
pub proof fn lemma_edits_in_turn(bytes: Seq<u8>, first: Seq<TextEdit>, then: Seq<TextEdit>)
    ensures
        edited_in_turn(bytes, first + then) == edited_in_turn(edited_in_turn(bytes, first), then),
        edited_in_turn(bytes, Seq::empty()) == bytes,
    decreases then.len(),
{
    if then.len() == 0 {
        assert(first + then =~= first);
    } else {
        lemma_edits_in_turn(bytes, first, then.drop_last());
        assert((first + then).drop_last() =~= first + then.drop_last());
        assert((first + then).last() == then.last());
    }
}

/// Bytes between two edits that lie apart stay, moved by what the edits before them have put in and
/// taken out.
pub proof fn lemma_edited_keeps_what_is_between(bytes: Seq<u8>, edits: Seq<TextEdit>, at: int)
    requires
        lie_within(edits, bytes.len() as int),
        0 <= at,
        at + 1 < edits.len(),
    ensures
        ({
            let (from, to) = (edits[at].range.end as int, edits[at + 1].range.start as int);
            let by = shift_of_all(edits.take(at + 1));
            &&& 0 <= from + by <= to + by <= edited(bytes, edits).len()
            &&& edited(bytes, edits).subrange(from + by, to + by) == bytes.subrange(from, to)
        }),
    decreases edits.len(),
{
    let last = edits.last();
    let front = edits.drop_last();
    let once = edited_by(bytes, last);
    let (from, to) = (edits[at].range.end as int, edits[at + 1].range.start as int);
    lemma_lie_within_front(edits, bytes.len() as int);
    assert(last.range.start <= last.range.end <= bytes.len()) by {
        assert(edits[edits.len() - 1] == last);
    }
    lemma_lie_within_more(front, last.range.start as int, once.len() as int);
    assert(to <= last.range.start) by {
        if at + 1 < edits.len() - 1 {
            assert(edits[at + 1].range.end <= edits[edits.len() - 1].range.start);
        }
    }
    assert(from <= to);
    assert(once.subrange(from, to) =~= bytes.subrange(from, to));
    if at + 1 < edits.len() - 1 {
        lemma_edited_keeps_what_is_between(once, front, at);
        assert(front.take(at + 1) =~= edits.take(at + 1));
    } else {
        assert(edits.take(at + 1) =~= front);
        lemma_lie_within_front(edits, bytes.len() as int);
        assert forall|i: int| 0 <= i < front.len() implies (#[trigger] front[i]).range.start
            <= front[i].range.end <= from by {
            if i < at {
                assert(edits[i].range.end <= edits[at].range.start);
            }
        }
        lemma_edited_keeps_the_rest(once, front, from);
        let all = edited(bytes, edits);
        let by = shift_of_all(front);
        assert(all.skip(from + by) == once.skip(from));
        assert(all.subrange(from + by, to + by) =~= all.skip(from + by).take(to - from));
        assert(once.subrange(from, to) =~= once.skip(from).take(to - from));
    }
}

/// The edits that are kept are those that put something else in place of what is there, each as
/// often as it was given.
pub proof fn lemma_effective_edits(text: Seq<char>, edits: Seq<TextEdit>)
    ensures
        effective(text, edits) == edits.filter(
            |edit: TextEdit|
                between(text, edit.range.start as int, edit.range.end as int)
                    != edit.replacement@,
        ),
    decreases edits.len(),
{
    let pred = |edit: TextEdit|
        between(text, edit.range.start as int, edit.range.end as int) != edit.replacement@;
    reveal(Seq::filter);
    if edits.len() > 0 {
        lemma_effective_edits(text, edits.drop_last());
    } else {
        assert(edits.filter(pred) =~= Seq::empty());
        assert(effective(text, edits) =~= Seq::empty());
    }
}

/// Edits are refused exactly where one of them does not lie within the text, or where two that
/// change something get in each other's way: the one that begins first, or was given first where
/// both begin together, ends behind the begin of the other. Else those that change something come
/// in the order of the text, each as often as it was given, and one behind the other.
pub proof fn lemma_normalized_edits(text: Seq<char>, edits: Seq<TextEdit>)
    ensures
        normalized(text, edits) matches Some(kept) ==> {
            &&& forall|i: int|
                0 <= i < edits.len() ==> (#[trigger] edits[i]).range.start <= edits[i].range.end
                    <= byte_len(text)
            &&& kept.to_multiset() == edits.filter(
                |edit: TextEdit|
                    between(text, edit.range.start as int, edit.range.end as int)
                        != edit.replacement@,
            ).to_multiset()
            &&& forall|i: int, j: int|
                0 <= i < j < kept.len() ==> (#[trigger] kept[i]).range.start <= (
                #[trigger] kept[j]).range.start && kept[i].range.end <= kept[j].range.start
        },
        normalized(text, edits) is None ==> (exists|i: int|
            0 <= i < edits.len() && !((#[trigger] edits[i]).range.start <= edits[i].range.end
                <= byte_len(text))) || (exists|a: TextEdit, b: TextEdit|
            {
                &&& #[trigger] edits.contains(a)
                &&& #[trigger] edits.contains(b)
                &&& between(text, a.range.start as int, a.range.end as int) != a.replacement@
                &&& between(text, b.range.start as int, b.range.end as int) != b.replacement@
                &&& a.range.start <= b.range.start < a.range.end
            }),
{
    broadcast use vstd::seq_lib::group_to_multiset_ensures;

    let kept = effective(text, edits);
    let ordered = stably_ordered(kept);
    lemma_effective_edits(text, edits);
    lemma_effective_were_given(text, edits);
    lemma_stably_ordered(kept);
    if let Some(out) = normalized(text, edits) {
        assert forall|i: int, j: int| 0 <= i < j < out.len() implies (
        #[trigger] out[i]).range.start <= (#[trigger] out[j]).range.start && out[i].range.end
            <= out[j].range.start by {
            assert(out[i].order_key() <= out[j].order_key());
            assert forall|k: int| 0 <= k < ordered.len() implies (
            #[trigger] ordered[k]).range.start <= ordered[k].range.end by {
                lemma_ordered_were_given(text, edits, k);
            }
            lemma_apart_from_neighbours(ordered, i, j);
        }
        assert forall|i: int| 0 <= i < edits.len() implies (#[trigger] edits[i]).range.start
            <= edits[i].range.end <= byte_len(text) by {
            assert(is_in_range(text, edits[i]));
        }
    } else if all_in_range(text, edits) {
        let (i, j) = choose|i: int, j: int|
            0 <= i < j < ordered.len() && j == i + 1 && (#[trigger] ordered[i]).range.end > (
            #[trigger] ordered[j]).range.start;
        assert(ordered[i].order_key() <= ordered[j].order_key());
        let (a, b) = (ordered[i], ordered[j]);
        lemma_ordered_were_given(text, edits, i);
        lemma_ordered_were_given(text, edits, j);
        assert(edits.contains(a) && edits.contains(b));
    } else {
        let i = choose|i: int| 0 <= i < edits.len() && !is_in_range(text, #[trigger] edits[i]);
        assert(!(edits[i].range.start <= edits[i].range.end <= byte_len(text)));
    }
}

proof fn lemma_ordered_were_given(text: Seq<char>, edits: Seq<TextEdit>, k: int)
    requires
        0 <= k < stably_ordered(effective(text, edits)).len(),
    ensures
        ({
            let edit = stably_ordered(effective(text, edits))[k];
            &&& edits.contains(edit)
            &&& !is_noop(text, edit)
            &&& all_in_range(text, edits) ==> is_in_range(text, edit)
        }),
{
    broadcast use vstd::seq_lib::group_to_multiset_ensures;

    let kept = effective(text, edits);
    let ordered = stably_ordered(kept);
    let edit = ordered[k];
    lemma_stably_ordered(kept);
    lemma_effective_were_given(text, edits);
    lemma_effective_change(text, edits);
    assert(ordered.contains(edit));
    assert(ordered.to_multiset().count(edit) > 0);
    assert(kept.contains(edit));
    let m = choose|m: int| 0 <= m < kept.len() && kept[m] == edit;
    assert(edits.contains(kept[m]));
    let n = choose|n: int| 0 <= n < edits.len() && edits[n] == edit;
    assert(all_in_range(text, edits) ==> is_in_range(text, edits[n]));
}

proof fn lemma_effective_change(text: Seq<char>, edits: Seq<TextEdit>)
    ensures
        forall|i: int|
            0 <= i < effective(text, edits).len() ==> !is_noop(
                text,
                #[trigger] effective(text, edits)[i],
            ),
    decreases edits.len(),
{
    if edits.len() > 0 {
        lemma_effective_change(text, edits.drop_last());
        let front = effective(text, edits.drop_last());
        let all = effective(text, edits);
        assert forall|i: int| 0 <= i < all.len() implies !is_noop(text, #[trigger] all[i]) by {
            if i < front.len() {
                assert(all[i] == front[i]);
            }
        }
    }
}

/// The bytes that an edit touches are those that it takes away and those that it puts in.
pub proof fn lemma_invalidated(edit: TextEdit, byte: int)
    requires
        edit.range.start + byte_len(edit.replacement@) <= u32::MAX,
    ensures
        invalidated(edit).start <= byte < invalidated(edit).end <==> edit.range.start <= byte && (
        byte < edit.range.end || byte < edit.range.start + byte_len(edit.replacement@)),
{
}

} // verus!
