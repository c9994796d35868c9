//! What the library asks of `ropey`: the texts of ropes and of their slices.
use crate::byte_text::{between, byte_at, byte_len, fits, is_boundary};
use ropey::{Rope, RopeBuilder, RopeSlice};
use vstd::prelude::*;

verus! {

#[verifier::external_type_specification]
#[verifier::external_body]
pub struct ExRope(ropey::Rope);

#[verifier::external_type_specification]
#[verifier::external_body]
pub struct ExRopeSlice<'a>(ropey::RopeSlice<'a>);

#[verifier::external_type_specification]
#[verifier::external_body]
pub struct ExRopeBuilder(ropey::RopeBuilder);

#[verifier::external_type_specification]
#[verifier::external_body]
pub struct ExRopeError(ropey::Error);

/// The characters that a rope holds.
pub uninterp spec fn rope_text(rope: Rope) -> Seq<char>;

/// The characters that a slice of a rope covers.
pub uninterp spec fn slice_text(slice: RopeSlice<'_>) -> Seq<char>;

/// The characters that a builder has been given.
pub uninterp spec fn builder_text(builder: RopeBuilder) -> Seq<char>;

/// The byte at which a line of a slice begins, if the slice has that many lines. A slice that was
/// cut inside of a line break counts its lines by the rope around it.
pub uninterp spec fn slice_line_start(slice: RopeSlice<'_>, line: usize) -> Option<usize>;

/// The part of a slice between two bytes.
pub uninterp spec fn sub_slice(slice: RopeSlice<'_>, start: usize, end: usize) -> RopeSlice<'_>;

/// Whether a slice holds its text in one piece, so that `ropey::RopeSlice::as_str` gives it.
pub uninterp spec fn in_one_piece(slice: RopeSlice<'_>) -> bool;

/// Whether a character ends a line.
pub open spec fn is_line_break(c: char) -> bool {
    ||| c == '\u{A}'
    ||| c == '\u{B}'
    ||| c == '\u{C}'
    ||| c == '\u{D}'
    ||| c == '\u{85}'
    ||| c == '\u{2028}'
    ||| c == '\u{2029}'
}

/// Whether a line ends with the character at `index`. A carriage return and the line feed behind
/// it are one line break.
pub open spec fn ends_line(text: Seq<char>, index: int) -> bool {
    &&& is_line_break(text[index])
    &&& !(text[index] == '\u{D}' && index + 1 < text.len() && text[index + 1] == '\u{A}')
}

/// The bytes behind the line breaks among the first `count` characters.
pub open spec fn line_ends_before(text: Seq<char>, count: int) -> Seq<int>
    decreases count,
{
    if count <= 0 {
        Seq::empty()
    } else if ends_line(text, count - 1) {
        line_ends_before(text, count - 1).push(byte_at(text, count))
    } else {
        line_ends_before(text, count - 1)
    }
}

/// The bytes behind the line breaks of a text.
pub open spec fn line_ends(text: Seq<char>) -> Seq<int> {
    line_ends_before(text, text.len() as int)
}

/// The number of lines of a text: one more than it has line breaks.
pub open spec fn line_count(text: Seq<char>) -> int {
    line_ends(text).len() as int + 1
}

/// The byte at which a line begins; behind the last line, the end of the text.
pub open spec fn line_start(text: Seq<char>, line: int) -> int {
    if line <= 0 {
        0
    } else if line < line_count(text) {
        line_ends(text)[line - 1]
    } else {
        byte_len(text) as int
    }
}

/// Whether `line` is the line that a byte belongs to: the line breaks before the byte are the first
/// `line` ones.
pub open spec fn is_line_of(text: Seq<char>, byte: int, line: int) -> bool {
    &&& 0 <= line < line_count(text)
    &&& forall|k: int| 0 <= k < line ==> #[trigger] line_ends(text)[k] <= byte
    &&& forall|k: int| line <= k < line_ends(text).len() ==> byte < #[trigger] line_ends(text)[k]
}

/// Whether the character at `index` is the one that `byte` belongs to; the end of the text counts
/// as one more character.
pub open spec fn is_char_of(text: Seq<char>, byte: int, index: int) -> bool {
    &&& 0 <= index <= text.len()
    &&& byte_at(text, index) <= byte
    &&& index < text.len() ==> byte < byte_at(text, index + 1)
}

/// `ropey::Rope::from_str`: a rope of the given text.
#[verifier::external_body]
pub(crate) fn rope_from_str(text: &str) -> (rope: Rope)
    ensures
        rope_text(rope) == text@,
{
    Rope::from_str(text)
}

/// `ropey::Rope::clone`: a rope of the same text.
#[verifier::external_body]
pub(crate) fn rope_clone(rope: &Rope) -> (copy: Rope)
    ensures
        rope_text(copy) == rope_text(*rope),
{
    rope.clone()
}

/// `ropey::Rope::eq`: whether two ropes hold the same text.
#[verifier::external_body]
pub(crate) fn rope_eq(a: &Rope, b: &Rope) -> (same: bool)
    ensures
        same == (rope_text(*a) == rope_text(*b)),
{
    a == b
}

/// `ropey::Rope::len_bytes`: the number of bytes of the text.
#[verifier::external_body]
pub(crate) fn rope_len_bytes(rope: &Rope) -> (len: usize)
    ensures
        len == byte_len(rope_text(*rope)),
{
    rope.len_bytes()
}

/// `ropey::Rope::len_lines`: the number of lines of the text.
#[verifier::external_body]
pub(crate) fn rope_len_lines(rope: &Rope) -> (len: usize)
    ensures
        len == line_count(rope_text(*rope)),
{
    rope.len_lines()
}

/// `ropey::Rope::line_to_byte`: the byte at which a line begins. It panics behind the line after
/// the last.
#[verifier::external_body]
pub(crate) fn rope_line_to_byte(rope: &Rope, line: usize) -> (byte: usize)
    requires
        line <= line_count(rope_text(*rope)),
    ensures
        byte == line_start(rope_text(*rope), line as int),
{
    rope.line_to_byte(line)
}

/// `ropey::Rope::byte_to_line`: the line that a byte belongs to. It panics behind the end of the
/// text.
#[verifier::external_body]
pub(crate) fn rope_byte_to_line(rope: &Rope, byte: usize) -> (line: usize)
    requires
        byte <= byte_len(rope_text(*rope)),
    ensures
        is_line_of(rope_text(*rope), byte as int, line as int),
{
    rope.byte_to_line(byte)
}

/// `ropey::Rope::try_byte_to_char`: the character that a byte belongs to, or an error behind the
/// end of the text.
#[verifier::external_body]
pub(crate) fn rope_try_byte_to_char(rope: &Rope, byte: usize) -> (res: Result<
    usize,
    ropey::Error,
>)
    ensures
        match res {
            Ok(index) => byte <= byte_len(rope_text(*rope)) && is_char_of(
                rope_text(*rope),
                byte as int,
                index as int,
            ),
            Err(_) => byte > byte_len(rope_text(*rope)),
        },
{
    rope.try_byte_to_char(byte)
}

/// `ropey::Rope::remove`: takes out the characters from `start` to `end`. It panics outside of the
/// text.
#[verifier::external_body]
pub(crate) fn rope_remove(rope: &mut Rope, start: usize, end: usize)
    requires
        start <= end <= rope_text(*old(rope)).len(),
    ensures
        rope_text(*final(rope)) == rope_text(*old(rope)).take(start as int) + rope_text(
            *old(rope),
        ).skip(end as int),
{
    rope.remove(start..end)
}

/// `ropey::Rope::insert`: puts `text` before the character at `index`. It panics behind the end of
/// the text.
#[verifier::external_body]
pub(crate) fn rope_insert(rope: &mut Rope, index: usize, text: &str)
    requires
        index <= rope_text(*old(rope)).len(),
    ensures
        rope_text(*final(rope)) == rope_text(*old(rope)).take(index as int) + text@ + rope_text(
            *old(rope),
        ).skip(index as int),
{
    rope.insert(index, text)
}

/// `ropey::Rope::slice` over the whole rope.
#[verifier::external_body]
pub(crate) fn rope_slice(rope: &Rope) -> (slice: RopeSlice<'_>)
    ensures
        slice_text(slice) == rope_text(*rope),
{
    rope.slice(..)
}

/// `ropey::RopeSlice::len_bytes`: the number of bytes of the text.
#[verifier::external_body]
pub(crate) fn slice_len_bytes(slice: &RopeSlice<'_>) -> (len: usize)
    ensures
        len == byte_len(slice_text(*slice)),
{
    slice.len_bytes()
}

/// `ropey::RopeSlice::to_string`: the text as a string.
#[verifier::external_body]
pub(crate) fn slice_to_string(slice: &RopeSlice<'_>) -> (text: String)
    ensures
        text@ == slice_text(*slice),
{
    slice.to_string()
}

/// `ropey::RopeSlice::get_byte_slice`: the part between two bytes, unless one of them lies outside
/// of the text or inside of a character.
#[verifier::external_body]
pub(crate) fn slice_get_byte_slice<'a>(
    slice: &RopeSlice<'a>,
    start: usize,
    end: usize,
) -> (part: Option<RopeSlice<'a>>)
    ensures
        match part {
            Some(part) => fits(slice_text(*slice), start as int, end as int) && slice_text(part)
                == between(slice_text(*slice), start as int, end as int),
            None => !fits(slice_text(*slice), start as int, end as int),
        },
{
    slice.get_byte_slice(start..end)
}

/// `ropey::RopeSlice::byte_slice`: the part between two bytes. It panics where one of them lies
/// outside of the text or inside of a character.
#[verifier::external_body]
pub(crate) fn slice_byte_slice<'a>(slice: &RopeSlice<'a>, start: usize, end: usize) -> (part:
    RopeSlice<'a>)
    requires
        fits(slice_text(*slice), start as int, end as int),
    ensures
        part == sub_slice(*slice, start, end),
        slice_text(part) == between(slice_text(*slice), start as int, end as int),
{
    slice.byte_slice(start..end)
}

/// `ropey::RopeSlice::try_line_to_byte`: the byte at which a line begins, if there are that many
/// lines. Lines begin between characters.
#[verifier::external_body]
pub(crate) fn slice_try_line_to_byte(slice: &RopeSlice<'_>, line: usize) -> (byte: Option<usize>)
    ensures
        byte == slice_line_start(*slice, line),
        byte matches Some(start) ==> is_boundary(slice_text(*slice), start as int),
{
    slice.try_line_to_byte(line).ok()
}

/// `RopeSlice::from` for a string: a slice over its text, in one piece.
#[verifier::external_body]
pub(crate) fn slice_of_str(text: &str) -> (slice: RopeSlice<'_>)
    ensures
        slice_text(slice) == text@,
        in_one_piece(slice),
{
    RopeSlice::from(text)
}

/// `ropey::RopeSlice::chunks`: the text in pieces, one behind the other.
#[verifier::external_body]
pub(crate) fn slice_chunks<'a>(slice: &RopeSlice<'a>) -> (chunks: Vec<&'a str>)
    ensures
        joined_texts(chunks@) == slice_text(*slice),
{
    slice.chunks().collect()
}

/// The texts of some strings, one behind the other.
pub open spec fn joined_texts(chunks: Seq<&str>) -> Seq<char>
    decreases chunks.len(),
{
    if chunks.len() == 0 {
        Seq::empty()
    } else {
        joined_texts(chunks.drop_last()) + chunks.last()@
    }
}

/// `ropey::RopeBuilder::new`: a builder that has been given nothing.
#[verifier::external_body]
pub(crate) fn builder_new() -> (builder: RopeBuilder)
    ensures
        builder_text(builder) == Seq::<char>::empty(),
{
    RopeBuilder::new()
}

/// `ropey::RopeBuilder::append`: gives the builder more text.
#[verifier::external_body]
pub(crate) fn builder_append(builder: &mut RopeBuilder, chunk: &str)
    ensures
        builder_text(*final(builder)) == builder_text(*old(builder)) + chunk@,
{
    builder.append(chunk)
}

/// `ropey::RopeBuilder::finish`: a rope of the text that the builder was given.
#[verifier::external_body]
pub(crate) fn builder_finish(builder: RopeBuilder) -> (rope: Rope)
    ensures
        rope_text(rope) == builder_text(builder),
{
    builder.finish()
}

/// Line breaks lie within the text, between characters, one behind the other.
pub proof fn lemma_line_ends(text: Seq<char>, count: int)
    requires
        0 <= count <= text.len(),
    ensures
        line_ends_before(text, count).len() <= count,
        forall|k: int|
            0 <= k < line_ends_before(text, count).len() ==> 0 < #[trigger] line_ends_before(
                text,
                count,
            )[k] <= byte_at(text, count) && is_boundary(text, line_ends_before(text, count)[k]),
        forall|k: int, l: int|
            0 <= k < l < line_ends_before(text, count).len() ==> #[trigger] line_ends_before(
                text,
                count,
            )[k] < #[trigger] line_ends_before(text, count)[l],
    decreases count,
{
    if count > 0 {
        lemma_line_ends(text, count - 1);
        crate::byte_text::lemma_byte_at_grows(text, count - 1, count);
        crate::byte_text::lemma_byte_at(text, count);
        crate::byte_text::lemma_byte_at(text, count - 1);
    }
}

/// A line begins within the text.
pub proof fn lemma_line_start(text: Seq<char>, line: int)
    ensures
        0 <= line_start(text, line) <= byte_len(text),
{
    lemma_line_ends(text, text.len() as int);
    if 0 < line < line_count(text) {
        assert(line_ends(text)[line - 1] <= byte_at(text, text.len() as int));
        assert(text.take(text.len() as int) =~= text);
    }
}

/// Lines begin one after the other.
pub proof fn lemma_lines_in_order(text: Seq<char>, first: int, second: int)
    requires
        first <= second,
    ensures
        line_start(text, first) <= line_start(text, second),
{
    lemma_line_ends(text, text.len() as int);
    lemma_line_start(text, first);
    lemma_line_start(text, second);
}

/// The texts of strings are put one behind the other in their order.
pub proof fn lemma_joined_texts(chunks: Seq<&str>)
    ensures
        joined_texts(chunks) == chunks.map_values(|chunk: &str| chunk@).flatten(),
    decreases chunks.len(),
{
    let text = |chunk: &str| chunk@;
    if chunks.len() > 0 {
        let front = chunks.drop_last();
        lemma_joined_texts(front);
        front.map_values(text).lemma_flatten_push(chunks.last()@);
        assert(chunks.map_values(text) =~= front.map_values(text).push(chunks.last()@));
    } else {
        assert(chunks.map_values(text) =~= Seq::empty());
    }
}

} // verus!
