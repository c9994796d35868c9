//! Texts that the engine can parse, and parts of them by their bytes.
use crate::byte_text::{
    between, byte_at, byte_len, fits, is_boundary, lemma_between_characters,
    lemma_boundary_is_character, lemma_byte_at, lemma_byte_at_grows, lemma_ends_are_boundaries,
    str_between, str_len,
};
use crate::rope::{
    builder_append, builder_finish, builder_new, builder_text, joined_texts, rope_clone,
    rope_from_str, rope_slice, rope_text, slice_byte_slice, slice_chunks, slice_len_bytes,
    slice_text, slice_to_string,
};
use ropey::{Rope, RopeSlice};
use std::ops::Range;
use vstd::prelude::*;

verus! {

/// Borrowed text.
pub trait TextSlice {
    /// The characters of the text.
    spec fn slice_chars(&self) -> Seq<char>;

    /// The number of bytes of the text.
    fn len_bytes(&self) -> (len: usize)
        ensures
            len == byte_len(self.slice_chars()),
    ;

    /// The text as a string of its own.
    fn to_owned_string(&self) -> (text: String)
        ensures
            text@ == self.slice_chars(),
    ;
}

/// Text that can return the part that a byte range covers.
pub trait ByteRangeText {
    /// Whether the text has an answer for a range.
    spec fn takes_range(&self, range: Range<u32>) -> bool;

    /// The part that a range covers.
    spec fn range_text(&self, range: Range<u32>) -> Seq<char>;

    /// Returns the part that a range covers.
    fn byte_text(&self, range: Range<u32>) -> (text: String)
        requires
            self.takes_range(range),
        ensures
            text@ == self.range_text(range),
    ;
}

/// Text that can be turned into a rope.
pub trait TextStorage {
    /// The characters of the text.
    spec fn stored_chars(&self) -> Seq<char>;

    /// Returns the text as a rope.
    fn to_rope(&self) -> (rope: Rope)
        ensures
            rope_text(rope) == self.stored_chars(),
    ;
}

/// The text of a document.
#[derive(Debug, Clone, Copy)]
pub struct DocumentText<'a> {
    pub slice: RopeSlice<'a>,
}

impl<'a> DocumentText<'a> {
    /// The text that a slice covers.
    pub(crate) fn new(slice: RopeSlice<'a>) -> (text: Self)
        ensures
            text.slice == slice,
    {
        DocumentText { slice }
    }
}

/// Text in a rope.
#[derive(Debug)]
pub struct RopeText {
    pub rope: Rope,
}

impl Clone for RopeText {
    fn clone(&self) -> (copy: Self)
        ensures
            rope_text(copy.rope) == rope_text(self.rope),
    {
        RopeText { rope: rope_clone(&self.rope) }
    }
}

impl RopeText {
    /// The text of a rope.
    pub fn new(rope: Rope) -> (text: Self)
        ensures
            text.rope == rope,
    {
        RopeText { rope }
    }

    /// A copy of the text that a slice covers.
    pub fn from_slice(slice: RopeSlice<'_>) -> (text: Self)
        ensures
            rope_text(text.rope) == slice_text(slice),
    {
        let chunks = slice_chunks(&slice);
        let mut builder = builder_new();
        assert(chunks@.take(0) =~= Seq::empty());
        for i in 0..chunks.len()
            invariant
                builder_text(builder) == joined_texts(chunks@.take(i as int)),
        {
            builder_append(&mut builder, chunks[i]);
            proof {
                assert(chunks@.take(i + 1).drop_last() =~= chunks@.take(i as int));
                assert(chunks@.take(i + 1).last() == chunks@[i as int]);
            }
        }
        assert(chunks@.take(chunks.len() as int) =~= chunks@);
        RopeText { rope: builder_finish(builder) }
    }
}

/// Text in a string.
#[derive(Debug, PartialEq, Eq)]
pub struct StringText {
    text: String,
}

impl View for StringText {
    type V = Seq<char>;

    closed spec fn view(&self) -> Seq<char> {
        self.text@
    }
}

impl Clone for StringText {
    fn clone(&self) -> (copy: Self)
        ensures
            copy@ == self@,
    {
        StringText { text: self.text.clone() }
    }
}

impl StringText {
    /// Text that a string holds.
    pub fn new(text: &str) -> (stored: Self)
        ensures
            stored@ == text@,
    {
        StringText { text: text.to_owned() }
    }

    /// The string.
    pub fn as_str(&self) -> (text: &str)
        ensures
            text@ == self@,
    {
        self.text.as_str()
    }
}

/// The end of a range, or the end of the text if that comes first.
pub open spec fn clamped_end(range: Range<u32>, len: int) -> int {
    if range.end < len {
        range.end as int
    } else {
        len
    }
}

/// The start of a range, or its clamped end if that comes first.
pub open spec fn clamped_start(range: Range<u32>, len: int) -> int {
    if range.start < clamped_end(range, len) {
        range.start as int
    } else {
        clamped_end(range, len)
    }
}

/// Clamps a byte range to a text of `len` bytes.
pub fn clamp_byte_range(range: Range<u32>, len: u32) -> (clamped: Range<usize>)
    ensures
        clamped.start == clamped_start(range, len as int),
        clamped.end == clamped_end(range, len as int),
        clamped.start <= clamped.end <= len,
{
    let end: u32 = if range.end < len {
        range.end
    } else {
        len
    };
    let start: u32 = if range.start < end {
        range.start
    } else {
        end
    };
    start as usize..end as usize
}

/// The first boundary at or behind a byte of a text.
pub open spec fn boundary_from(text: Seq<char>, byte: int) -> int
    decreases byte_len(text) - byte,
{
    if byte >= byte_len(text) || is_boundary(text, byte) {
        byte
    } else {
        boundary_from(text, byte + 1)
    }
}

/// The last boundary at or before a byte of a text.
pub open spec fn boundary_until(text: Seq<char>, byte: int) -> int
    decreases byte,
{
    if byte <= 0 || is_boundary(text, byte) {
        byte
    } else {
        boundary_until(text, byte - 1)
    }
}

/// The characters that lie wholly inside of a byte range, clamped to the text.
pub open spec fn inner_text(text: Seq<char>, range: Range<u32>) -> Seq<char> {
    let start = boundary_from(text, clamped_start(range, byte_len(text) as int));
    let end = boundary_until(text, clamped_end(range, byte_len(text) as int));
    if start <= end {
        between(text, start, end)
    } else {
        Seq::empty()
    }
}

/// The boundary behind a byte is one, and there is none in between.
pub proof fn lemma_boundary_from(text: Seq<char>, byte: int)
    requires
        0 <= byte <= byte_len(text),
    ensures
        byte <= boundary_from(text, byte) <= byte_len(text),
        is_boundary(text, boundary_from(text, byte)),
        forall|b: int| byte <= b < boundary_from(text, byte) ==> !#[trigger] is_boundary(text, b),
    decreases byte_len(text) - byte,
{
    lemma_ends_are_boundaries(text);
    if byte < byte_len(text) && !is_boundary(text, byte) {
        lemma_boundary_from(text, byte + 1);
    }
}

/// The boundary before a byte is one, and there is none in between.
pub proof fn lemma_boundary_until(text: Seq<char>, byte: int)
    requires
        0 <= byte <= byte_len(text),
    ensures
        0 <= boundary_until(text, byte) <= byte,
        is_boundary(text, boundary_until(text, byte)),
        forall|b: int| boundary_until(text, byte) < b <= byte ==> !#[trigger] is_boundary(text, b),
    decreases byte,
{
    lemma_ends_are_boundaries(text);
    if byte > 0 && !is_boundary(text, byte) {
        lemma_boundary_until(text, byte - 1);
    }
}

/// Clamps a byte range to a string, and moves its ends inward to characters, so that it can always
/// be cut out. A range inside of one character becomes empty.
pub fn clamp_str_byte_range_inward(text: &str, range: Range<u32>) -> (clamped: Range<usize>)
    requires
        byte_len(text@) <= u32::MAX,
    ensures
        fits(text@, clamped.start as int, clamped.end as int),
        between(text@, clamped.start as int, clamped.end as int) == inner_text(text@, range),
{
    let len: u32 = str_len(text) as u32;
    let outer = clamp_byte_range(range, len);
    let mut start: usize = outer.start;
    let mut end: usize = outer.end;
    proof {
        lemma_boundary_from(text@, start as int);
        lemma_boundary_until(text@, end as int);
    }
    while start < len as usize && !text.is_char_boundary(start)
        invariant
            len == byte_len(text@),
            start <= len,
            boundary_from(text@, outer.start as int) == boundary_from(text@, start as int),
        decreases len - start,
    {
        start = start + 1;
    }
    while end > 0 && !text.is_char_boundary(end)
        invariant
            boundary_until(text@, outer.end as int) == boundary_until(text@, end as int),
        decreases end,
    {
        end = end - 1;
    }
    if start > end {
        proof {
            crate::byte_text::lemma_between_bytes(text@, end as int, end as int);
            assert(vstd::utf8::encode_utf8(text@).subrange(end as int, end as int) =~= Seq::empty());
        }
        end..end
    } else {
        start..end
    }
}

impl<'a> TextSlice for RopeSlice<'a> {
    open spec fn slice_chars(&self) -> Seq<char> {
        slice_text(*self)
    }

    fn len_bytes(&self) -> (len: usize) {
        slice_len_bytes(self)
    }

    fn to_owned_string(&self) -> (text: String) {
        slice_to_string(self)
    }
}

impl<'a> TextSlice for DocumentText<'a> {
    open spec fn slice_chars(&self) -> Seq<char> {
        slice_text(self.slice)
    }

    fn len_bytes(&self) -> (len: usize) {
        slice_len_bytes(&self.slice)
    }

    fn to_owned_string(&self) -> (text: String) {
        slice_to_string(&self.slice)
    }
}

impl TextSlice for str {
    open spec fn slice_chars(&self) -> Seq<char> {
        self@
    }

    fn len_bytes(&self) -> (len: usize) {
        str_len(self)
    }

    fn to_owned_string(&self) -> (text: String) {
        self.to_owned()
    }
}

impl TextStorage for RopeText {
    open spec fn stored_chars(&self) -> Seq<char> {
        rope_text(self.rope)
    }

    fn to_rope(&self) -> (rope: Rope) {
        rope_clone(&self.rope)
    }
}

impl TextStorage for StringText {
    open spec fn stored_chars(&self) -> Seq<char> {
        self@
    }

    fn to_rope(&self) -> (rope: Rope) {
        rope_from_str(&self.text)
    }
}

impl TextStorage for Rope {
    open spec fn stored_chars(&self) -> Seq<char> {
        rope_text(*self)
    }

    fn to_rope(&self) -> (rope: Rope) {
        rope_clone(self)
    }
}

impl TextStorage for String {
    open spec fn stored_chars(&self) -> Seq<char> {
        self@
    }

    fn to_rope(&self) -> (rope: Rope) {
        rope_from_str(self)
    }
}

impl TextStorage for str {
    open spec fn stored_chars(&self) -> Seq<char> {
        self@
    }

    fn to_rope(&self) -> (rope: Rope) {
        rope_from_str(self)
    }
}

/// Whether a rope's text has an answer for a byte range: once it is clamped to the text, both of
/// its ends lie at characters.
pub open spec fn cuts_at_characters(text: Seq<char>, range: Range<u32>) -> bool {
    let len = byte_len(text) as int;
    &&& len <= u32::MAX
    &&& fits(text, clamped_start(range, len), clamped_end(range, len))
}

/// The part of a text that a byte range covers, clamped to the text.
pub open spec fn clamped_text(text: Seq<char>, range: Range<u32>) -> Seq<char> {
    let len = byte_len(text) as int;
    between(text, clamped_start(range, len), clamped_end(range, len))
}

/// Returns the part of a slice that a byte range covers, clamped to the slice.
fn slice_byte_text(slice: &RopeSlice<'_>, range: Range<u32>) -> (text: String)
    requires
        cuts_at_characters(slice_text(*slice), range),
    ensures
        text@ == clamped_text(slice_text(*slice), range),
{
    let clamped = clamp_byte_range(range, slice_len_bytes(slice) as u32);
    slice_to_string(&slice_byte_slice(slice, clamped.start, clamped.end))
}

impl ByteRangeText for Rope {
    open spec fn takes_range(&self, range: Range<u32>) -> bool {
        cuts_at_characters(rope_text(*self), range)
    }

    open spec fn range_text(&self, range: Range<u32>) -> Seq<char> {
        clamped_text(rope_text(*self), range)
    }

    fn byte_text(&self, range: Range<u32>) -> (text: String) {
        slice_byte_text(&rope_slice(self), range)
    }
}

impl<'a> ByteRangeText for DocumentText<'a> {
    open spec fn takes_range(&self, range: Range<u32>) -> bool {
        cuts_at_characters(slice_text(self.slice), range)
    }

    open spec fn range_text(&self, range: Range<u32>) -> Seq<char> {
        clamped_text(slice_text(self.slice), range)
    }

    fn byte_text(&self, range: Range<u32>) -> (text: String) {
        slice_byte_text(&self.slice, range)
    }
}

impl ByteRangeText for RopeText {
    open spec fn takes_range(&self, range: Range<u32>) -> bool {
        self.rope.takes_range(range)
    }

    open spec fn range_text(&self, range: Range<u32>) -> Seq<char> {
        self.rope.range_text(range)
    }

    fn byte_text(&self, range: Range<u32>) -> (text: String) {
        self.rope.byte_text(range)
    }
}

impl ByteRangeText for StringText {
    open spec fn takes_range(&self, range: Range<u32>) -> bool {
        byte_len(self@) <= u32::MAX
    }

    open spec fn range_text(&self, range: Range<u32>) -> Seq<char> {
        inner_text(self@, range)
    }

    fn byte_text(&self, range: Range<u32>) -> (text: String) {
        let clamped = clamp_str_byte_range_inward(&self.text, range);
        str_between(&self.text, clamped.start, clamped.end).to_owned()
    }
}

/// Where the ends of a byte range lie at characters, moving them inward changes nothing.
pub proof fn lemma_inner_text_of_fitting_range(text: Seq<char>, range: Range<u32>)
    requires
        cuts_at_characters(text, range),
    ensures
        inner_text(text, range) == clamped_text(text, range),
{
}

/// A clamped range lies within the text, and ends where the range does unless the text ends
/// first. It starts where the range does, unless it has ended by then.
pub proof fn lemma_clamped_range(range: Range<u32>, len: int)
    requires
        0 <= len,
    ensures
        0 <= clamped_start(range, len) <= clamped_end(range, len) <= len,
        range.end <= len ==> clamped_end(range, len) == range.end,
        range.end > len ==> clamped_end(range, len) == len,
        range.start <= range.end && range.start <= len ==> clamped_start(range, len) == range.start,
        range.start > range.end || range.start > len ==> clamped_start(range, len) == clamped_end(
            range,
            len,
        ),
{
}

/// What is cut out of a text are the characters from the one to the other of two indices, and
/// these are just the characters that start and end within the range.
pub proof fn lemma_inner_characters(text: Seq<char>, range: Range<u32>) -> (found: (int, int))
    ensures
        0 <= found.0 <= found.1 <= text.len(),
        inner_text(text, range) == text.subrange(found.0, found.1),
        forall|k: int|
            #![trigger text.take(k)]
            0 <= k < text.len() ==> (found.0 <= k < found.1 <==> range.start <= byte_len(
                text.take(k),
            ) && byte_len(text.take(k + 1)) <= range.end),
{
    let len = byte_len(text) as int;
    let outer_start = clamped_start(range, len);
    let outer_end = clamped_end(range, len);
    lemma_boundary_from(text, outer_start);
    lemma_boundary_until(text, outer_end);
    let start = boundary_from(text, outer_start);
    let end = boundary_until(text, outer_end);
    let i = lemma_boundary_is_character(text, start);
    let j = lemma_boundary_is_character(text, end);
    let to = if start <= end {
        if i > j {
            lemma_byte_at_grows(text, j, i);
        }
        lemma_between_characters(text, i, j);
        j
    } else {
        assert(text.subrange(i, i) =~= Seq::empty());
        i
    };
    assert forall|k: int|
        #![trigger text.take(k)]
        0 <= k < text.len() implies (i <= k < to <==> range.start <= byte_len(text.take(k))
        && byte_len(text.take(k + 1)) <= range.end) by {
        lemma_byte_at(text, k);
        lemma_byte_at(text, k + 1);
        lemma_byte_at_grows(text, k, k + 1);
        assert(is_boundary(text, byte_at(text, k)));
        assert(is_boundary(text, byte_at(text, k + 1)));
        if k < i {
            lemma_byte_at_grows(text, k, i);
        } else if i < k {
            lemma_byte_at_grows(text, i, k);
        }
        if k + 1 < j {
            lemma_byte_at_grows(text, k + 1, j);
        } else if j < k + 1 {
            lemma_byte_at_grows(text, j, k + 1);
        }
    }
    (i, to)
}

} // verus!
