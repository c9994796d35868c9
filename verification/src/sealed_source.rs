//! Windows of a document that can be parsed on their own.
use crate::byte_text::{byte_len, lemma_between_bytes, str_len};
use crate::rope::{
    rope_insert, rope_len_bytes, rope_slice, rope_text, slice_byte_slice, slice_len_bytes,
    slice_text, slice_to_string,
};
use crate::text::{clamp_byte_range, clamped_text, cuts_at_characters, RopeText};
use ropey::{Rope, RopeSlice};
use std::ops::Range;
use vstd::prelude::*;

verus! {

/// A part of a document, with some text behind it that closes it.
#[derive(Debug)]
pub struct SealedSource {
    pub rope: Rope,
    /// The number of bytes that come from the document.
    pub real_len_bytes: u32,
    /// The number of bytes behind them.
    pub suffix_len_bytes: u32,
}

/// The text behind a window that ends it with a line break, if it has none.
pub open spec fn newline_padding(part: Seq<char>) -> Seq<char> {
    if part.len() > 0 && part.last() == '\n' {
        Seq::empty()
    } else {
        seq!['\n']
    }
}

impl View for SealedSource {
    type V = Seq<char>;

    open spec fn view(&self) -> Seq<char> {
        rope_text(self.rope)
    }
}

impl SealedSource {
    /// Seals the part of a document that a byte range covers, clamped to the document, with
    /// `suffix`.
    pub fn from_byte_range(source: RopeSlice<'_>, range: Range<u32>, suffix: &str) -> (sealed: Self)
        requires
            cuts_at_characters(slice_text(source), range),
            byte_len(suffix@) <= u32::MAX,
        ensures
            sealed@ == clamped_text(slice_text(source), range) + suffix@,
            sealed.real_len_bytes == byte_len(clamped_text(slice_text(source), range)),
            sealed.suffix_len_bytes == byte_len(suffix@),
    {
        let clamped = clamp_byte_range(range, slice_len_bytes(&source) as u32);
        let part = slice_byte_slice(&source, clamped.start, clamped.end);
        proof {
            lemma_between_bytes(slice_text(source), clamped.start as int, clamped.end as int);
        }
        let real_len: u32 = slice_len_bytes(&part) as u32;
        let mut rope = RopeText::from_slice(part).rope;
        let ghost text = rope_text(rope);
        let end: usize = char_count(&rope);
        rope_insert(&mut rope, end, suffix);
        assert(text.take(end as int) + suffix@ + text.skip(end as int) =~= text + suffix@);
        SealedSource { rope, real_len_bytes: real_len, suffix_len_bytes: str_len(suffix) as u32 }
    }

    /// Seals the part of a document that a byte range covers, clamped to the document, with a line
    /// break if it does not end with one.
    pub fn from_byte_range_with_newline_padding(source: RopeSlice<'_>, range: Range<u32>) -> (sealed:
        Self)
        requires
            cuts_at_characters(slice_text(source), range),
        ensures
            ({
                let part = clamped_text(slice_text(source), range);
                &&& sealed@ == part + newline_padding(part)
                &&& sealed.real_len_bytes == byte_len(part)
                &&& sealed.suffix_len_bytes == byte_len(newline_padding(part))
            }),
    {
        let clamped = clamp_byte_range(crate::types::copy_range(&range), slice_len_bytes(&source) as u32);
        let part = slice_to_string(&slice_byte_slice(&source, clamped.start, clamped.end));
        let len: usize = part.as_str().unicode_len();
        let suffix: &str = if len > 0 && part.as_str().get_char(len - 1) == '\n' {
            ""
        } else {
            "\n"
        };
        proof {
            reveal_strlit("");
            reveal_strlit("\n");
            assert(suffix@ =~= newline_padding(part@));
            assert(byte_len(suffix@) <= 4) by {
                reveal_with_fuel(vstd::utf8::encode_utf8, 2);
            }
        }
        SealedSource::from_byte_range(source, range, suffix)
    }

    /// The window and what closes it.
    pub fn slice(&self) -> (slice: RopeSlice<'_>)
        ensures
            slice_text(slice) == self@,
    {
        rope_slice(&self.rope)
    }
}

/// The number of characters of a rope.
fn char_count(rope: &Rope) -> (count: usize)
    ensures
        count == rope_text(*rope).len(),
{
    let len: usize = rope_len_bytes(rope);
    let found = crate::rope::rope_try_byte_to_char(rope, len);
    proof {
        let text = rope_text(*rope);
        assert(text.take(text.len() as int) =~= text);
        if let Ok(index) = found {
            if index < text.len() {
                crate::byte_text::lemma_byte_at(text, index + 1);
            }
        }
    }
    match found {
        Ok(index) => index,
        Err(_) => 0,
    }
}

/// A window ends with a line break once it is closed, and holds nothing else that is not of the
/// document. One that ends with a line break of its own is left as it is.
pub proof fn lemma_closed_window(part: Seq<char>)
    ensures
        ({
            let closed = part + newline_padding(part);
            &&& closed.len() > 0 && closed[closed.len() - 1] == '\n'
            &&& closed.take(part.len() as int) == part
            &&& closed.len() <= part.len() + 1
            &&& part.len() > 0 && part[part.len() - 1] == '\n' ==> closed == part
        }),
{
    assert((part + newline_padding(part)).take(part.len() as int) =~= part);
    assert(part + Seq::<char>::empty() =~= part);
}

} // verus!
