//! Text seen through the byte positions of its UTF-8 encoding.
use vstd::prelude::*;
use vstd::utf8::*;

verus! {

/// The number of bytes that `text` takes.
pub open spec fn byte_len(text: Seq<char>) -> nat {
    encode_utf8(text).len()
}

/// The byte position of the character at `index`.
pub open spec fn byte_at(text: Seq<char>, index: int) -> int {
    byte_len(text.take(index)) as int
}

/// Whether `byte` lies between two characters of `text`, or at one of its ends.
pub open spec fn is_boundary(text: Seq<char>, byte: int) -> bool {
    is_char_boundary(encode_utf8(text), byte)
}

/// Whether both ends of a byte range lie at characters of `text`.
pub open spec fn fits(text: Seq<char>, start: int, end: int) -> bool {
    &&& start <= end
    &&& is_boundary(text, start)
    &&& is_boundary(text, end)
}

/// The part of `text` from byte `start` to byte `end`.
pub open spec fn between(text: Seq<char>, start: int, end: int) -> Seq<char> {
    decode_utf8(encode_utf8(text).subrange(start, end))
}

/// The bytes of two texts put together are the bytes of the one and then of the other.
pub proof fn lemma_encode_concat(a: Seq<char>, b: Seq<char>)
    ensures
        encode_utf8(a + b) == encode_utf8(a) + encode_utf8(b),
    decreases a.len(),
{
    if a.len() == 0 {
        assert(a + b =~= b);
        assert(encode_utf8(a) + encode_utf8(b) =~= encode_utf8(b));
    } else {
        lemma_encode_concat(a.drop_first(), b);
        assert((a + b).drop_first() =~= a.drop_first() + b);
        assert(encode_scalar(a[0] as u32) + (encode_utf8(a.drop_first()) + encode_utf8(b))
            =~= encode_scalar(a[0] as u32) + encode_utf8(a.drop_first()) + encode_utf8(b));
    }
}

/// Texts with the same bytes are the same.
pub proof fn lemma_encode_injective(a: Seq<char>, b: Seq<char>)
    requires
        encode_utf8(a) == encode_utf8(b),
    ensures
        a == b,
{
    encode_utf8_decode_utf8(a);
    encode_utf8_decode_utf8(b);
}

/// A boundary lies within the text.
pub proof fn lemma_boundary_in_text(text: Seq<char>, byte: int)
    requires
        is_boundary(text, byte),
    ensures
        0 <= byte <= byte_len(text),
{
    encode_utf8_valid_utf8(text);
}

/// Both ends of a text are boundaries.
pub proof fn lemma_ends_are_boundaries(text: Seq<char>)
    ensures
        is_boundary(text, 0),
        is_boundary(text, byte_len(text) as int),
{
    encode_utf8_valid_utf8(text);
    is_char_boundary_start_end_of_seq(encode_utf8(text));
}

/// Splits the bytes of `text` at the character `index`.
pub proof fn lemma_take_bytes(text: Seq<char>, index: int)
    requires
        0 <= index <= text.len(),
    ensures
        encode_utf8(text) == encode_utf8(text.take(index)) + encode_utf8(text.skip(index)),
        0 <= byte_at(text, index) <= byte_len(text),
        encode_utf8(text.take(index)) == encode_utf8(text).subrange(0, byte_at(text, index)),
        encode_utf8(text.skip(index)) == encode_utf8(text).subrange(
            byte_at(text, index),
            byte_len(text) as int,
        ),
{
    lemma_encode_concat(text.take(index), text.skip(index));
    assert(text.take(index) + text.skip(index) =~= text);
    assert(encode_utf8(text).subrange(0, byte_at(text, index)) =~= encode_utf8(text.take(index)));
    assert(encode_utf8(text).subrange(byte_at(text, index), byte_len(text) as int) =~= encode_utf8(
        text.skip(index),
    ));
}

/// Characters begin at boundaries.
pub proof fn lemma_byte_at(text: Seq<char>, index: int)
    requires
        0 <= index <= text.len(),
    ensures
        is_boundary(text, byte_at(text, index)),
        0 <= byte_at(text, index) <= byte_len(text),
    decreases text.len(),
{
    lemma_take_bytes(text, index);
    encode_utf8_valid_utf8(text);
    if index == 0 {
        assert(text.take(0) =~= Seq::empty());
    } else {
        let rest = text.drop_first();
        lemma_byte_at(rest, index - 1);
        encode_utf8_first_scalar(text);
        assert(pop_first_scalar(encode_utf8(text)) =~= encode_utf8(rest));
        assert(text.take(index).drop_first() =~= rest.take(index - 1));
        assert(text.take(index)[0] == text[0]);
    }
}

/// At every boundary a character begins, or the text ends.
pub proof fn lemma_boundary_is_character(text: Seq<char>, byte: int) -> (index: int)
    requires
        is_boundary(text, byte),
    ensures
        0 <= index <= text.len(),
        byte_at(text, index) == byte,
    decreases text.len(),
{
    encode_utf8_valid_utf8(text);
    if byte == 0 {
        assert(text.take(0) =~= Seq::empty());
        0
    } else if text.len() == 0 {
        0
    } else {
        let rest = text.drop_first();
        encode_utf8_first_scalar(text);
        assert(pop_first_scalar(encode_utf8(text)) =~= encode_utf8(rest));
        let before = lemma_boundary_is_character(
            rest,
            byte - length_of_first_scalar(encode_utf8(text)),
        );
        let index = before + 1;
        assert(text.take(index).drop_first() =~= rest.take(before));
        assert(text.take(index)[0] == text[0]);
        index
    }
}

/// The later a character, the later its byte.
pub proof fn lemma_byte_at_grows(text: Seq<char>, i: int, j: int)
    requires
        0 <= i < j <= text.len(),
    ensures
        byte_at(text, i) < byte_at(text, j),
{
    let middle = text.subrange(i, j);
    lemma_encode_concat(text.take(i), middle);
    assert(text.take(i) + middle =~= text.take(j));
    assert(encode_utf8(middle).len() > 0) by {
        assert(middle.len() > 0);
        assert(encode_scalar(middle[0] as u32).len() > 0);
    }
}

/// The part of a text between the bytes of two characters is the characters between them.
pub proof fn lemma_between_characters(text: Seq<char>, i: int, j: int)
    requires
        0 <= i <= j <= text.len(),
    ensures
        byte_at(text, i) <= byte_at(text, j),
        between(text, byte_at(text, i), byte_at(text, j)) == text.subrange(i, j),
        encode_utf8(text.subrange(i, j)) == encode_utf8(text).subrange(
            byte_at(text, i),
            byte_at(text, j),
        ),
{
    let middle = text.subrange(i, j);
    lemma_encode_concat(text.take(i), middle);
    assert(text.take(i) + middle =~= text.take(j));
    lemma_take_bytes(text, j);
    assert(encode_utf8(text).subrange(byte_at(text, i), byte_at(text, j)) =~= encode_utf8(middle));
    encode_utf8_decode_utf8(middle);
}

/// The bytes of a part of a text are the text's bytes there.
pub proof fn lemma_between_bytes(text: Seq<char>, start: int, end: int)
    requires
        fits(text, start, end),
    ensures
        0 <= start <= end <= byte_len(text),
        encode_utf8(between(text, start, end)) == encode_utf8(text).subrange(start, end),
        byte_len(between(text, start, end)) == end - start,
{
    let i = lemma_boundary_is_character(text, start);
    let j = lemma_boundary_is_character(text, end);
    lemma_boundary_in_text(text, start);
    lemma_boundary_in_text(text, end);
    if i > j {
        lemma_byte_at_grows(text, j, i);
    }
    lemma_between_characters(text, i, j);
}

/// The whole of a text is the part between its ends.
pub proof fn lemma_between_all(text: Seq<char>)
    ensures
        between(text, 0, byte_len(text) as int) == text,
{
    assert(encode_utf8(text).subrange(0, byte_len(text) as int) =~= encode_utf8(text));
    encode_utf8_decode_utf8(text);
}

/// Where the bytes of one text begin with those of another, the one text begins with the other.
proof fn lemma_byte_prefix(text: Seq<char>, prefix: Seq<char>)
    requires
        encode_utf8(prefix).is_prefix_of(encode_utf8(text)),
    ensures
        prefix.is_prefix_of(text),
    decreases prefix.len(),
{
    if prefix.len() > 0 {
        let whole = encode_utf8(text);
        let head = encode_utf8(prefix);
        encode_utf8_first_scalar(prefix);
        assert(head.len() > 0);
        assert(text.len() > 0);
        encode_utf8_first_scalar(text);
        assert forall|i: int| 0 <= i < head.len() implies head[i] == whole[i] by {
            assert(head == whole.subrange(0, head.len() as int));
        }
        let width = encode_scalar(prefix[0] as u32).len() as int;
        assert(width <= head.len());
        assert(prefix[0] as u32 == text[0] as u32);
        char_u32_cast(prefix[0], prefix[0] as u32);
        char_u32_cast(text[0], text[0] as u32);
        assert(encode_utf8(prefix.drop_first()) =~= head.skip(width));
        assert(encode_utf8(text.drop_first()) =~= whole.skip(width));
        assert(head.skip(width) =~= whole.skip(width).subrange(0, head.len() - width));
        lemma_byte_prefix(text.drop_first(), prefix.drop_first());
        let rest = prefix.drop_first();
        assert(rest == text.drop_first().subrange(0, rest.len() as int));
        assert forall|i: int| 0 <= i < prefix.len() implies prefix[i] == text[i] by {
            if i > 0 {
                assert(prefix[i] == rest[i - 1]);
                assert(text[i] == text.drop_first()[i - 1]);
            }
        }
        assert(prefix.len() <= text.len());
        assert(prefix =~= text.subrange(0, prefix.len() as int));
    } else {
        assert(prefix =~= text.subrange(0, 0));
    }
}

/// The part of a text behind a prefix, if the text begins with that.
pub open spec fn stripped(text: Seq<char>, prefix: Seq<char>) -> Option<Seq<char>> {
    if prefix.is_prefix_of(text) {
        Some(text.skip(prefix.len() as int))
    } else {
        None
    }
}

/// Returns the part of a string behind a prefix, if the string begins with that.
pub fn strip_prefix<'a>(text: &'a str, prefix: &str) -> (rest: Option<&'a str>)
    ensures
        match rest {
            Some(rest) => stripped(text@, prefix@) == Some(rest@),
            None => stripped(text@, prefix@) is None,
        },
{
    let whole = text.as_bytes();
    let head = prefix.as_bytes();
    proof {
        if prefix@.is_prefix_of(text@) {
            lemma_take_bytes(text@, prefix@.len() as int);
            assert(text@.take(prefix@.len() as int) == prefix@);
            assert forall|i: int| 0 <= i < head@.len() implies head@[i] == whole@[i] by {
                assert(head@[i] == whole@.subrange(0, head@.len() as int)[i]);
            }
        }
    }
    if head.len() > whole.len() {
        return None;
    }
    for i in 0..head.len()
        invariant
            whole@ == encode_utf8(text@),
            head@ == encode_utf8(prefix@),
            head.len() <= whole.len(),
            prefix@.is_prefix_of(text@) ==> forall|i: int|
                0 <= i < head@.len() ==> head@[i] == whole@[i],
            forall|k: int| 0 <= k < i ==> head@[k] == whole@[k],
    {
        if head[i] != whole[i] {
            return None;
        }
    }
    proof {
        assert(head@ =~= whole@.subrange(0, head@.len() as int));
        lemma_byte_prefix(text@, prefix@);
        let n = prefix@.len() as int;
        assert(text@.take(n) == prefix@);
        lemma_byte_at(text@, n);
        lemma_ends_are_boundaries(text@);
        lemma_between_characters(text@, n, text@.len() as int);
        assert(text@.take(text@.len() as int) =~= text@);
        assert(text@.subrange(n, text@.len() as int) =~= text@.skip(n));
    }
    Some(str_between(text, head.len(), whole.len()))
}

/// The number of bytes that a string takes.
pub fn str_len(text: &str) -> (len: usize)
    ensures
        len == byte_len(text@),
{
    text.as_bytes().len()
}

/// Whether two strings hold the same text.
pub fn same_text(a: &str, b: &str) -> (same: bool)
    ensures
        same == (a@ == b@),
{
    let a_bytes = a.as_bytes();
    let b_bytes = b.as_bytes();
    if a_bytes.len() != b_bytes.len() {
        return false;
    }
    for i in 0..a_bytes.len()
        invariant
            a_bytes@ == encode_utf8(a@),
            b_bytes@ == encode_utf8(b@),
            a_bytes.len() == b_bytes.len(),
            forall|k: int| 0 <= k < i ==> a_bytes@[k] == b_bytes@[k],
    {
        if a_bytes[i] != b_bytes[i] {
            return false;
        }
    }
    proof {
        assert(a_bytes@ =~= b_bytes@);
        lemma_encode_injective(a@, b@);
    }
    true
}

/// The part of a string between two boundaries.
pub fn str_between(text: &str, start: usize, end: usize) -> (part: &str)
    requires
        fits(text@, start as int, end as int),
    ensures
        part@ == between(text@, start as int, end as int),
{
    let ghost whole = text@;
    let (head, _) = text.split_at(end);
    proof {
        lemma_between_bytes(whole, start as int, end as int);
        lemma_ends_are_boundaries(whole);
        lemma_between_bytes(whole, 0, end as int);
        encode_utf8_decode_utf8(head@);
        encode_utf8_valid_utf8(whole);
        encode_utf8_valid_utf8(head@);
        let i = lemma_boundary_is_character(whole, start as int);
        let j = lemma_boundary_is_character(whole, end as int);
        if i > j {
            lemma_byte_at_grows(whole, j, i);
        }
        lemma_take_bytes(whole, j);
        lemma_encode_injective(head@, whole.take(j));
        assert(whole.take(j).take(i) =~= whole.take(i));
        lemma_byte_at(whole.take(j), i);
    }
    let (_, tail) = head.split_at(start);
    proof {
        encode_utf8_decode_utf8(tail@);
        assert(encode_utf8(tail@) =~= encode_utf8(whole).subrange(start as int, end as int));
    }
    tail
}

} // verus!
