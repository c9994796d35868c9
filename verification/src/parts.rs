//! Texts in parts.
use vstd::prelude::*;

verus! {

/// What some strings hold.
pub open spec fn texts_of(strings: Seq<String>) -> Seq<Seq<char>> {
    Seq::new(strings.len(), |i: int| strings[i]@)
}

/// The parts of a text between the places where a separator stands.
pub open spec fn parts_of(text: Seq<char>, separator: char) -> Seq<Seq<char>>
    decreases text.len(),
{
    if text.len() == 0 {
        seq![Seq::empty()]
    } else {
        let parts = parts_of(text.drop_last(), separator);
        if text.last() == separator {
            parts.push(Seq::empty())
        } else {
            parts.drop_last().push(parts.last().push(text.last()))
        }
    }
}

/// Splits a text at a separator.
pub fn split_text(text: &str, separator: char) -> (parts: Vec<String>)
    ensures
        texts_of(parts@) == parts_of(text@, separator),
{
    let ghost whole = text@;
    let len: usize = text.unicode_len();
    let mut parts: Vec<String> = Vec::new();
    let mut start: usize = 0;
    assert(whole.take(0) =~= Seq::empty());
    assert(parts_of(whole.take(0), separator) =~= seq![whole.subrange(0, 0)]);
    for i in 0..len
        invariant
            len == whole.len(),
            whole == text@,
            start <= i,
            parts_of(whole.take(i as int), separator) == texts_of(parts@).push(
                whole.subrange(start as int, i as int),
            ),
    {
        let ghost before = texts_of(parts@);
        proof {
            assert(whole.take(i + 1).drop_last() =~= whole.take(i as int));
            assert(whole.take(i + 1).last() == whole[i as int]);
            assert(before.push(whole.subrange(start as int, i as int)).drop_last() =~= before);
        }
        let ghost part = whole.subrange(start as int, i as int);
        if text.get_char(i) == separator {
            parts.push(text.substring_char(start, i).to_owned());
            assert(texts_of(parts@) =~= before.push(part));
            start = i + 1;
            assert(whole.subrange(start as int, i + 1) =~= Seq::empty());
        } else {
            assert(whole.subrange(start as int, i + 1) =~= part.push(whole[i as int]));
        }
    }
    assert(whole.take(len as int) =~= whole);
    let ghost before = texts_of(parts@);
    parts.push(text.substring_char(start, len).to_owned());
    assert(texts_of(parts@) =~= before.push(whole.subrange(start as int, len as int)));
    parts
}

/// The parts of a text with the separator between them are the text, and none of them holds the
/// separator.
pub proof fn lemma_parts_make_the_text(text: Seq<char>, separator: char)
    ensures
        ({
            let parts = parts_of(text, separator);
            &&& parts.len() > 0
            &&& parts.map_values(|part: Seq<char>| seq![separator] + part).flatten() == seq![
                separator,
            ] + text
            &&& forall|i: int|
                0 <= i < parts.len() ==> !(#[trigger] parts[i]).contains(separator)
        }),
    decreases text.len(),
{
    let parts = parts_of(text, separator);
    let led = |part: Seq<char>| seq![separator] + part;
    if text.len() == 0 {
        assert(parts.map_values(led) =~= seq![seq![separator]]);
        parts.map_values(led).lemma_flatten_one_element();
        assert(seq![separator] + text =~= seq![separator]);
    } else {
        let before = parts_of(text.drop_last(), separator);
        lemma_parts_make_the_text(text.drop_last(), separator);
        let front = before.drop_last().map_values(led);
        assert(before.map_values(led) =~= front.push(led(before.last())));
        front.lemma_flatten_push(led(before.last()));
        if text.last() == separator {
            assert(parts.map_values(led) =~= before.map_values(led).push(seq![separator]));
            before.map_values(led).lemma_flatten_push(seq![separator]);
            assert(seq![separator] + text.drop_last() + seq![separator] =~= seq![separator] + text);
        } else {
            let last = before.last().push(text.last());
            assert(parts.map_values(led) =~= front.push(led(last)));
            front.lemma_flatten_push(led(last));
            assert(front.flatten() + led(last) =~= (front.flatten() + led(before.last())).push(
                text.last(),
            ));
            assert((seq![separator] + text.drop_last()).push(text.last()) =~= seq![separator]
                + text);
            assert forall|i: int| 0 <= i < parts.len() implies !(#[trigger] parts[i]).contains(
                separator,
            ) by {
                if i < parts.len() - 1 {
                    assert(parts[i] == before[i]);
                } else {
                    assert(!before[before.len() - 1].contains(separator));
                    if parts[i].contains(separator) {
                        let k = parts[i].index_of(separator);
                        if k < before.last().len() {
                            assert(before.last()[k] == separator);
                        }
                    }
                }
            }
        }
    }
}

} // verus!
