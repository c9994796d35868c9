//! Carries the injections of a document over a list of edits.
use crate::types::{copy_range, Injection, InputEdit, Language, Layer, Pattern};
use std::ops::Range;
use vstd::prelude::*;

verus! {

/// An injection that was there before the edits, placed where the edits have moved it.
#[derive(Debug)]
pub struct MappedOldInjection {
    pub layer: Layer,
    pub range: Range<u32>,
    pub matched_node_range: Range<u32>,
    pub language: Language,
    pub pattern: Option<Pattern>,
    /// The edits moved the injection.
    pub moved: bool,
    /// The edits changed bytes of the injection.
    pub modified: bool,
}

/// By how many bytes the first `count` edits move what follows them.
pub open spec fn total_shift(edits: Seq<InputEdit>, count: int) -> int
    decreases count,
{
    if count <= 0 {
        0
    } else {
        total_shift(edits, count - 1) + edits[count - 1].shift()
    }
}

/// The first edit at or behind `from` whose old end is not below `bound`.
pub open spec fn first_ending_at(edits: Seq<InputEdit>, from: int, bound: u32) -> int
    decreases edits.len() - from,
{
    if 0 <= from < edits.len() && edits[from].old_end_byte < bound {
        first_ending_at(edits, from + 1, bound)
    } else {
        from
    }
}

/// The first edit at or behind `from` whose old end is above `bound`.
pub open spec fn first_ending_past(edits: Seq<InputEdit>, from: int, bound: u32) -> int
    decreases edits.len() - from,
{
    if 0 <= from < edits.len() && edits[from].old_end_byte <= bound {
        first_ending_past(edits, from + 1, bound)
    } else {
        from
    }
}

/// `value` moved by `offset`, in the arithmetic of unsigned 32-bit numbers.
pub open spec fn shifted(value: u32, offset: int) -> u32 {
    if value + offset >= 0 {
        (value + offset) as u32
    } else {
        (value + offset + 0x1_0000_0000) as u32
    }
}

/// Whether an edit at `at` begins before or at `bound`.
pub open spec fn starts_by(edits: Seq<InputEdit>, at: int, bound: u32) -> bool {
    at < edits.len() && edits[at].start_byte <= bound
}

/// Whether an edit at `at` begins before `bound`.
pub open spec fn starts_before(edits: Seq<InputEdit>, at: int, bound: u32) -> bool {
    at < edits.len() && edits[at].start_byte < bound
}

/// The edits that decide where an injection goes: those before `node` end before the matched node,
/// those before `range` end before the injected bytes, and those before `past` end inside them.
pub struct EditCuts {
    pub node: int,
    pub range: int,
    pub past: int,
}

pub open spec fn edit_cuts(injection: Injection, edits: Seq<InputEdit>, from: int) -> EditCuts {
    let node = first_ending_at(edits, from, injection.matched_node_range.start);
    let range = first_ending_at(edits, node, injection.range.start);
    EditCuts { node, range, past: first_ending_past(edits, range, injection.range.end) }
}

/// Where the injected bytes go.
pub open spec fn mapped_range(injection: Injection, edits: Seq<InputEdit>, from: int) -> Range<u32> {
    let cuts = edit_cuts(injection, edits, from);
    let range = injection.range;
    if starts_by(edits, cuts.past, range.end) && starts_before(edits, cuts.past, range.start) {
        let at = shifted(edits[cuts.past].new_end_byte, total_shift(edits, cuts.past));
        Range { start: at, end: at }
    } else {
        Range {
            start: if cuts.range < cuts.past && starts_before(edits, cuts.range, range.start) {
                shifted(edits[cuts.range].new_end_byte, total_shift(edits, cuts.range))
            } else {
                shifted(range.start, total_shift(edits, cuts.range))
            },
            end: shifted(range.end, total_shift(edits, cuts.past)),
        }
    }
}

/// Where the matched node goes.
pub open spec fn mapped_node_range(injection: Injection, edits: Seq<InputEdit>, from: int) -> Range<
    u32,
> {
    let cuts = edit_cuts(injection, edits, from);
    let node = injection.matched_node_range;
    if starts_by(edits, cuts.past, node.end) && starts_before(edits, cuts.past, node.start) {
        let at = shifted(edits[cuts.past].new_end_byte, total_shift(edits, cuts.past));
        Range { start: at, end: at }
    } else {
        Range {
            start: if starts_by(edits, cuts.node, node.start) {
                shifted(edits[cuts.node].new_end_byte, total_shift(edits, cuts.node))
            } else {
                shifted(node.start, total_shift(edits, cuts.node))
            },
            end: shifted(node.end, total_shift(edits, cuts.past)),
        }
    }
}

/// Whether the edits move the injection.
pub open spec fn is_moved(injection: Injection, edits: Seq<InputEdit>, from: int) -> bool {
    let cuts = edit_cuts(injection, edits, from);
    ||| total_shift(edits, cuts.range) != 0
    ||| cuts.range < cuts.past && starts_before(edits, cuts.range, injection.range.start)
}

/// Whether the edits change bytes of the injection.
pub open spec fn is_modified(injection: Injection, edits: Seq<InputEdit>, from: int) -> bool {
    let cuts = edit_cuts(injection, edits, from);
    ||| cuts.range < cuts.past && !starts_before(edits, cuts.range, injection.range.start)
    ||| starts_by(edits, cuts.past, injection.range.end)
}

/// What becomes of `injection` when the edits before `from` lie before it.
pub open spec fn mapped_injection(
    injection: Injection,
    language: Language,
    pattern: Option<Pattern>,
    edits: Seq<InputEdit>,
    from: int,
) -> MappedOldInjection {
    MappedOldInjection {
        layer: injection.layer,
        range: mapped_range(injection, edits, from),
        matched_node_range: mapped_node_range(injection, edits, from),
        language,
        pattern,
        moved: is_moved(injection, edits, from),
        modified: is_modified(injection, edits, from),
    }
}

/// The first edit that the injection at `index` looks at: where its predecessor stopped.
pub open spec fn edits_done(injections: Seq<Injection>, edits: Seq<InputEdit>, index: int) -> int
    decreases index,
{
    if index <= 0 {
        0
    } else {
        edit_cuts(injections[index - 1], edits, edits_done(injections, edits, index - 1)).past
    }
}

/// The edits, applied one after another, keep `value` below the limit of two gibibytes.
pub open spec fn stays_small(edits: Seq<InputEdit>, value: u32) -> bool {
    &&& value <= i32::MAX
    &&& forall|count: int|
        0 <= count <= edits.len() ==> value + #[trigger] total_shift(edits, count) <= i32::MAX
}

/// The edits keep every offset of a document below the limit of two gibibytes.
pub open spec fn edits_stay_small(edits: Seq<InputEdit>) -> bool {
    &&& forall|i: int|
        0 <= i < edits.len() ==> (#[trigger] edits[i]).is_small() && stays_small(
            edits,
            edits[i].new_end_byte,
        )
    &&& forall|count: int|
        0 <= count <= edits.len() ==> i32::MIN <= #[trigger] total_shift(edits, count) <= i32::MAX
}

/// The edits keep the ends of an injection below the limit of two gibibytes.
pub open spec fn injection_stays_small(edits: Seq<InputEdit>, injection: Injection) -> bool {
    &&& stays_small(edits, injection.range.start)
    &&& stays_small(edits, injection.range.end)
    &&& stays_small(edits, injection.matched_node_range.start)
    &&& stays_small(edits, injection.matched_node_range.end)
}

/// An offset read as a signed number of 32 bits.
pub open spec fn as_signed(value: u32) -> int {
    if value <= i32::MAX {
        value as int
    } else {
        value - 0x1_0000_0000
    }
}

/// Moves an offset by a number of bytes.
pub fn shift_by_offset(value: u32, offset: i32) -> (moved: u32)
    requires
        i32::MIN <= as_signed(value) + offset <= i32::MAX,
    ensures
        as_signed(moved) == as_signed(value) + offset,
        value <= i32::MAX ==> moved == shifted(value, offset as int),
        0 <= value + offset <= u32::MAX ==> moved == value + offset,
{
    let signed: i32 = value as i32;
    assert(value <= 0x7fff_ffff ==> signed == value) by (bit_vector)
        requires
            signed == value as i32,
    ;
    assert(value > 0x7fff_ffff ==> signed == value - 0x1_0000_0000) by (bit_vector)
        requires
            signed == value as i32,
    ;
    let sum: i32 = signed + offset;
    assert(sum < 0 ==> sum as u32 == sum + 0x1_0000_0000) by (bit_vector);
    sum as u32
}

proof fn lemma_cut_bounds(edits: Seq<InputEdit>, from: int, bound: u32)
    requires
        0 <= from <= edits.len(),
    ensures
        from <= first_ending_at(edits, from, bound) <= edits.len(),
        from <= first_ending_past(edits, from, bound) <= edits.len(),
        first_ending_past(edits, from, bound) > from <==> from < edits.len()
            && edits[from].old_end_byte <= bound,
    decreases edits.len() - from,
{
    if from < edits.len() {
        lemma_cut_bounds(edits, from + 1, bound);
    }
}

/// Steps over the edits whose old end is below `bound`.
fn skip_ending_before(edits: &[InputEdit], from: usize, offset: i32, bound: u32) -> (res: (
    usize,
    i32,
))
    requires
        from <= edits.len(),
        edits_stay_small(edits@),
        offset == total_shift(edits@, from as int),
    ensures
        res.0 == first_ending_at(edits@, from as int, bound),
        from <= res.0 <= edits.len(),
        res.1 == total_shift(edits@, res.0 as int),
{
    let mut at: usize = from;
    let mut offset: i32 = offset;
    while at < edits.len() && edits[at].old_end_byte < bound
        invariant
            from <= at <= edits.len(),
            edits_stay_small(edits@),
            offset == total_shift(edits@, at as int),
            first_ending_at(edits@, from as int, bound) == first_ending_at(
                edits@,
                at as int,
                bound,
            ),
        decreases edits.len() - at,
    {
        assert(total_shift(edits@, at + 1) == offset + edits@[at as int].shift());
        offset = offset + edits[at].offset();
        at = at + 1;
    }
    (at, offset)
}

/// Steps over the edits whose old end is not above `bound`.
fn skip_ending_by(edits: &[InputEdit], from: usize, offset: i32, bound: u32) -> (res: (usize, i32))
    requires
        from <= edits.len(),
        edits_stay_small(edits@),
        offset == total_shift(edits@, from as int),
    ensures
        res.0 == first_ending_past(edits@, from as int, bound),
        from <= res.0 <= edits.len(),
        res.1 == total_shift(edits@, res.0 as int),
{
    let mut at: usize = from;
    let mut offset: i32 = offset;
    while at < edits.len() && edits[at].old_end_byte <= bound
        invariant
            from <= at <= edits.len(),
            edits_stay_small(edits@),
            offset == total_shift(edits@, at as int),
            first_ending_past(edits@, from as int, bound) == first_ending_past(
                edits@,
                at as int,
                bound,
            ),
        decreases edits.len() - at,
    {
        assert(total_shift(edits@, at + 1) == offset + edits@[at as int].shift());
        offset = offset + edits[at].offset();
        at = at + 1;
    }
    (at, offset)
}

/// Carries one injection over the edits. The edits before `from` lie before the injection; the
/// second part of the result is where the next injection goes on.
pub fn map_old_injection(
    old_injection: &Injection,
    language: Language,
    pattern: Option<Pattern>,
    edits: &[InputEdit],
    from: usize,
    offset: i32,
) -> (res: (MappedOldInjection, usize, i32))
    requires
        from <= edits.len(),
        edits_stay_small(edits@),
        injection_stays_small(edits@, *old_injection),
        offset == total_shift(edits@, from as int),
    ensures
        res.0 == mapped_injection(*old_injection, language, pattern, edits@, from as int),
        res.1 == edit_cuts(*old_injection, edits@, from as int).past,
        from <= res.1 <= edits.len(),
        res.2 == total_shift(edits@, res.1 as int),
{
    let node = &old_injection.matched_node_range;
    let range = &old_injection.range;
    let ghost cuts = edit_cuts(*old_injection, edits@, from as int);

    let (at_node, node_offset) = skip_ending_before(edits, from, offset, node.start);
    let mut node_start: u32 = shift_by_offset(node.start, node_offset);
    if at_node < edits.len() && edits[at_node].start_byte <= node.start {
        // An edit that swallows the old start leaves the end of its replacement there.
        node_start = shift_by_offset(edits[at_node].new_end_byte, node_offset);
    }
    let (at_range, range_offset) = skip_ending_before(edits, at_node, node_offset, range.start);
    let mut moved: bool = range_offset != 0;
    let mut modified: bool = false;
    let mut start: u32 = shift_by_offset(range.start, range_offset);
    let (at_past, past_offset) = skip_ending_by(edits, at_range, range_offset, range.end);
    proof {
        lemma_cut_bounds(edits@, at_range as int, range.end);
    }
    if at_range < at_past {
        if edits[at_range].start_byte < range.start {
            moved = true;
            start = shift_by_offset(edits[at_range].new_end_byte, range_offset);
        } else {
            modified = true;
        }
    }
    let mut end: u32 = shift_by_offset(range.end, past_offset);
    let mut node_end: u32 = shift_by_offset(node.end, past_offset);
    if at_past < edits.len() {
        let edit = &edits[at_past];
        if edit.start_byte <= range.end {
            modified = true;
            if edit.start_byte < range.start {
                start = shift_by_offset(edit.new_end_byte, past_offset);
                end = start;
            }
        }
        if edit.start_byte <= node.end && edit.start_byte < node.start {
            node_start = shift_by_offset(edit.new_end_byte, past_offset);
            node_end = node_start;
        }
    }
    (
        MappedOldInjection {
            layer: old_injection.layer,
            range: start..end,
            matched_node_range: node_start..node_end,
            language,
            pattern,
            moved,
            modified,
        },
        at_past,
        past_offset,
    )
}

/// Carries the injections of a layer, which are in document order, over the edits.
pub fn map_old_injections<F: Fn(Layer) -> (Language, Option<Pattern>)>(
    old_injections: &Vec<Injection>,
    edits: &[InputEdit],
    layer_info: F,
) -> (mapped: Vec<MappedOldInjection>)
    requires
        forall|i: int|
            0 <= i < old_injections.len() ==> call_requires(
                layer_info,
                ((#[trigger] old_injections@[i]).layer,),
            ),
        edits.len() > 0 ==> edits_stay_small(edits@),
        edits.len() > 0 ==> forall|i: int|
            0 <= i < old_injections.len() ==> injection_stays_small(
                edits@,
                #[trigger] old_injections@[i],
            ),
    ensures
        mapped.len() == old_injections.len(),
        forall|i: int|
            0 <= i < mapped.len() ==> {
                &&& call_ensures(
                    layer_info,
                    (old_injections@[i].layer,),
                    (mapped@[i].language, mapped@[i].pattern),
                )
                &&& #[trigger] mapped@[i] == mapped_injection(
                    old_injections@[i],
                    mapped@[i].language,
                    mapped@[i].pattern,
                    edits@,
                    edits_done(old_injections@, edits@, i),
                )
            },
{
    let mut mapped: Vec<MappedOldInjection> = Vec::with_capacity(old_injections.len());
    let mut from: usize = 0;
    let mut offset: i32 = 0;
    for i in 0..old_injections.len()
        invariant
            forall|i: int|
            0 <= i < old_injections.len() ==> call_requires(
                layer_info,
                ((#[trigger] old_injections@[i]).layer,),
            ),
            edits.len() > 0 ==> edits_stay_small(edits@),
            edits.len() > 0 ==> forall|i: int|
                0 <= i < old_injections.len() ==> injection_stays_small(
                    edits@,
                    #[trigger] old_injections@[i],
                ),
            from <= edits.len(),
            offset == total_shift(edits@, from as int),
            from == edits_done(old_injections@, edits@, i as int),
            mapped.len() == i,
            forall|k: int|
                0 <= k < i ==> {
                    &&& call_ensures(
                        layer_info,
                        (old_injections@[k].layer,),
                        (mapped@[k].language, mapped@[k].pattern),
                    )
                    &&& #[trigger] mapped@[k] == mapped_injection(
                        old_injections@[k],
                        mapped@[k].language,
                        mapped@[k].pattern,
                        edits@,
                        edits_done(old_injections@, edits@, k),
                    )
                },
    {
        let old_injection = &old_injections[i];
        let (language, pattern) = layer_info(old_injection.layer);
        if edits.len() == 0 {
            mapped.push(
                MappedOldInjection {
                    layer: old_injection.layer,
                    range: copy_range(&old_injection.range),
                    matched_node_range: copy_range(&old_injection.matched_node_range),
                    language,
                    pattern,
                    moved: false,
                    modified: false,
                },
            );
        } else {
            let (entry, next, next_offset) = map_old_injection(
                old_injection,
                language,
                pattern,
                edits,
                from,
                offset,
            );
            mapped.push(entry);
            from = next;
            offset = next_offset;
        }
    }
    mapped
}

/// Without edits, every injection stays where it is, untouched.
pub proof fn lemma_no_edits_keep_injections(
    injection: Injection,
    language: Language,
    pattern: Option<Pattern>,
)
    ensures
        ({
            let mapped = mapped_injection(injection, language, pattern, Seq::empty(), 0);
            &&& mapped.range == injection.range
            &&& mapped.matched_node_range == injection.matched_node_range
            &&& !mapped.moved
            &&& !mapped.modified
        }),
{
}

proof fn lemma_all_end_before(edits: Seq<InputEdit>, from: int, bound: u32)
    requires
        0 <= from <= edits.len(),
        forall|i: int| 0 <= i < edits.len() ==> (#[trigger] edits[i]).old_end_byte < bound,
    ensures
        first_ending_at(edits, from, bound) == edits.len(),
    decreases edits.len() - from,
{
    if from < edits.len() {
        lemma_all_end_before(edits, from + 1, bound);
    }
}

/// Edits that all end before the matched node move the injection as a whole, by what they add or
/// take away, and leave its bytes alone.
pub proof fn lemma_edits_before_only_move(
    injection: Injection,
    language: Language,
    pattern: Option<Pattern>,
    edits: Seq<InputEdit>,
)
    requires
        forall|i: int|
            0 <= i < edits.len() ==> (#[trigger] edits[i]).old_end_byte
                < injection.matched_node_range.start,
    ensures
        ({
            let mapped = mapped_injection(injection, language, pattern, edits, 0);
            let by = total_shift(edits, edits.len() as int);
            &&& mapped.range.start == shifted(injection.range.start, by)
            &&& mapped.range.end == shifted(injection.range.end, by)
            &&& mapped.matched_node_range.start == shifted(injection.matched_node_range.start, by)
            &&& mapped.matched_node_range.end == shifted(injection.matched_node_range.end, by)
            &&& mapped.moved == (by != 0)
            &&& !mapped.modified
        }),
{
    lemma_all_end_before(edits, 0, injection.matched_node_range.start);
}

/// Whether `most` is the farthest that the edits, one after another, move what follows them.
pub open spec fn is_farthest(edits: Seq<InputEdit>, most: int) -> bool {
    &&& forall|count: int|
        0 <= count <= edits.len() ==> #[trigger] total_shift(edits, count) <= most
    &&& exists|count: int|
        0 <= count <= edits.len() && #[trigger] total_shift(edits, count) == most
}

/// Where the farthest move leaves a value small, every move does.
proof fn lemma_farthest_decides(edits: Seq<InputEdit>, most: int, value: u32)
    requires
        is_farthest(edits, most),
    ensures
        stays_small(edits, value) == (value <= i32::MAX && value + most <= i32::MAX),
{
    let count = choose|count: int|
        0 <= count <= edits.len() && #[trigger] total_shift(edits, count) == most;
    assert(total_shift(edits, count) == most);
}

/// Computes the farthest that edits move what follows them; there is no answer where the edits do
/// not keep every offset small.
pub fn farthest_shift(edits: &[InputEdit]) -> (most: Option<i64>)
    ensures
        match most {
            Some(most) => edits_stay_small(edits@) && is_farthest(edits@, most as int),
            None => !edits_stay_small(edits@),
        },
{
    let mut shift: i64 = 0;
    let mut most: i64 = 0;
    assert(total_shift(edits@, 0) == 0);
    for i in 0..edits.len()
        invariant
            shift == total_shift(edits@, i as int),
            i32::MIN <= shift <= i32::MAX,
            0 <= most <= i32::MAX,
            forall|count: int|
                0 <= count <= i ==> i32::MIN <= #[trigger] total_shift(edits@, count) <= most,
            exists|count: int| 0 <= count <= i && #[trigger] total_shift(edits@, count) == most,
            forall|k: int| 0 <= k < i ==> (#[trigger] edits@[k]).is_small(),
    {
        if edits[i].old_end_byte > i32::MAX as u32 || edits[i].new_end_byte > i32::MAX as u32 {
            assert(!edits@[i as int].is_small());
            return None;
        }
        let ghost before = most;
        shift = shift + (edits[i].new_end_byte as i64 - edits[i].old_end_byte as i64);
        assert(shift == total_shift(edits@, i + 1));
        if shift < i32::MIN as i64 || shift > i32::MAX as i64 {
            return None;
        }
        if shift > most {
            most = shift;
        } else {
            proof {
                let count = choose|count: int|
                    0 <= count <= i && #[trigger] total_shift(edits@, count) == before;
                assert(total_shift(edits@, count) == most);
            }
        }
    }
    for i in 0..edits.len()
        invariant
            is_farthest(edits@, most as int),
            0 <= most <= i32::MAX,
            forall|count: int|
                0 <= count <= edits.len() ==> i32::MIN <= #[trigger] total_shift(edits@, count)
                    <= i32::MAX,
            forall|k: int| 0 <= k < edits.len() ==> (#[trigger] edits@[k]).is_small(),
            forall|k: int|
                0 <= k < i ==> stays_small(edits@, (#[trigger] edits@[k]).new_end_byte),
    {
        proof {
            lemma_farthest_decides(edits@, most as int, edits@[i as int].new_end_byte);
        }
        if edits[i].new_end_byte as i64 + most > i32::MAX as i64 {
            return None;
        }
    }
    Some(most)
}

/// Tells whether edits that move what follows them by at most `most` keep an offset small.
fn keeps_small(edits: &[InputEdit], most: i64, value: u32) -> (small: bool)
    requires
        is_farthest(edits@, most as int),
        most <= i32::MAX,
    ensures
        small == stays_small(edits@, value),
{
    proof {
        lemma_farthest_decides(edits@, most as int, value);
        assert(total_shift(edits@, 0) == 0);
    }
    value <= i32::MAX as u32 && value as i64 + most <= i32::MAX as i64
}

/// Tells whether edits that move what follows them by at most `most` keep the ends of an injection
/// small.
pub fn keeps_injection_small(edits: &[InputEdit], most: i64, injection: &Injection) -> (small: bool)
    requires
        is_farthest(edits@, most as int),
        most <= i32::MAX,
    ensures
        small == injection_stays_small(edits@, *injection),
{
    keeps_small(edits, most, injection.range.start) && keeps_small(edits, most, injection.range.end)
        && keeps_small(edits, most, injection.matched_node_range.start) && keeps_small(
        edits,
        most,
        injection.matched_node_range.end,
    )
}

/// What one edit does to an injection whose bytes lie in its node. An edit that ends before the
/// node moves all of it; one that begins behind the node leaves it; one inside the injected bytes
/// changes them and moves their end; one that covers them leaves nothing of them; one that covers
/// their begin moves it to where the edit now ends; one that covers their end changes them.
pub proof fn lemma_one_edit_of_an_injection(
    injection: Injection,
    language: Language,
    pattern: Option<Pattern>,
    edit: InputEdit,
)
    requires
        injection.matched_node_range.start <= injection.range.start <= injection.range.end
            <= injection.matched_node_range.end,
        edit.start_byte <= edit.old_end_byte,
        edit.start_byte <= edit.new_end_byte,
        injection.matched_node_range.end + edit.new_end_byte <= i32::MAX,
        edit.old_end_byte <= i32::MAX,
    ensures
        ({
            let mapped = mapped_injection(injection, language, pattern, seq![edit], 0);
            let (range, node) = (injection.range, injection.matched_node_range);
            let by = edit.new_end_byte - edit.old_end_byte;
            &&& mapped.layer == injection.layer
            &&& mapped.language == language
            &&& mapped.pattern == pattern
            &&& edit.old_end_byte < node.start ==> {
                &&& mapped.range.start == range.start + by
                &&& mapped.range.end == range.end + by
                &&& mapped.matched_node_range.start == node.start + by
                &&& mapped.matched_node_range.end == node.end + by
                &&& mapped.moved == (by != 0)
                &&& !mapped.modified
            }
            &&& edit.start_byte > node.end ==> {
                &&& mapped.range == range
                &&& mapped.matched_node_range == node
                &&& !mapped.moved
                &&& !mapped.modified
            }
            &&& range.start <= edit.start_byte && edit.old_end_byte <= range.end ==> {
                &&& mapped.range.start == range.start
                &&& mapped.range.end == range.end + by
                &&& mapped.matched_node_range.end == node.end + by
                &&& !mapped.moved
                &&& mapped.modified
            }
            &&& edit.start_byte < range.start && edit.old_end_byte > range.end ==> {
                &&& mapped.range.start == edit.new_end_byte
                &&& mapped.range.end == edit.new_end_byte
                &&& mapped.modified
            }
            &&& edit.start_byte < range.start && range.start <= edit.old_end_byte <= range.end ==> {
                &&& mapped.range.start == edit.new_end_byte
                &&& mapped.range.end == range.end + by
                &&& mapped.moved
                &&& !mapped.modified
            }
            &&& range.start <= edit.start_byte <= range.end < edit.old_end_byte ==> {
                &&& mapped.range == range
                &&& !mapped.moved
                &&& mapped.modified
            }
            &&& node.start < edit.start_byte <= edit.old_end_byte <= node.end
                ==> mapped.matched_node_range.start == node.start
        }),
{
    let edits = seq![edit];
    let (range, node) = (injection.range, injection.matched_node_range);
    assert(edits[0] == edit);
    assert(total_shift(edits, 0) == 0);
    assert(total_shift(edits, 1) == edit.new_end_byte - edit.old_end_byte) by {
        reveal_with_fuel(total_shift, 2);
    }
    reveal_with_fuel(first_ending_at, 3);
    reveal_with_fuel(first_ending_past, 3);
}

/// Edits that begin behind the node of an injection do nothing to it, whatever comes before them.
pub proof fn lemma_edits_behind_do_nothing(
    injection: Injection,
    language: Language,
    pattern: Option<Pattern>,
    edits: Seq<InputEdit>,
    behind: Seq<InputEdit>,
)
    requires
        injection.matched_node_range.start <= injection.range.start <= injection.range.end
            <= injection.matched_node_range.end,
        forall|i: int|
            0 <= i < behind.len() ==> injection.matched_node_range.end < (
            #[trigger] behind[i]).start_byte <= behind[i].old_end_byte,
    ensures
        ({
            let mapped = mapped_injection(injection, language, pattern, edits, 0);
            let all = mapped_injection(injection, language, pattern, edits + behind, 0);
            &&& all.range == mapped.range
            &&& all.matched_node_range == mapped.matched_node_range
            &&& all.moved == mapped.moved
            &&& all.modified == mapped.modified
        }),
{
    let all = edits + behind;
    let (range, node) = (injection.range, injection.matched_node_range);
    lemma_cuts_of_more(edits, behind, 0, node.start);
    let a = first_ending_at(edits, 0, node.start);
    lemma_cut_bounds(edits, 0, node.start);
    lemma_cuts_of_more(edits, behind, a, range.start);
    let b = first_ending_at(edits, a, range.start);
    lemma_cut_bounds(edits, a, range.start);
    lemma_cuts_of_more(edits, behind, b, range.end);
    let c = first_ending_past(edits, b, range.end);
    lemma_cut_bounds(edits, b, range.end);
    lemma_shift_of_more(edits, behind, a);
    lemma_shift_of_more(edits, behind, b);
    lemma_shift_of_more(edits, behind, c);
    assert forall|at: int, bound: u32|
        0 <= at <= edits.len() && bound <= node.end implies #[trigger] starts_by(all, at, bound)
        == starts_by(edits, at, bound) && starts_before(all, at, bound) == starts_before(
        edits,
        at,
        bound,
    ) by {
        if at == edits.len() && behind.len() > 0 {
            assert(all[at] == behind[0]);
        } else if at < edits.len() {
            assert(all[at] == edits[at]);
        }
    }
    assert(starts_by(all, c, range.end) == starts_by(edits, c, range.end));
    assert(starts_by(all, c, node.end) == starts_by(edits, c, node.end));
    assert(starts_by(all, c, node.start) == starts_by(edits, c, node.start));
    assert(starts_by(all, c, range.start) == starts_by(edits, c, range.start));
    assert(starts_by(all, b, range.start) == starts_by(edits, b, range.start));
    assert(starts_by(all, a, node.start) == starts_by(edits, a, node.start));
    assert(a < edits.len() ==> all[a] == edits[a]);
    assert(b < edits.len() ==> all[b] == edits[b]);
    assert(c < edits.len() ==> all[c] == edits[c]);
}

proof fn lemma_cuts_of_more(edits: Seq<InputEdit>, behind: Seq<InputEdit>, from: int, bound: u32)
    requires
        0 <= from <= edits.len(),
        forall|i: int|
            0 <= i < behind.len() ==> bound < (#[trigger] behind[i]).start_byte
                <= behind[i].old_end_byte,
    ensures
        first_ending_at(edits + behind, from, bound) == first_ending_at(edits, from, bound),
        first_ending_past(edits + behind, from, bound) == first_ending_past(edits, from, bound),
    decreases edits.len() - from,
{
    let all = edits + behind;
    if from < edits.len() {
        assert(all[from] == edits[from]);
        lemma_cuts_of_more(edits, behind, from + 1, bound);
    } else if behind.len() > 0 {
        assert(all[from] == behind[0]);
    }
}

proof fn lemma_shift_of_more(edits: Seq<InputEdit>, behind: Seq<InputEdit>, count: int)
    requires
        0 <= count <= edits.len(),
    ensures
        total_shift(edits + behind, count) == total_shift(edits, count),
    decreases count,
{
    if count > 0 {
        lemma_shift_of_more(edits, behind, count - 1);
        assert((edits + behind)[count - 1] == edits[count - 1]);
    }
}

/// What edits move is what each of them puts in and takes away.
pub proof fn lemma_total_shift(edits: Seq<InputEdit>, edit: InputEdit)
    ensures
        total_shift(edits.push(edit), edits.len() as int + 1) == total_shift(edits, edits.len() as int)
            + edit.new_end_byte - edit.old_end_byte,
        total_shift(Seq::empty(), 0) == 0,
{
    lemma_shift_of_more(edits, seq![edit], edits.len() as int);
    assert(edits.push(edit) =~= edits + seq![edit]);
}

/// An injection is moved as if it were the only one, provided the injections lie in their nodes,
/// and the node of each begins behind the bytes of those before it.
pub proof fn lemma_each_injection_on_its_own(
    injections: Seq<Injection>,
    language: Language,
    pattern: Option<Pattern>,
    edits: Seq<InputEdit>,
    index: int,
)
    requires
        0 <= index < injections.len(),
        forall|i: int|
            0 <= i < injections.len() ==> (#[trigger] injections[i]).matched_node_range.start
                <= injections[i].range.start <= injections[i].range.end,
        forall|i: int, j: int|
            0 <= i < j < injections.len() ==> (#[trigger] injections[i]).range.end < (
            #[trigger] injections[j]).matched_node_range.start,
    ensures
        mapped_injection(
            injections[index],
            language,
            pattern,
            edits,
            edits_done(injections, edits, index),
        ) == mapped_injection(injections[index], language, pattern, edits, 0),
{
    let from = edits_done(injections, edits, index);
    lemma_edits_done_end_before(injections, edits, index);
    let bound = injections[index].matched_node_range.start;
    assert forall|k: int| 0 <= k < from implies (#[trigger] edits[k]).old_end_byte < bound by {
        assert(injections[index - 1].range.end < injections[index].matched_node_range.start);
    }
    lemma_search_from(edits, 0, from, bound);
}

/// The edits that the injections before one are done with end by the end of the last of these.
proof fn lemma_edits_done_end_before(
    injections: Seq<Injection>,
    edits: Seq<InputEdit>,
    index: int,
)
    requires
        0 <= index <= injections.len(),
        forall|i: int|
            0 <= i < injections.len() ==> (#[trigger] injections[i]).matched_node_range.start
                <= injections[i].range.start <= injections[i].range.end,
        forall|i: int, j: int|
            0 <= i < j < injections.len() ==> (#[trigger] injections[i]).range.end < (
            #[trigger] injections[j]).matched_node_range.start,
    ensures
        0 <= edits_done(injections, edits, index) <= edits.len(),
        index == 0 ==> edits_done(injections, edits, index) == 0,
        index > 0 ==> forall|k: int|
            0 <= k < edits_done(injections, edits, index) ==> (#[trigger] edits[k]).old_end_byte
                <= injections[index - 1].range.end,
    decreases index,
{
    if index > 0 {
        lemma_edits_done_end_before(injections, edits, index - 1);
        let last = injections[index - 1];
        let from = edits_done(injections, edits, index - 1);
        let cuts = edit_cuts(last, edits, from);
        lemma_cut_bounds(edits, from, last.matched_node_range.start);
        lemma_search_passes(edits, from, last.matched_node_range.start);
        lemma_cut_bounds(edits, cuts.node, last.range.start);
        lemma_search_passes(edits, cuts.node, last.range.start);
        lemma_cut_bounds(edits, cuts.range, last.range.end);
        lemma_search_passes(edits, cuts.range, last.range.end);
        assert forall|k: int| 0 <= k < cuts.past implies (#[trigger] edits[k]).old_end_byte
            <= last.range.end by {
            if k < from {
                assert(injections[index - 2].range.end < last.matched_node_range.start);
            }
        }
    }
}

/// What a search passes ends before the bound.
proof fn lemma_search_passes(edits: Seq<InputEdit>, from: int, bound: u32)
    requires
        0 <= from <= edits.len(),
    ensures
        forall|k: int|
            from <= k < first_ending_at(edits, from, bound) ==> (#[trigger] edits[k]).old_end_byte
                < bound,
        forall|k: int|
            from <= k < first_ending_past(edits, from, bound) ==> (
            #[trigger] edits[k]).old_end_byte <= bound,
    decreases edits.len() - from,
{
    if from < edits.len() {
        lemma_search_passes(edits, from + 1, bound);
    }
}

/// A search may begin behind edits that it would pass.
proof fn lemma_search_from(edits: Seq<InputEdit>, start: int, from: int, bound: u32)
    requires
        0 <= start <= from <= edits.len(),
        forall|k: int| 0 <= k < from ==> (#[trigger] edits[k]).old_end_byte < bound,
    ensures
        first_ending_at(edits, start, bound) == first_ending_at(edits, from, bound),
    decreases from - start,
{
    if start < from {
        lemma_search_from(edits, start + 1, from, bound);
    }
}

/// An offset is read as a signed number of 32 bits: the lower half stands for itself, and the upper
/// half for the negative numbers.
pub proof fn lemma_signed_offsets(value: u32)
    ensures
        value < 0x8000_0000 ==> as_signed(value) == value,
        value >= 0x8000_0000 ==> as_signed(value) == value - 0x1_0000_0000,
        i32::MIN <= as_signed(value) <= i32::MAX,
{
}

} // verus!
