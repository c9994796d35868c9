//! Arithmetic on byte ranges.
use crate::ordering::{in_key_order, lemma_ordered_stays, order_by_key, stably_ordered, Keyed};
use crate::types::copy_range;
use std::ops::Range;
use vstd::prelude::*;

verus! {

impl Keyed for Range<u32> {
    open spec fn order_key(&self) -> u64 {
        self.start as u64
    }

    fn key(&self) -> u64 {
        self.start as u64
    }
}

/// Byte `byte` lies in one of `ranges`.
pub open spec fn covers(ranges: Seq<Range<u32>>, byte: int) -> bool {
    exists|i: int| 0 <= i < ranges.len() && (#[trigger] ranges[i]).start <= byte < ranges[i].end
}

/// The ranges are not empty, in order, and apart: none begins before its predecessor ends.
pub open spec fn in_sequence(ranges: Seq<Range<u32>>) -> bool {
    &&& forall|i: int| 0 <= i < ranges.len() ==> (#[trigger] ranges[i]).start < ranges[i].end
    &&& forall|i: int, j: int|
        0 <= i < j < ranges.len() ==> (#[trigger] ranges[i]).end <= (#[trigger] ranges[j]).start
}

/// The ranges are in sequence and there is a gap between any two of them.
pub open spec fn with_gaps(ranges: Seq<Range<u32>>) -> bool {
    &&& forall|i: int| 0 <= i < ranges.len() ==> (#[trigger] ranges[i]).start < ranges[i].end
    &&& forall|i: int, j: int|
        0 <= i < j < ranges.len() ==> (#[trigger] ranges[i]).end < (#[trigger] ranges[j]).start
}

/// Whether two ranges start together or share a byte.
pub open spec fn intersecting(a: Range<u32>, b: Range<u32>) -> bool {
    a.start == b.start || (a.end > b.start && b.end > a.start)
}

/// Tells whether two ranges start together or share a byte.
pub fn ranges_intersect(a: &Range<u32>, b: &Range<u32>) -> (res: bool)
    ensures
        res == intersecting(*a, *b),
{
    a.start == b.start || (a.end > b.start && b.end > a.start)
}

/// Ranges that hold bytes intersect exactly where they have a byte in common.
pub proof fn lemma_intersecting_shares_a_byte(a: Range<u32>, b: Range<u32>)
    requires
        a.start < a.end,
        b.start < b.end,
    ensures
        intersecting(a, b) <==> exists|byte: int|
            #![trigger covers(seq![a], byte)]
            covers(seq![a], byte) && covers(seq![b], byte),
{
    let first = if a.start < b.start {
        b.start as int
    } else {
        a.start as int
    };
    let (sa, sb) = (seq![a], seq![b]);
    if intersecting(a, b) {
        assert(sa[0].start <= first < sa[0].end);
        assert(sb[0].start <= first < sb[0].end);
        assert(covers(sa, first) && covers(sb, first));
    }
}

/// The range from `start` to `end`, or nothing where they are the same.
pub open spec fn piece(start: u32, end: u32) -> Seq<Range<u32>> {
    if start != end {
        seq![Range { start, end }]
    } else {
        Seq::empty()
    }
}

/// `ranges` without the empty ones.
pub open spec fn without_empty(ranges: Seq<Range<u32>>) -> Seq<Range<u32>>
    decreases ranges.len(),
{
    if ranges.len() == 0 {
        ranges
    } else if ranges[0].start < ranges[0].end {
        seq![ranges[0]] + without_empty(ranges.drop_first())
    } else {
        without_empty(ranges.drop_first())
    }
}

/// What is left of the bytes from `start` to `end` when the excluded ranges and the gaps between
/// the parents are cut out. The parents and the excluded ranges are taken up front to back.
pub open spec fn carved(
    start: u32,
    end: u32,
    excluded: Seq<Range<u32>>,
    parents: Seq<Range<u32>>,
) -> Seq<Range<u32>>
    decreases excluded.len() + parents.len(),
{
    if parents.len() == 0 {
        Seq::empty()
    } else if excluded.len() > 0 && excluded[0].start <= parents[0].end {
        if excluded[0].start >= end {
            piece(start, end)
        } else {
            piece(start, excluded[0].start) + carved(
                excluded[0].end,
                end,
                excluded.drop_first(),
                parents,
            )
        }
    } else if parents[0].end >= end {
        piece(start, end)
    } else if parents.len() == 1 {
        piece(start, parents[0].end)
    } else {
        piece(start, parents[0].end) + carved(
            parents[1].start,
            end,
            excluded,
            parents.drop_first(),
        )
    }
}

/// Cuts the excluded ranges and the gaps between the parents out of a range.
pub fn intersect_ranges_impl(
    range: &Range<u32>,
    excluded_ranges: &Vec<Range<u32>>,
    parent_ranges: &[Range<u32>],
) -> (out: Vec<Range<u32>>)
    ensures
        out@ == carved(range.start, range.end, without_empty(excluded_ranges@), parent_ranges@),
{
    let mut out: Vec<Range<u32>> = Vec::new();
    let mut start: u32 = range.start;
    let mut e: usize = 0;
    let mut p: usize = 0;
    let ghost whole = carved(
        range.start,
        range.end,
        without_empty(excluded_ranges@),
        parent_ranges@,
    );
    proof {
        assert(excluded_ranges@.skip(0) == excluded_ranges@);
        assert(parent_ranges@.skip(0) == parent_ranges@);
        assert(out@ + whole == whole);
    }
    while p < parent_ranges.len()
        invariant
            e <= excluded_ranges.len(),
            p <= parent_ranges.len(),
            whole == carved(
                range.start,
                range.end,
                without_empty(excluded_ranges@),
                parent_ranges@,
            ),
            whole == out@ + carved(
                start,
                range.end,
                without_empty(excluded_ranges@.skip(e as int)),
                parent_ranges@.skip(p as int),
            ),
        decreases excluded_ranges.len() - e + parent_ranges.len() - p,
    {
        let ghost rest = excluded_ranges@.skip(e as int);
        let ghost parents = parent_ranges@.skip(p as int);
        proof {
            if e < excluded_ranges.len() {
                assert(rest[0] == excluded_ranges@[e as int]);
                assert(rest.drop_first() == excluded_ranges@.skip(e + 1));
                let kept = without_empty(rest);
                if rest[0].start < rest[0].end {
                    assert(kept[0] == rest[0]);
                    assert(kept.drop_first() == without_empty(rest.drop_first()));
                }
            }
            assert(parents[0] == parent_ranges@[p as int]);
            assert(parents.drop_first() == parent_ranges@.skip(p + 1));
            if p + 1 < parent_ranges.len() {
                assert(parents[1] == parent_ranges@[p + 1]);
            }
        }
        if e < excluded_ranges.len() && excluded_ranges[e].start >= excluded_ranges[e].end {
            e = e + 1;
            continue ;
        }
        let parent_end: u32 = parent_ranges[p].end;
        if e < excluded_ranges.len() && excluded_ranges[e].start <= parent_end {
            let cut_start: u32 = excluded_ranges[e].start;
            if cut_start >= range.end {
                if start != range.end {
                    out.push(start..range.end);
                }
                assert(out@ == whole);
                return out;
            }
            let ghost before = out@;
            if start != cut_start {
                out.push(start..cut_start);
            }
            assert(out@ == before + piece(start, cut_start));
            start = excluded_ranges[e].end;
            e = e + 1;
            assert(whole == out@ + carved(
                start,
                range.end,
                without_empty(excluded_ranges@.skip(e as int)),
                parent_ranges@.skip(p as int),
            ));
        } else {
            if parent_end >= range.end {
                if start != range.end {
                    out.push(start..range.end);
                }
                assert(out@ == whole);
                return out;
            }
            let ghost before = out@;
            if start != parent_end {
                out.push(start..parent_end);
            }
            assert(out@ == before + piece(start, parent_end));
            p = p + 1;
            if p == parent_ranges.len() {
                assert(out@ == whole);
                return out;
            }
            start = parent_ranges[p].start;
            assert(whole == out@ + carved(
                start,
                range.end,
                without_empty(excluded_ranges@.skip(e as int)),
                parent_ranges@.skip(p as int),
            ));
        }
    }
    assert(out@ == whole);
    out
}

/// Some parent holds all of `range`.
pub open spec fn within_one(range: Range<u32>, parents: Seq<Range<u32>>) -> bool {
    exists|k: int|
        0 <= k < parents.len() && (#[trigger] parents[k]).start <= range.start && range.end
            <= parents[k].end
}

/// The cut-out state is as it is in a parsed document: the parents have gaps between them, the
/// current position lies in the first of them and the end in one of them, and every excluded range
/// lies ahead, in one parent.
pub open spec fn carvable(
    start: u32,
    end: u32,
    excluded: Seq<Range<u32>>,
    parents: Seq<Range<u32>>,
) -> bool {
    &&& parents.len() > 0
    &&& with_gaps(parents)
    &&& parents[0].start <= start <= parents[0].end
    &&& start <= end
    &&& exists|k: int|
        0 <= k < parents.len() && (#[trigger] parents[k]).start < end && end <= parents[k].end
    &&& in_sequence(excluded)
    &&& forall|i: int|
        0 <= i < excluded.len() ==> start <= (#[trigger] excluded[i]).start && excluded[i].end
            <= end && within_one(excluded[i], parents)
}

proof fn lemma_covers_concat(a: Seq<Range<u32>>, b: Seq<Range<u32>>, byte: int)
    ensures
        covers(a + b, byte) <==> covers(a, byte) || covers(b, byte),
{
    let all = a + b;
    if covers(a, byte) {
        let i = choose|i: int| 0 <= i < a.len() && (#[trigger] a[i]).start <= byte < a[i].end;
        assert(all[i] == a[i]);
    }
    if covers(b, byte) {
        let i = choose|i: int| 0 <= i < b.len() && (#[trigger] b[i]).start <= byte < b[i].end;
        assert(all[a.len() + i] == b[i]);
    }
    if covers(all, byte) {
        let i = choose|i: int| 0 <= i < all.len() && (#[trigger] all[i]).start <= byte < all[i].end;
        if i < a.len() {
            assert(all[i] == a[i]);
        } else {
            assert(all[i] == b[i - a.len()]);
        }
    }
}

proof fn lemma_covers_piece(start: u32, end: u32, byte: int)
    requires
        start <= end,
    ensures
        covers(piece(start, end), byte) <==> start <= byte < end,
{
    if start != end {
        assert(piece(start, end)[0] == Range { start, end });
    }
}

proof fn lemma_covers_first(ranges: Seq<Range<u32>>, byte: int)
    requires
        ranges.len() > 0,
    ensures
        covers(ranges, byte) <==> (ranges[0].start <= byte < ranges[0].end) || covers(
            ranges.drop_first(),
            byte,
        ),
{
    lemma_covers_concat(seq![ranges[0]], ranges.drop_first(), byte);
    assert(seq![ranges[0]] + ranges.drop_first() == ranges);
    assert(seq![ranges[0]][0] == ranges[0]);
}

/// Empty ranges cover nothing, so dropping them changes no byte.
pub proof fn lemma_without_empty_covers(ranges: Seq<Range<u32>>, byte: int)
    ensures
        covers(without_empty(ranges), byte) <==> covers(ranges, byte),
    decreases ranges.len(),
{
    if ranges.len() > 0 {
        lemma_without_empty_covers(ranges.drop_first(), byte);
        lemma_covers_first(ranges, byte);
        if ranges[0].start < ranges[0].end {
            lemma_covers_concat(seq![ranges[0]], without_empty(ranges.drop_first()), byte);
            assert(seq![ranges[0]][0] == ranges[0]);
        }
    }
}

/// On the ranges of a parsed document, cutting keeps exactly the bytes that lie in the range and
/// in a parent and in no excluded range, in pieces that are in sequence.
pub proof fn lemma_carved_keeps_the_rest(
    start: u32,
    end: u32,
    excluded: Seq<Range<u32>>,
    parents: Seq<Range<u32>>,
)
    requires
        carvable(start, end, excluded, parents),
    ensures
        in_sequence(carved(start, end, excluded, parents)),
        forall|i: int|
            0 <= i < carved(start, end, excluded, parents).len() ==> start <= (#[trigger] carved(
                start,
                end,
                excluded,
                parents,
            )[i]).start && carved(start, end, excluded, parents)[i].end <= end,
        forall|byte: int| #[trigger]
            covers(carved(start, end, excluded, parents), byte) <==> {
                &&& start <= byte < end
                &&& covers(parents, byte)
                &&& !covers(excluded, byte)
            },
    decreases excluded.len() + parents.len(),
{
    let out = carved(start, end, excluded, parents);
    let last = choose|k: int|
        0 <= k < parents.len() && (#[trigger] parents[k]).start < end && end <= parents[k].end;
    if excluded.len() > 0 && excluded[0].start <= parents[0].end {
        let cut = excluded[0];
        let home = choose|k: int|
            0 <= k < parents.len() && (#[trigger] parents[k]).start <= cut.start && cut.end
                <= parents[k].end;
        assert(home == 0) by {
            if home > 0 {
                assert(parents[0].end < parents[home].start);
            }
        }
        let rest = excluded.drop_first();
        assert(carvable(cut.end, end, rest, parents)) by {
            assert forall|i: int| 0 <= i < rest.len() implies cut.end <= (#[trigger] rest[i]).start
                && rest[i].end <= end && within_one(rest[i], parents) by {
                assert(rest[i] == excluded[i + 1]);
            }
            assert(in_sequence(rest)) by {
                assert forall|i: int, j: int| 0 <= i < j < rest.len() implies (
                #[trigger] rest[i]).end <= (#[trigger] rest[j]).start by {
                    assert(rest[i] == excluded[i + 1] && rest[j] == excluded[j + 1]);
                }
            }
        }
        lemma_carved_keeps_the_rest(cut.end, end, rest, parents);
        let tail = carved(cut.end, end, rest, parents);
        assert(out == piece(start, cut.start) + tail);
        assert forall|byte: int| #[trigger] covers(out, byte) <==> {
            &&& start <= byte < end
            &&& covers(parents, byte)
            &&& !covers(excluded, byte)
        } by {
            lemma_covers_concat(piece(start, cut.start), tail, byte);
            lemma_covers_piece(start, cut.start, byte);
            lemma_covers_first(excluded, byte);
            if start <= byte < cut.start {
                assert(parents[0].start <= byte < parents[0].end);
                assert(covers(parents, byte));
                assert forall|i: int| 0 <= i < excluded.len() implies !((
                #[trigger] excluded[i]).start <= byte < excluded[i].end) by {
                    if i > 0 {
                        assert(excluded[0].end <= excluded[i].start);
                    }
                }
            }
            assert(covers(tail, byte) <==> {
                &&& cut.end <= byte < end
                &&& covers(parents, byte)
                &&& !covers(rest, byte)
            });
        }
    } else if parents[0].end >= end {
        assert(excluded.len() == 0);
        assert forall|byte: int| #[trigger] covers(out, byte) <==> {
            &&& start <= byte < end
            &&& covers(parents, byte)
            &&& !covers(excluded, byte)
        } by {
            lemma_covers_piece(start, end, byte);
            if start <= byte < end {
                assert(parents[0].start <= byte < parents[0].end);
            }
        }
    } else {
        assert(last > 0);
        let rest = parents.drop_first();
        assert(rest[last - 1] == parents[last]);
        assert(carvable(parents[1].start, end, excluded, rest)) by {
            if last > 1 {
                assert(parents[1].end < parents[last].start);
            }
            assert(rest[0] == parents[1]);
            assert forall|i: int, j: int| 0 <= i < j < rest.len() implies (#[trigger] rest[i]).end
                < (#[trigger] rest[j]).start by {
                assert(rest[i] == parents[i + 1] && rest[j] == parents[j + 1]);
            }
            assert forall|i: int| 0 <= i < rest.len() implies (#[trigger] rest[i]).start
                < rest[i].end by {
                assert(rest[i] == parents[i + 1]);
            }
            assert forall|i: int| 0 <= i < excluded.len() implies parents[1].start <= (
            #[trigger] excluded[i]).start && excluded[i].end <= end && within_one(
                excluded[i],
                rest,
            ) by {
                let cut = excluded[i];
                if i > 0 {
                    assert(excluded[0].end <= cut.start);
                }
                let home = choose|k: int|
                    0 <= k < parents.len() && (#[trigger] parents[k]).start <= cut.start && cut.end
                        <= parents[k].end;
                assert(home > 0);
                assert(rest[home - 1] == parents[home]);
                if home > 1 {
                    assert(parents[1].end < parents[home].start);
                }
            }
        }
        lemma_carved_keeps_the_rest(parents[1].start, end, excluded, rest);
        let tail = carved(parents[1].start, end, excluded, rest);
        assert(out == piece(start, parents[0].end) + tail);
        assert(parents[0].end < parents[1].start);
        assert forall|byte: int| #[trigger] covers(out, byte) <==> {
            &&& start <= byte < end
            &&& covers(parents, byte)
            &&& !covers(excluded, byte)
        } by {
            lemma_covers_concat(piece(start, parents[0].end), tail, byte);
            lemma_covers_piece(start, parents[0].end, byte);
            lemma_covers_first(parents, byte);
            if start <= byte < parents[0].end {
                assert forall|i: int| 0 <= i < excluded.len() implies !((
                #[trigger] excluded[i]).start <= byte < excluded[i].end) by {
                    if i > 0 {
                        assert(excluded[0].end <= excluded[i].start);
                    }
                }
            }
            if covers(rest, byte) {
                let k = choose|k: int|
                    0 <= k < rest.len() && (#[trigger] rest[k]).start <= byte < rest[k].end;
                assert(rest[k] == parents[k + 1]);
                if k > 0 {
                    assert(parents[1].end < parents[k + 1].start);
                }
            }
        }
    }
}

/// The position of the first range that reaches past `byte`.
pub open spec fn first_reaching(ranges: Seq<Range<u32>>, byte: u32) -> int
    decreases ranges.len(),
{
    if ranges.len() == 0 || ranges[0].end > byte {
        0
    } else {
        1 + first_reaching(ranges.drop_first(), byte)
    }
}

pub proof fn lemma_first_reaching(ranges: Seq<Range<u32>>, byte: u32)
    ensures
        0 <= first_reaching(ranges, byte) <= ranges.len(),
        forall|i: int|
            0 <= i < first_reaching(ranges, byte) ==> (#[trigger] ranges[i]).end <= byte,
        first_reaching(ranges, byte) < ranges.len() ==> ranges[first_reaching(ranges, byte)].end
            > byte,
    decreases ranges.len(),
{
    if ranges.len() > 0 && ranges[0].end <= byte {
        let rest = ranges.drop_first();
        lemma_first_reaching(rest, byte);
        assert forall|i: int| 0 <= i < first_reaching(ranges, byte) implies (
        #[trigger] ranges[i]).end <= byte by {
            if i > 0 {
                assert(rest[i - 1] == ranges[i]);
            }
        }
        if first_reaching(ranges, byte) < ranges.len() {
            assert(rest[first_reaching(rest, byte)] == ranges[first_reaching(ranges, byte)]);
        }
    }
}

/// Returns the position of the first range that reaches past `byte`.
pub fn skip_ranges_before(ranges: &[Range<u32>], byte: u32) -> (at: usize)
    ensures
        at == first_reaching(ranges@, byte),
        at <= ranges.len(),
{
    let mut at: usize = 0;
    proof {
        assert(ranges@.skip(0) == ranges@);
    }
    while at < ranges.len() && ranges[at].end <= byte
        invariant
            at <= ranges.len(),
            first_reaching(ranges@, byte) == at + first_reaching(ranges@.skip(at as int), byte),
        decreases ranges.len() - at,
    {
        proof {
            assert(ranges@.skip(at as int)[0] == ranges@[at as int]);
            assert(ranges@.skip(at as int).drop_first() == ranges@.skip(at + 1));
        }
        at = at + 1;
    }
    proof {
        if at < ranges.len() {
            assert(ranges@.skip(at as int)[0] == ranges@[at as int]);
        }
    }
    at
}

/// `merged` with `range` added behind it: joined to the last range where it begins no later than
/// that one ends.
pub open spec fn joined(merged: Seq<Range<u32>>, range: Range<u32>) -> Seq<Range<u32>> {
    if merged.len() > 0 && range.start <= merged.last().end {
        merged.update(
            merged.len() - 1,
            Range {
                start: merged.last().start,
                end: if merged.last().end < range.end {
                    range.end
                } else {
                    merged.last().end
                },
            },
        )
    } else {
        merged.push(range)
    }
}

/// `ranges` with neighbours joined where they touch or overlap.
pub open spec fn coalesced(ranges: Seq<Range<u32>>) -> Seq<Range<u32>>
    decreases ranges.len(),
{
    if ranges.len() == 0 {
        ranges
    } else {
        joined(coalesced(ranges.drop_last()), ranges.last())
    }
}

/// Joins ranges that touch or overlap. The ranges come in the order of their starts.
pub fn coalesce_sorted_ranges(ranges: &Vec<Range<u32>>) -> (merged: Vec<Range<u32>>)
    ensures
        merged@ == coalesced(ranges@),
{
    let mut merged: Vec<Range<u32>> = Vec::with_capacity(ranges.len());
    proof {
        assert(ranges@.take(0) == Seq::<Range<u32>>::empty());
    }
    for i in 0..ranges.len()
        invariant
            merged@ == coalesced(ranges@.take(i as int)),
    {
        proof {
            assert(ranges@.take(i + 1).drop_last() == ranges@.take(i as int));
            assert(ranges@.take(i + 1).last() == ranges@[i as int]);
        }
        let range = &ranges[i];
        let len: usize = merged.len();
        if len > 0 && range.start <= merged[len - 1].end {
            if merged[len - 1].end < range.end {
                let start: u32 = merged[len - 1].start;
                merged.set(len - 1, start..range.end);
            } else {
                assert(merged@ == joined(merged@, *range));
            }
        } else {
            merged.push(copy_range(range));
        }
    }
    proof {
        assert(ranges@.take(ranges.len() as int) == ranges@);
    }
    merged
}

/// Joins ranges that touch or overlap.
pub fn coalesce_ranges(ranges: Vec<Range<u32>>) -> (merged: Vec<Range<u32>>)
    ensures
        merged@ == coalesced(stably_ordered(ranges@)),
{
    let mut ranges = ranges;
    order_by_key(&mut ranges);
    coalesce_sorted_ranges(&ranges)
}

/// On ranges in the order of their starts, joining leaves ranges with gaps between them that cover
/// the same bytes as before.
pub proof fn lemma_coalesced_covers_the_same(ranges: Seq<Range<u32>>)
    requires
        in_key_order(ranges),
        forall|i: int| 0 <= i < ranges.len() ==> (#[trigger] ranges[i]).start <= ranges[i].end,
    ensures
        forall|i: int, j: int|
            0 <= i < j < coalesced(ranges).len() ==> (#[trigger] coalesced(ranges)[i]).end < (
            #[trigger] coalesced(ranges)[j]).start,
        forall|i: int|
            0 <= i < coalesced(ranges).len() ==> (#[trigger] coalesced(ranges)[i]).start
                <= coalesced(ranges)[i].end,
        forall|byte: int| #[trigger]
            covers(coalesced(ranges), byte) <==> covers(ranges, byte),
        ranges.len() > 0 ==> coalesced(ranges).len() > 0 && coalesced(ranges).last().start
            <= ranges.last().start,
    decreases ranges.len(),
{
    if ranges.len() > 0 {
        let front = ranges.drop_last();
        let range = ranges.last();
        assert(in_key_order(front)) by {
            assert forall|i: int, j: int| 0 <= i < j < front.len() implies (
            #[trigger] front[i]).order_key() <= (#[trigger] front[j]).order_key() by {
                assert(ranges[i].order_key() <= ranges[j].order_key());
            }
        }
        lemma_coalesced_covers_the_same(front);
        let merged = coalesced(front);
        let out = coalesced(ranges);
        if front.len() > 0 {
            assert(front.last() == ranges[ranges.len() - 2]);
            assert(ranges[ranges.len() - 2].order_key() <= ranges[ranges.len() - 1].order_key());
        }
        assert forall|byte: int| #[trigger] covers(out, byte) <==> covers(ranges, byte) by {
            assert(ranges == front + seq![range]);
            lemma_covers_concat(front, seq![range], byte);
            assert(seq![range][0] == range);
            if merged.len() > 0 && range.start <= merged.last().end {
                let head = merged.drop_last();
                assert(merged == head + seq![merged.last()]);
                assert(out == head + seq![out.last()]);
                lemma_covers_concat(head, seq![merged.last()], byte);
                lemma_covers_concat(head, seq![out.last()], byte);
                assert(seq![merged.last()][0] == merged.last());
                assert(seq![out.last()][0] == out.last());
            } else {
                assert(out == merged + seq![range]);
                lemma_covers_concat(merged, seq![range], byte);
            }
        }
    }
}

/// Joining ranges that already have gaps between them changes nothing.
pub proof fn lemma_coalesced_with_gaps(ranges: Seq<Range<u32>>)
    requires
        with_gaps(ranges),
    ensures
        coalesced(ranges) == ranges,
    decreases ranges.len(),
{
    if ranges.len() > 0 {
        let front = ranges.drop_last();
        assert(with_gaps(front)) by {
            assert forall|i: int, j: int| 0 <= i < j < front.len() implies (#[trigger] front[i]).end
                < (#[trigger] front[j]).start by {
                assert(ranges[i].end < ranges[j].start);
            }
        }
        lemma_coalesced_with_gaps(front);
        if front.len() > 0 {
            assert(ranges[ranges.len() - 2].end < ranges[ranges.len() - 1].start);
        }
        assert(front.push(ranges.last()) == ranges);
    }
}

/// Where the ranges already come in the order of their starts, ordering them first changes nothing.
pub proof fn lemma_coalesce_ranges_of_sorted(ranges: Seq<Range<u32>>)
    requires
        in_key_order(ranges),
    ensures
        coalesced(stably_ordered(ranges)) == coalesced(ranges),
{
    lemma_ordered_stays(ranges);
}

/// A range without bytes intersects those that start where it does, and those in which it lies with
/// bytes before and behind it. Which of two ranges is named first does not matter.
pub proof fn lemma_intersecting_an_empty_range(a: Range<u32>, b: Range<u32>)
    requires
        a.start == a.end,
    ensures
        intersecting(a, b) <==> a.start == b.start || b.start < a.start < b.end,
        intersecting(a, b) == intersecting(b, a),
{
}

} // verus!
