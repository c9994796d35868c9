//! Turns the matches of an injection query into the byte ranges that they inject.
use crate::injection::{
    IncludedChildren, InjectionCandidate, InjectionQueryMatch, MatchedRange, NodeChild,
};
use crate::spans::{
    carvable, carved, covers, first_reaching, in_sequence, intersect_ranges_impl, intersecting,
    lemma_carved_keeps_the_rest, lemma_first_reaching, lemma_without_empty_covers, ranges_intersect,
    skip_ranges_before, without_empty,
};
use crate::types::copy_range;
use std::ops::Range;
use vstd::prelude::*;

verus! {

/// Whether a child stays out of the injected text.
pub open spec fn is_excluded(include_children: IncludedChildren, child: NodeChild) -> bool {
    match include_children {
        IncludedChildren::Nothing => true,
        IncludedChildren::All => false,
        IncludedChildren::Unnamed => child.named,
    }
}

/// The ranges of the children that stay out of the injected text.
pub open spec fn excluded_children(
    include_children: IncludedChildren,
    children: Seq<NodeChild>,
) -> Seq<Range<u32>>
    decreases children.len(),
{
    if children.len() == 0 {
        Seq::empty()
    } else {
        let front = excluded_children(include_children, children.drop_last());
        if is_excluded(include_children, children.last()) {
            front.push(children.last().range)
        } else {
            front
        }
    }
}

/// The bytes that a matched node injects into a layer with the given ranges.
pub open spec fn injected_ranges(
    include_children: IncludedChildren,
    node: MatchedRange,
    parents: Seq<Range<u32>>,
) -> Seq<Range<u32>> {
    carved(
        node.range.start,
        node.range.end,
        without_empty(excluded_children(include_children, node.children@)),
        parents.skip(first_reaching(parents, node.range.start)),
    )
}

/// Returns the bytes that a matched node injects into a layer with the given ranges, which are in
/// document order.
pub fn collect_intersected_ranges(
    include_children: IncludedChildren,
    node: &MatchedRange,
    parent_ranges: &[Range<u32>],
) -> (ranges: Vec<Range<u32>>)
    ensures
        ranges@ == injected_ranges(include_children, *node, parent_ranges@),
{
    let at: usize = skip_ranges_before(parent_ranges, node.range.start);
    let mut excluded: Vec<Range<u32>> = Vec::new();
    proof {
        assert(node.children@.take(0) == Seq::<NodeChild>::empty());
    }
    for i in 0..node.children.len()
        invariant
            excluded@ == excluded_children(include_children, node.children@.take(i as int)),
    {
        proof {
            assert(node.children@.take(i + 1).drop_last() == node.children@.take(i as int));
        }
        let child = &node.children[i];
        let keep_out: bool = match include_children {
            IncludedChildren::Nothing => true,
            IncludedChildren::All => false,
            IncludedChildren::Unnamed => child.named,
        };
        if keep_out {
            excluded.push(copy_range(&child.range));
        }
    }
    proof {
        assert(node.children@.take(node.children.len() as int) == node.children@);
    }
    let parents: &[Range<u32>] = vstd::slice::slice_subrange(
        parent_ranges,
        at,
        parent_ranges.len(),
    );
    assert(parents@ == parent_ranges@.skip(at as int));
    intersect_ranges_impl(&node.range, &excluded, parents)
}

/// Where the ranges of a match go among those accepted so far: behind all of them, or, where the
/// match overlaps the last one and starts before it, in front of the ranges that end later. Nowhere
/// if the match overlaps what is there.
pub open spec fn place_for(accepted: Seq<Range<u32>>, matched: Range<u32>) -> Option<int> {
    if accepted.len() > 0 && intersecting(accepted.last(), matched) {
        let at = first_reaching(accepted, matched.start);
        if accepted.last().start <= matched.start {
            None
        } else if at < accepted.len() && accepted[at].start < matched.end {
            None
        } else {
            Some(at)
        }
    } else {
        Some(accepted.len() as int)
    }
}

/// `accepted` with `ranges` put in at `at`.
pub open spec fn spliced(accepted: Seq<Range<u32>>, at: int, ranges: Seq<Range<u32>>) -> Seq<
    Range<u32>,
> {
    accepted.take(at) + ranges + accepted.skip(at)
}

/// Whether a match is taken, given the ranges accepted so far.
pub open spec fn is_accepted(
    accepted: Seq<Range<u32>>,
    query_match: InjectionQueryMatch,
    parents: Seq<Range<u32>>,
) -> bool {
    &&& injected_ranges(query_match.include_children, query_match.node, parents).len() > 0
    &&& place_for(accepted, query_match.node.range) is Some
}

/// The ranges accepted once `matches` have been looked at in order.
pub open spec fn accepted_ranges(
    matches: Seq<InjectionQueryMatch>,
    parents: Seq<Range<u32>>,
) -> Seq<Range<u32>>
    decreases matches.len(),
{
    if matches.len() == 0 {
        Seq::empty()
    } else {
        let accepted = accepted_ranges(matches.drop_last(), parents);
        let last = matches.last();
        if is_accepted(accepted, last, parents) {
            spliced(
                accepted,
                place_for(accepted, last.node.range)->0,
                injected_ranges(last.include_children, last.node, parents),
            )
        } else {
            accepted
        }
    }
}

/// The matches that are taken when `matches` are looked at in order.
pub open spec fn accepted_matches(
    matches: Seq<InjectionQueryMatch>,
    parents: Seq<Range<u32>>,
) -> Seq<InjectionQueryMatch>
    decreases matches.len(),
{
    if matches.len() == 0 {
        Seq::empty()
    } else {
        let front = accepted_matches(matches.drop_last(), parents);
        if is_accepted(accepted_ranges(matches.drop_last(), parents), matches.last(), parents) {
            front.push(matches.last())
        } else {
            front
        }
    }
}

/// `candidate` says of `query_match` what is needed to plan its layer.
pub open spec fn is_candidate_of(
    candidate: InjectionCandidate,
    query_match: InjectionQueryMatch,
    parents: Seq<Range<u32>>,
) -> bool {
    &&& candidate.language == query_match.language
    &&& candidate.pattern == query_match.pattern
    &&& candidate.scope == query_match.scope
    &&& candidate.last_match == query_match.last_match
    &&& candidate.matched_node_range == query_match.node.range
    &&& candidate.emitted_ranges@ == injected_ranges(
        query_match.include_children,
        query_match.node,
        parents,
    )
}

/// Puts copies of `ranges` into `accepted` at `at`.
fn splice_ranges(accepted: &mut Vec<Range<u32>>, at: usize, ranges: &Vec<Range<u32>>)
    requires
        at <= old(accepted).len(),
    ensures
        final(accepted)@ == spliced(old(accepted)@, at as int, ranges@),
{
    let ghost before = accepted@;
    let mut tail = accepted.split_off(at);
    for i in 0..ranges.len()
        invariant
            accepted@ == before.take(at as int) + ranges@.take(i as int),
    {
        accepted.push(copy_range(&ranges[i]));
        assert(ranges@.take(i + 1) == ranges@.take(i as int).push(ranges@[i as int]));
    }
    assert(ranges@.take(ranges.len() as int) == ranges@);
    accepted.append(&mut tail);
}

/// Takes the matches that do not overlap what was taken before, in the order in which they come,
/// and finds the bytes they inject into a layer with the given ranges, which are in document order.
pub fn collect_injection_candidates(
    query_matches: &Vec<InjectionQueryMatch>,
    parent_ranges: &[Range<u32>],
) -> (candidates: Vec<InjectionCandidate>)
    ensures
        candidates.len() == accepted_matches(query_matches@, parent_ranges@).len(),
        forall|i: int|
            0 <= i < candidates.len() ==> is_candidate_of(
                #[trigger] candidates@[i],
                accepted_matches(query_matches@, parent_ranges@)[i],
                parent_ranges@,
            ),
{
    let mut candidates: Vec<InjectionCandidate> = Vec::new();
    let mut accepted: Vec<Range<u32>> = Vec::new();
    proof {
        assert(query_matches@.take(0) == Seq::<InjectionQueryMatch>::empty());
    }
    for i in 0..query_matches.len()
        invariant
            accepted@ == accepted_ranges(query_matches@.take(i as int), parent_ranges@),
            candidates.len() == accepted_matches(
                query_matches@.take(i as int),
                parent_ranges@,
            ).len(),
            forall|k: int|
                0 <= k < candidates.len() ==> is_candidate_of(
                    #[trigger] candidates@[k],
                    accepted_matches(query_matches@.take(i as int), parent_ranges@)[k],
                    parent_ranges@,
                ),
    {
        proof {
            assert(query_matches@.take(i + 1).drop_last() == query_matches@.take(i as int));
            assert(query_matches@.take(i + 1).last() == query_matches@[i as int]);
        }
        let query_match = &query_matches[i];
        let matched = &query_match.node.range;
        let emitted = collect_intersected_ranges(
            query_match.include_children,
            &query_match.node,
            parent_ranges,
        );
        let count: usize = accepted.len();
        let mut place: Option<usize> = Some(count);
        if count > 0 && ranges_intersect(&accepted[count - 1], matched) {
            // Precedence can bring overlapping matches out of document order: such a match is put
            // where it belongs, unless it overlaps what is there.
            proof {
                lemma_first_reaching(accepted@, matched.start);
            }
            if accepted[count - 1].start <= matched.start {
                place = None;
            } else {
                let at: usize = skip_ranges_before(accepted.as_slice(), matched.start);
                if at < count && accepted[at].start < matched.end {
                    place = None;
                } else {
                    place = Some(at);
                }
            }
        }
        if emitted.len() > 0 {
            if let Some(at) = place {
                splice_ranges(&mut accepted, at, &emitted);
                let ghost before = candidates@;
                candidates.push(
                    InjectionCandidate {
                        language: query_match.language,
                        pattern: query_match.pattern,
                        scope: query_match.scope,
                        last_match: query_match.last_match,
                        matched_node_range: copy_range(matched),
                        emitted_ranges: emitted,
                    },
                );
                assert(forall|k: int|
                    0 <= k < before.len() ==> #[trigger] candidates@[k] == before[k]);
            }
        }
    }
    proof {
        assert(query_matches@.take(query_matches.len() as int) == query_matches@);
    }
    candidates
}

/// Taking a match whose ranges are in sequence and lie in its node keeps the accepted ranges in
/// sequence, unless the match lies wholly before the last of them.
pub proof fn lemma_accepting_keeps_sequence(
    accepted: Seq<Range<u32>>,
    matched: Range<u32>,
    emitted: Seq<Range<u32>>,
)
    requires
        in_sequence(accepted),
        in_sequence(emitted),
        forall|i: int|
            0 <= i < emitted.len() ==> matched.start <= (#[trigger] emitted[i]).start
                && emitted[i].end <= matched.end,
        place_for(accepted, matched) is Some,
        accepted.len() > 0 ==> matched.end > accepted.last().start,
    ensures
        in_sequence(spliced(accepted, place_for(accepted, matched)->0, emitted)),
{
    let at = place_for(accepted, matched)->0;
    lemma_first_reaching(accepted, matched.start);
    let out = spliced(accepted, at, emitted);
    let split = at + emitted.len();
    assert forall|i: int| 0 <= i < out.len() implies out[i] == (if i < at {
        accepted[i]
    } else if i < split {
        emitted[i - at]
    } else {
        accepted[i - emitted.len()]
    }) by {}
    assert forall|i: int| 0 <= i < at implies (#[trigger] accepted[i]).end <= matched.start by {
        if at == accepted.len() {
            let last = accepted.len() - 1;
            if !intersecting(accepted.last(), matched) {
                assert(accepted[last].end <= matched.start);
                if i < last {
                    assert(accepted[i].end <= accepted[last].start);
                }
            }
        }
    }
    assert forall|i: int| at <= i < accepted.len() implies matched.end <= (
    #[trigger] accepted[i]).start by {
        if i > at {
            assert(accepted[at].end <= accepted[i].start);
        }
    }
    assert forall|i: int, j: int| 0 <= i < j < out.len() implies (#[trigger] out[i]).end <= (
    #[trigger] out[j]).start by {}
}

/// A match that injects bytes has its place among the ranges that were accepted exactly where the
/// last of them neither shares a byte with its node nor begins with it; its place is behind them.
pub proof fn lemma_place_for(accepted: Seq<Range<u32>>, matched: Range<u32>)
    requires
        matched.start < matched.end,
        forall|i: int| 0 <= i < accepted.len() ==> (#[trigger] accepted[i]).start < accepted[i].end,
        forall|i: int, j: int|
            0 <= i < j < accepted.len() ==> (#[trigger] accepted[i]).end <= (
            #[trigger] accepted[j]).start,
    ensures
        place_for(accepted, matched) is Some <==> accepted.len() == 0 || accepted.last().end
            <= matched.start || matched.end <= accepted.last().start,
        place_for(accepted, matched) is Some ==> place_for(accepted, matched) == Some(
            accepted.len() as int,
        ),
{
    if accepted.len() > 0 {
        let last = accepted.len() - 1;
        lemma_first_reaching(accepted, matched.start);
        let at = first_reaching(accepted, matched.start);
        assert(accepted[last] == accepted.last());
        if at < last {
            assert(accepted[at].end <= accepted[last].start);
        }
    }
}

/// A match whose node shares a byte with the last range that was accepted, or that injects nothing,
/// is left out, and changes nothing for those behind it. Every other is taken, its ranges are
/// accepted, and it comes behind those that were taken.
pub proof fn lemma_what_is_taken(
    matches: Seq<InjectionQueryMatch>,
    next: InjectionQueryMatch,
    parents: Seq<Range<u32>>,
)
    requires
        next.node.range.start < next.node.range.end,
        in_sequence(accepted_ranges(matches, parents)),
    ensures
        ({
            let accepted = accepted_ranges(matches, parents);
            let ranges = injected_ranges(next.include_children, next.node, parents);
            let free = accepted.len() == 0 || accepted.last().end <= next.node.range.start
                || next.node.range.end <= accepted.last().start;
            let taken = ranges.len() > 0 && free;
            &&& accepted_matches(matches.push(next), parents) == if taken {
                accepted_matches(matches, parents).push(next)
            } else {
                accepted_matches(matches, parents)
            }
            &&& accepted_ranges(matches.push(next), parents) == if taken {
                accepted + ranges
            } else {
                accepted
            }
        }),
{
    let accepted = accepted_ranges(matches, parents);
    let ranges = injected_ranges(next.include_children, next.node, parents);
    assert(matches.push(next).drop_last() =~= matches);
    lemma_place_for(accepted, next.node.range);
    assert(spliced(accepted, accepted.len() as int, ranges) =~= accepted + ranges);
}

/// Whether a byte lies in a child that stays out of the injected text: every child where none is
/// included, those with a name where the unnamed are, and none where all are.
pub open spec fn is_left_out(
    include_children: IncludedChildren,
    children: Seq<NodeChild>,
    byte: int,
) -> bool {
    exists|i: int|
        0 <= i < children.len() && (#[trigger] children[i]).range.start <= byte
            < children[i].range.end && (include_children == IncludedChildren::Nothing || (
        include_children == IncludedChildren::Unnamed && children[i].named))
}

/// The children that stay out cover exactly the bytes that are left out.
pub proof fn lemma_excluded_children(
    include_children: IncludedChildren,
    children: Seq<NodeChild>,
    byte: int,
)
    ensures
        covers(excluded_children(include_children, children), byte) <==> is_left_out(
            include_children,
            children,
            byte,
        ),
    decreases children.len(),
{
    if children.len() > 0 {
        let rest = children.drop_last();
        lemma_excluded_children(include_children, rest, byte);
        let front = excluded_children(include_children, rest);
        let all = excluded_children(include_children, children);
        let last = children.len() - 1;
        assert(children[last] == children.last());
        if covers(all, byte) {
            let i = choose|i: int|
                0 <= i < all.len() && (#[trigger] all[i]).start <= byte < all[i].end;
            if i < front.len() {
                assert(front[i] == all[i]);
                assert(covers(front, byte));
                let k = choose|k: int|
                    0 <= k < rest.len() && (#[trigger] rest[k]).range.start <= byte
                        < rest[k].range.end && (include_children == IncludedChildren::Nothing || (
                    include_children == IncludedChildren::Unnamed && rest[k].named));
                assert(children[k] == rest[k]);
            } else {
                assert(children[last].range.start <= byte < children[last].range.end);
            }
        }
        if is_left_out(include_children, children, byte) {
            let k = choose|k: int|
                0 <= k < children.len() && (#[trigger] children[k]).range.start <= byte
                    < children[k].range.end && (include_children == IncludedChildren::Nothing || (
                include_children == IncludedChildren::Unnamed && children[k].named));
            if k < last {
                assert(rest[k] == children[k]);
                assert(covers(front, byte));
                let i = choose|i: int|
                    0 <= i < front.len() && (#[trigger] front[i]).start <= byte < front[i].end;
                assert(all[i] == front[i]);
            } else {
                assert(all[front.len() as int] == children.last().range);
            }
        }
    }
}

/// A match injects the bytes of its node that lie in the layer around it and in no child that stays
/// out, in ranges that come one behind the other.
pub proof fn lemma_injected_bytes(
    include_children: IncludedChildren,
    node: MatchedRange,
    parents: Seq<Range<u32>>,
    byte: int,
)
    requires
        carvable(
            node.range.start,
            node.range.end,
            without_empty(excluded_children(include_children, node.children@)),
            parents.skip(first_reaching(parents, node.range.start)),
        ),
    ensures
        in_sequence(injected_ranges(include_children, node, parents)),
        covers(injected_ranges(include_children, node, parents), byte) <==> {
            &&& node.range.start <= byte < node.range.end
            &&& covers(parents, byte)
            &&& !is_left_out(include_children, node.children@, byte)
        },
{
    let excluded = excluded_children(include_children, node.children@);
    let at = first_reaching(parents, node.range.start);
    let behind = parents.skip(at);
    lemma_carved_keeps_the_rest(
        node.range.start,
        node.range.end,
        without_empty(excluded),
        behind,
    );
    lemma_without_empty_covers(excluded, byte);
    lemma_excluded_children(include_children, node.children@, byte);
    lemma_first_reaching(parents, node.range.start);
    if covers(behind, byte) {
        let i = choose|i: int|
            0 <= i < behind.len() && (#[trigger] behind[i]).start <= byte < behind[i].end;
        assert(parents[at + i] == behind[i]);
    }
    if covers(parents, byte) && node.range.start <= byte {
        let i = choose|i: int|
            0 <= i < parents.len() && (#[trigger] parents[i]).start <= byte < parents[i].end;
        if i >= at {
            assert(behind[i - at] == parents[i]);
        } else {
            assert(parents[i].end <= node.range.start);
        }
    }
}

/// A candidate is of the language, the pattern and the scope of its match, and covers its node.
/// What it injects lies in the node, as far as that is well formed.
pub proof fn lemma_candidate_of_a_match(
    candidate: InjectionCandidate,
    query_match: InjectionQueryMatch,
    parents: Seq<Range<u32>>,
)
    requires
        is_candidate_of(candidate, query_match, parents),
    ensures
        candidate.language == query_match.language,
        candidate.pattern == query_match.pattern,
        candidate.scope == query_match.scope,
        candidate.last_match == query_match.last_match,
        candidate.matched_node_range.start == query_match.node.range.start,
        candidate.matched_node_range.end == query_match.node.range.end,
        candidate.emitted_ranges@ == injected_ranges(
            query_match.include_children,
            query_match.node,
            parents,
        ),
{
}

/// The place of a match among any ranges that were accepted. Where the last of them neither shares
/// a byte with it nor begins with it, the place is behind all of them. Where the last one begins no
/// later than the match, there is none. Else the place is before the first range that ends behind
/// the begin of the match, provided that one does not begin before the end of the match.
pub proof fn lemma_place_among_any(accepted: Seq<Range<u32>>, matched: Range<u32>, at: int)
    requires
        accepted.len() > 0,
        0 <= at <= accepted.len(),
        forall|i: int| 0 <= i < at ==> (#[trigger] accepted[i]).end <= matched.start,
        at < accepted.len() ==> accepted[at].end > matched.start,
    ensures
        ({
            let last = accepted[accepted.len() - 1];
            let meets = last.start == matched.start || (last.end > matched.start && matched.end
                > last.start);
            let place = place_for(accepted, matched);
            &&& !meets ==> place == Some(accepted.len() as int)
            &&& meets && last.start <= matched.start ==> place is None
            &&& meets && last.start > matched.start && at < accepted.len() && accepted[at].start
                < matched.end ==> place is None
            &&& meets && last.start > matched.start && (at == accepted.len() || accepted[at].start
                >= matched.end) ==> place == Some(at)
        }),
{
    lemma_first_reaching(accepted, matched.start);
    let found = first_reaching(accepted, matched.start);
    if found < at {
        assert(accepted[found].end <= matched.start);
    } else if at < found {
        assert(accepted[at].end <= matched.start);
    }
}

} // verus!
