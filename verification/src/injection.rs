//! Matches of an injection query: in which order they come, and which of them comes first where
//! they compete.
use crate::ordering::{into_queue, lemma_stably_ordered, order_by_key, stably_ordered, Keyed};
use crate::types::{same_range, Language, Pattern};
use std::collections::VecDeque;
use std::ops::Range;
use vstd::prelude::*;

verus! {

/// Which children of a matched node belong to the injected text.
#[derive(Debug, Clone, Copy, PartialEq, Eq, Structural)]
pub enum IncludedChildren {
    /// Nothing: the text is what lies between the children.
    Nothing,
    /// All: the text is the whole node.
    All,
    /// Those without a name in the grammar.
    Unnamed,
}

impl Default for IncludedChildren {
    fn default() -> (children: Self)
        ensures
            children == IncludedChildren::Nothing,
    {
        IncludedChildren::Nothing
    }
}

/// What joins several matched nodes into one layer.
#[derive(Debug, Clone, Copy, PartialEq, Eq, Structural, Hash)]
pub enum InjectionScope {
    /// The nodes of one match.
    Match { id: u32 },
    /// All nodes that a pattern finds for a language.
    Pattern { pattern: Pattern, language: Language },
}

/// A child of a matched node.
#[derive(Debug, PartialEq, Eq)]
pub struct NodeChild {
    pub range: Range<u32>,
    pub named: bool,
}

/// A matched node: the bytes it covers and its children.
#[derive(Debug, PartialEq, Eq)]
pub struct MatchedRange {
    pub range: Range<u32>,
    pub children: Vec<NodeChild>,
}

/// A node whose text is to be parsed as another language.
#[derive(Debug, PartialEq, Eq)]
pub struct InjectionQueryMatch {
    pub include_children: IncludedChildren,
    pub language: Language,
    pub scope: Option<InjectionScope>,
    pub node: MatchedRange,
    /// The node is the last content node of its match.
    pub last_match: bool,
    pub pattern: Pattern,
}

/// A match that was taken, with the bytes it injects.
#[derive(Debug, PartialEq, Eq)]
pub struct InjectionCandidate {
    pub language: Language,
    pub pattern: Pattern,
    pub scope: Option<InjectionScope>,
    pub last_match: bool,
    pub matched_node_range: Range<u32>,
    pub emitted_ranges: Vec<Range<u32>>,
}

impl Keyed for InjectionQueryMatch {
    /// Later patterns come last; within a pattern, earlier nodes come last.
    open spec fn order_key(&self) -> u64 {
        (self.pattern.0 * 0x1_0000_0000 + (u32::MAX - self.node.range.start)) as u64
    }

    fn key(&self) -> u64 {
        self.pattern.0 as u64 * 0x1_0000_0000 + (u32::MAX - self.node.range.start) as u64
    }
}

/// Whether a range comes before another one in the order of the document: it begins earlier, or at
/// the same byte and ends later.
pub open spec fn precedes(a: Range<u32>, b: Range<u32>) -> bool {
    a.start < b.start || (a.start == b.start && a.end > b.end)
}

/// Whether matches are in the order of the document. No two of them are of the same node, and a
/// node around another one comes first.
pub open spec fn in_document_order(matches: Seq<InjectionQueryMatch>) -> bool {
    forall|i: int, j: int|
        0 <= i < j < matches.len() ==> precedes(
            (#[trigger] matches[i]).node.range,
            (#[trigger] matches[j]).node.range,
        )
}

/// Whether no match is of an empty node.
pub open spec fn none_empty(matches: Seq<InjectionQueryMatch>) -> bool {
    forall|i: int|
        0 <= i < matches.len() ==> (#[trigger] matches[i]).node.range.start
            < matches[i].node.range.end
}

/// The number of leading matches that come before a range.
pub open spec fn place_of(matches: Seq<InjectionQueryMatch>, range: Range<u32>) -> int
    decreases matches.len(),
{
    if matches.len() == 0 || precedes(matches.last().node.range, range) {
        matches.len() as int
    } else {
        place_of(matches.drop_last(), range)
    }
}

/// Matches in the order of the document, and one more. Of two matches of the same node the one of
/// the later pattern stays, and of one pattern the one that comes later.
pub open spec fn placed(
    matches: Seq<InjectionQueryMatch>,
    next: InjectionQueryMatch,
) -> Seq<InjectionQueryMatch> {
    let at = place_of(matches, next.node.range);
    if at < matches.len() && matches[at].node.range == next.node.range {
        if matches[at].pattern.0 <= next.pattern.0 {
            matches.update(at, next)
        } else {
            matches
        }
    } else {
        matches.insert(at, next)
    }
}

/// Matches in the order of the document, one of each node.
pub open spec fn resolved(matches: Seq<InjectionQueryMatch>) -> Seq<InjectionQueryMatch>
    decreases matches.len(),
{
    if matches.len() == 0 {
        matches
    } else {
        placed(resolved(matches.drop_last()), matches.last())
    }
}

proof fn lemma_place_of(matches: Seq<InjectionQueryMatch>, range: Range<u32>)
    requires
        in_document_order(matches),
    ensures
        0 <= place_of(matches, range) <= matches.len(),
        forall|i: int|
            0 <= i < place_of(matches, range) ==> precedes((#[trigger] matches[i]).node.range, range),
        forall|i: int|
            place_of(matches, range) <= i < matches.len() ==> !precedes(
                (#[trigger] matches[i]).node.range,
                range,
            ),
    decreases matches.len(),
{
    if matches.len() > 0 && !precedes(matches.last().node.range, range) {
        let front = matches.drop_last();
        assert forall|i: int, j: int| 0 <= i < j < front.len() implies precedes(
            (#[trigger] front[i]).node.range,
            (#[trigger] front[j]).node.range,
        ) by {
            assert(precedes(matches[i].node.range, matches[j].node.range));
        }
        lemma_place_of(front, range);
        assert forall|i: int|
            place_of(matches, range) <= i < matches.len() implies !precedes(
            (#[trigger] matches[i]).node.range,
            range,
        ) by {
            if i < front.len() {
                assert(front[i] == matches[i]);
            }
        }
        assert forall|i: int| 0 <= i < place_of(matches, range) implies precedes(
            (#[trigger] matches[i]).node.range,
            range,
        ) by {
            assert(front[i] == matches[i]);
        }
    } else if matches.len() > 0 {
        assert forall|i: int| 0 <= i < matches.len() implies precedes(
            (#[trigger] matches[i]).node.range,
            range,
        ) by {
            if i < matches.len() - 1 {
                assert(precedes(matches[i].node.range, matches[matches.len() - 1].node.range));
            }
        }
    }
}

/// Whether a match, or one of the very same node that is of no earlier pattern, is among others.
pub open spec fn stands_for(
    matches: Seq<InjectionQueryMatch>,
    wanted: InjectionQueryMatch,
) -> bool {
    exists|k: int|
        0 <= k < matches.len() && (#[trigger] matches[k]).node.range == wanted.node.range
            && matches[k].pattern.0 >= wanted.pattern.0
}

/// Putting one more match into the order of the document keeps that order.
proof fn lemma_placed_in_order(matches: Seq<InjectionQueryMatch>, next: InjectionQueryMatch)
    requires
        in_document_order(matches),
    ensures
        in_document_order(placed(matches, next)),
{
    lemma_place_of(matches, next.node.range);
    let at = place_of(matches, next.node.range);
    let out = placed(matches, next);
    if at < matches.len() && matches[at].node.range == next.node.range {
        assert forall|i: int, j: int| 0 <= i < j < out.len() implies precedes(
            (#[trigger] out[i]).node.range,
            (#[trigger] out[j]).node.range,
        ) by {
            assert(out[i].node.range == matches[i].node.range);
            assert(out[j].node.range == matches[j].node.range);
        }
    } else {
        assert forall|i: int, j: int| 0 <= i < j < out.len() implies precedes(
            (#[trigger] out[i]).node.range,
            (#[trigger] out[j]).node.range,
        ) by {
            if i < at && j > at {
                assert(out[i] == matches[i] && out[j] == matches[j - 1]);
            } else if i < at && j < at {
                assert(out[i] == matches[i] && out[j] == matches[j]);
            } else if i > at {
                assert(out[i] == matches[i - 1] && out[j] == matches[j - 1]);
            } else if i == at {
                assert(out[i] == next && out[j] == matches[j - 1]);
                assert(!precedes(matches[at].node.range, next.node.range));
                if j - 1 > at {
                    assert(precedes(matches[at].node.range, matches[j - 1].node.range));
                }
            } else {
                assert(out[i] == matches[i] && out[j] == next);
            }
        }
    }
}

/// What is there when one more match is put into the order of the document was there before, or is
/// that match.
proof fn lemma_placed_were_there(matches: Seq<InjectionQueryMatch>, next: InjectionQueryMatch)
    requires
        in_document_order(matches),
    ensures
        forall|i: int|
            0 <= i < placed(matches, next).len() ==> (#[trigger] placed(matches, next)[i]) == next
                || matches.contains(placed(matches, next)[i]),
{
    lemma_place_of(matches, next.node.range);
    let at = place_of(matches, next.node.range);
    let out = placed(matches, next);
    assert forall|i: int| 0 <= i < out.len() implies (#[trigger] out[i]) == next
        || matches.contains(out[i]) by {
        if out[i] != next {
            if at < matches.len() && matches[at].node.range == next.node.range || i < at {
                assert(out[i] == matches[i]);
            } else {
                assert(out[i] == matches[i - 1]);
            }
        }
    }
}

/// What is there stays, or gives way to a match of no earlier pattern, when one more match is put
/// into the order of the document.
proof fn lemma_placed_stand(
    matches: Seq<InjectionQueryMatch>,
    next: InjectionQueryMatch,
    wanted: InjectionQueryMatch,
)
    requires
        in_document_order(matches),
        wanted == next || stands_for(matches, wanted),
    ensures
        stands_for(placed(matches, next), wanted),
{
    lemma_place_of(matches, next.node.range);
    let at = place_of(matches, next.node.range);
    let out = placed(matches, next);
    let met = at < matches.len() && matches[at].node.range == next.node.range;
    if wanted == next {
        assert(out[at].node.range == next.node.range);
    } else {
        let k = choose|k: int|
            0 <= k < matches.len() && (#[trigger] matches[k]).node.range == wanted.node.range
                && matches[k].pattern.0 >= wanted.pattern.0;
        if met || k < at {
            assert(out[k].node.range == matches[k].node.range);
        } else {
            assert(out[k + 1] == matches[k]);
        }
    }
}

/// Matches that are resolved are in the order of the document: they begin one after the other, no
/// two are of the same node, and a node around another one comes first. None of them is empty
/// unless an empty one was found.
pub proof fn lemma_resolved_in_document_order(matches: Seq<InjectionQueryMatch>)
    ensures
        in_document_order(resolved(matches)),
        none_empty(matches) ==> none_empty(resolved(matches)),
    decreases matches.len(),
{
    if matches.len() > 0 {
        let front = matches.drop_last();
        lemma_resolved_in_document_order(front);
        lemma_placed_in_order(resolved(front), matches.last());
        lemma_placed_were_there(resolved(front), matches.last());
        if none_empty(matches) {
            assert(none_empty(front)) by {
                assert forall|i: int| 0 <= i < front.len() implies (
                #[trigger] front[i]).node.range.start < front[i].node.range.end by {
                    assert(front[i] == matches[i]);
                }
            }
            assert(matches[matches.len() - 1] == matches.last());
            let out = resolved(matches);
            assert forall|i: int| 0 <= i < out.len() implies (#[trigger] out[i]).node.range.start
                < out[i].node.range.end by {
                if out[i] != matches.last() {
                    let k = choose|k: int|
                        0 <= k < resolved(front).len() && resolved(front)[k] == out[i];
                    assert(resolved(front)[k].node.range.start < resolved(front)[k].node.range.end);
                }
            }
        }
    }
}

/// Only matches that were found are taken.
pub proof fn lemma_resolved_were_found(matches: Seq<InjectionQueryMatch>)
    ensures
        forall|i: int|
            0 <= i < resolved(matches).len() ==> matches.contains(#[trigger] resolved(matches)[i]),
    decreases matches.len(),
{
    if matches.len() > 0 {
        let front = matches.drop_last();
        lemma_resolved_were_found(front);
        lemma_resolved_in_document_order(front);
        lemma_placed_were_there(resolved(front), matches.last());
        let out = resolved(matches);
        assert forall|i: int| 0 <= i < out.len() implies matches.contains(#[trigger] out[i]) by {
            if out[i] == matches.last() {
                assert(matches[matches.len() - 1] == out[i]);
            } else {
                let at = choose|at: int|
                    0 <= at < resolved(front).len() && resolved(front)[at] == out[i];
                assert(front.contains(resolved(front)[at]));
                let k = choose|k: int| 0 <= k < front.len() && front[k] == out[i];
                assert(matches[k] == out[i]);
            }
        }
    }
}

/// A match that is not taken gives way to a match of the very same node that is of no earlier
/// pattern.
pub proof fn lemma_resolved_drops_only_repeats(matches: Seq<InjectionQueryMatch>)
    ensures
        forall|i: int|
            0 <= i < matches.len() ==> stands_for(resolved(matches), #[trigger] matches[i]),
    decreases matches.len(),
{
    if matches.len() > 0 {
        let front = matches.drop_last();
        lemma_resolved_drops_only_repeats(front);
        lemma_resolved_in_document_order(front);
        assert forall|i: int| 0 <= i < matches.len() implies stands_for(
            resolved(matches),
            #[trigger] matches[i],
        ) by {
            if i < front.len() {
                assert(front[i] == matches[i]);
            }
            lemma_placed_stand(resolved(front), matches.last(), matches[i]);
        }
    }
}

/// Tells whether a range comes before another one in the order of the document.
fn comes_before(a: &Range<u32>, b: &Range<u32>) -> (before: bool)
    ensures
        before == precedes(*a, *b),
{
    a.start < b.start || (a.start == b.start && a.end > b.end)
}

/// Puts one more match into the order of the document.
fn place_match(matches: &mut Vec<InjectionQueryMatch>, next: InjectionQueryMatch)
    ensures
        final(matches)@ == placed(old(matches)@, next),
{
    let ghost whole = matches@;
    let mut at: usize = matches.len();
    assert(whole.take(at as int) =~= whole);
    while at > 0 && !comes_before(&matches[at - 1].node.range, &next.node.range)
        invariant
            at <= matches.len(),
            matches@ == whole,
            place_of(whole, next.node.range) == place_of(whole.take(at as int), next.node.range),
        decreases at,
    {
        assert(whole.take(at as int).last() == whole[at - 1]);
        assert(whole.take(at as int).drop_last() =~= whole.take(at - 1));
        at = at - 1;
    }
    proof {
        if at > 0 {
            assert(whole.take(at as int).last() == whole[at - 1]);
        }
        assert(place_of(whole, next.node.range) == at);
    }
    if at < matches.len() && same_range(&matches[at].node.range, &next.node.range) {
        if matches[at].pattern.0 <= next.pattern.0 {
            matches.set(at, next);
        }
    } else {
        matches.insert(at, next);
    }
}

/// Puts the matches of an injection query in the order of the document. Of several matches of one
/// node, the one of the latest pattern is kept.
pub fn resolve_overlaps(matches: Vec<InjectionQueryMatch>) -> (out: Vec<InjectionQueryMatch>)
    ensures
        out@ == resolved(matches@),
        in_document_order(out@),
        none_empty(matches@) ==> none_empty(out@),
{
    let ghost whole = matches@;
    let mut rest: VecDeque<InjectionQueryMatch> = into_queue(matches);
    let mut out: Vec<InjectionQueryMatch> = Vec::with_capacity(rest.len());
    let ghost mut done: int = 0;
    proof {
        assert(whole.take(0) =~= Seq::empty());
        assert(whole.skip(0) =~= whole);
    }
    while rest.len() > 0
        invariant
            0 <= done <= whole.len(),
            rest@ == whole.skip(done),
            out@ == resolved(whole.take(done)),
        decreases rest.len(),
    {
        proof {
            assert(rest@[0] == whole[done]);
            assert(whole.take(done + 1).drop_last() =~= whole.take(done));
            assert(whole.take(done + 1).last() == whole[done]);
            assert(rest@.drop_first() =~= whole.skip(done + 1));
        }
        if let Some(next) = rest.pop_front() {
            place_match(&mut out, next);
            proof {
                done = done + 1;
            }
        }
    }
    proof {
        assert(whole.take(done) =~= whole);
        lemma_resolved_in_document_order(whole);
    }
    out
}

/// The number of leading matches that end no later than `end`.
pub open spec fn absorbed(matches: Seq<InjectionQueryMatch>, end: u32) -> int
    decreases matches.len(),
{
    if matches.len() > 0 && matches[0].node.range.end <= end {
        1 + absorbed(matches.drop_first(), end)
    } else {
        0
    }
}

/// The order in which competing matches have their turn: later patterns first, and of one pattern
/// earlier nodes first.
pub open spec fn by_precedence(group: Seq<InjectionQueryMatch>) -> Seq<InjectionQueryMatch> {
    stably_ordered(group).reverse()
}

/// The matches in the order in which they have their turn, if they come in the order of the
/// document. A match that includes children competes with those that end inside it. One that
/// includes none competes with no other.
pub open spec fn in_turn(matches: Seq<InjectionQueryMatch>) -> Seq<InjectionQueryMatch>
    decreases matches.len(),
{
    if matches.len() == 0 {
        matches
    } else if matches[0].include_children == IncludedChildren::Nothing {
        seq![matches[0]] + in_turn(matches.skip(1))
    } else {
        proof {
            lemma_absorbed(matches.skip(1), matches[0].node.range.end);
        }
        let more = absorbed(matches.skip(1), matches[0].node.range.end);
        by_precedence(matches.skip(1).take(more).push(matches[0])) + in_turn(
            matches.skip(1 + more),
        )
    }
}

pub proof fn lemma_absorbed(matches: Seq<InjectionQueryMatch>, end: u32)
    ensures
        0 <= absorbed(matches, end) <= matches.len(),
    decreases matches.len(),
{
    if matches.len() > 0 {
        lemma_absorbed(matches.drop_first(), end);
    }
}

/// Reversing a sequence moves items and does nothing else.
proof fn lemma_reversed<T>(items: Seq<T>)
    ensures
        items.reverse().to_multiset() == items.to_multiset(),
    decreases items.len(),
{
    broadcast use vstd::seq_lib::group_to_multiset_ensures;

    if items.len() > 0 {
        let front = items.drop_last();
        lemma_reversed(front);
        assert(items =~= front.push(items.last()));
        assert(items.reverse() =~= seq![items.last()] + front.reverse());
        vstd::seq_lib::lemma_multiset_commutative(seq![items.last()], front.reverse());
        assert(front.reverse() + seq![items.last()] =~= front.reverse().push(items.last()));
    } else {
        assert(items.reverse() =~= items);
    }
}

/// Every match has its turn, and none has it twice.
pub proof fn lemma_all_have_their_turn(matches: Seq<InjectionQueryMatch>)
    ensures
        in_turn(matches).to_multiset() == matches.to_multiset(),
    decreases matches.len(),
{
    broadcast use vstd::seq_lib::group_to_multiset_ensures;

    if matches.len() > 0 {
        let more = if matches[0].include_children == IncludedChildren::Nothing {
            0
        } else {
            absorbed(matches.skip(1), matches[0].node.range.end)
        };
        lemma_absorbed(matches.skip(1), matches[0].node.range.end);
        let group = matches.skip(1).take(more).push(matches[0]);
        let behind = matches.skip(1 + more);
        lemma_all_have_their_turn(behind);
        lemma_stably_ordered(group);
        let ordered = stably_ordered(group);
        vstd::seq_lib::lemma_multiset_commutative(ordered.reverse(), in_turn(behind));
        lemma_reversed(ordered);
        vstd::seq_lib::lemma_multiset_commutative(seq![matches[0]], matches.skip(1).take(more));
        vstd::seq_lib::lemma_multiset_commutative(
            seq![matches[0]] + matches.skip(1).take(more),
            behind,
        );
        assert(matches =~= seq![matches[0]] + matches.skip(1).take(more) + behind);
        assert(group =~= matches.skip(1).take(more) + seq![matches[0]]);
        vstd::seq_lib::lemma_multiset_commutative(matches.skip(1).take(more), seq![matches[0]]);
        if matches[0].include_children == IncludedChildren::Nothing {
            assert(matches.skip(1).take(0) =~= Seq::empty());
            assert(behind =~= matches.skip(1));
            assert(group =~= seq![matches[0]]);
            reveal_with_fuel(stably_ordered, 2);
            assert(group.drop_last() =~= Seq::empty());
            assert(ordered =~= seq![matches[0]]);
            assert(ordered.reverse() =~= seq![matches[0]]);
        }
        assert(in_turn(matches) =~= ordered.reverse() + in_turn(behind));
    }
}

/// Takes the first match and those that compete with it off `rest`, and appends them to `out` in
/// the order in which they have their turn.
fn take_group(rest: &mut VecDeque<InjectionQueryMatch>, out: &mut Vec<InjectionQueryMatch>)
    requires
        old(rest).len() > 0,
    ensures
        final(out)@ + in_turn(final(rest)@) == old(out)@ + in_turn(old(rest)@),
        final(rest).len() < old(rest).len(),
{
    let ghost now = rest@;
    let ghost out_before = out@;
    if let Some(lead) = rest.pop_front() {
        assert(rest@ =~= now.skip(1));
        if lead.include_children == IncludedChildren::Nothing {
            out.push(lead);
            assert(out@ =~= out_before + seq![lead]);
            assert(out@ + in_turn(rest@) =~= out_before + (seq![lead] + in_turn(rest@)));
        } else {
            let end: u32 = lead.node.range.end;
            let mut group: Vec<InjectionQueryMatch> = Vec::new();
            let ghost tail = rest@;
            let ghost more = absorbed(tail, end);
            while rest.len() > 0 && rest[0].node.range.end <= end
                invariant
                    group.len() <= tail.len(),
                    group@ == tail.take(group.len() as int),
                    rest@ == tail.skip(group.len() as int),
                    more == group.len() + absorbed(rest@, end),
                decreases rest.len(),
            {
                let ghost shown = rest@;
                if let Some(next) = rest.pop_front() {
                    group.push(next);
                    assert(shown.drop_first() == rest@);
                    assert(group@ == tail.take(group.len() as int));
                    assert(rest@ == tail.skip(group.len() as int));
                }
            }
            assert(more == group.len());
            assert(rest@ =~= now.skip(1 + more));
            group.push(lead);
            order_by_key(&mut group);
            let ghost ordered = group@;
            assert(ordered.reverse() == by_precedence(tail.take(more).push(lead)));
            while group.len() > 0
                invariant
                    out@ + group@.reverse() == out_before + ordered.reverse(),
                decreases group.len(),
            {
                let ghost shown = group@;
                let ghost out_now = out@;
                if let Some(next) = group.pop() {
                    assert(shown == group@.push(next));
                    assert(shown.reverse() == seq![next] + group@.reverse());
                    out.push(next);
                    assert(out@ + group@.reverse() == out_now + shown.reverse());
                }
            }
            assert(out@ == out_before + ordered.reverse());
            assert(out@ + in_turn(rest@) == out_before + (ordered.reverse() + in_turn(rest@)));
        }
    }
}

/// Puts matches that come in the order of the document in the order in which they have their turn.
pub fn order_by_precedence(matches: Vec<InjectionQueryMatch>) -> (out: Vec<InjectionQueryMatch>)
    ensures
        out@ == in_turn(matches@),
{
    let ghost whole = matches@;
    let mut rest: VecDeque<InjectionQueryMatch> = into_queue(matches);
    let mut out: Vec<InjectionQueryMatch> = Vec::with_capacity(rest.len());
    assert(out@ + in_turn(rest@) == in_turn(whole));
    while rest.len() > 0
        invariant
            out@ + in_turn(rest@) == in_turn(whole),
        decreases rest.len(),
    {
        take_group(&mut rest, &mut out);
    }
    assert(in_turn(rest@) == Seq::<InjectionQueryMatch>::empty());
    out
}

/// What the order of the document is: nodes begin one after the other, of nodes that begin together
/// the one that ends later comes first, and no node comes twice.
pub proof fn lemma_document_order(matches: Seq<InjectionQueryMatch>)
    ensures
        in_document_order(matches) <==> forall|i: int, j: int|
            0 <= i < j < matches.len() ==> {
                let (a, b) = (
                    (#[trigger] matches[i]).node.range,
                    (#[trigger] matches[j]).node.range,
                );
                a.start < b.start || (a.start == b.start && a.end > b.end)
            },
        none_empty(matches) <==> forall|i: int|
            0 <= i < matches.len() ==> (#[trigger] matches[i]).node.range.start
                < matches[i].node.range.end,
{
}

/// Of competing matches, those of later patterns have their turn first, and of one pattern those
/// whose nodes begin earlier. All of them have it, and no other.
pub proof fn lemma_precedence(group: Seq<InjectionQueryMatch>)
    ensures
        by_precedence(group).to_multiset() == group.to_multiset(),
        by_precedence(group).len() == group.len(),
        forall|i: int, j: int|
            0 <= i < j < group.len() ==> {
                let (a, b) = (
                    #[trigger] by_precedence(group)[i],
                    #[trigger] by_precedence(group)[j],
                );
                a.pattern.0 > b.pattern.0 || (a.pattern.0 == b.pattern.0 && a.node.range.start
                    <= b.node.range.start)
            },
{
    lemma_stably_ordered(group);
    let ordered = stably_ordered(group);
    lemma_reversed(ordered);
    assert forall|i: int, j: int| 0 <= i < j < group.len() implies {
        let (a, b) = (#[trigger] by_precedence(group)[i], #[trigger] by_precedence(group)[j]);
        a.pattern.0 > b.pattern.0 || (a.pattern.0 == b.pattern.0 && a.node.range.start
            <= b.node.range.start)
    } by {
        let (x, y) = (ordered[group.len() - 1 - j], ordered[group.len() - 1 - i]);
        assert(x.order_key() <= y.order_key());
    }
}

/// A match that includes children competes with the matches behind it that end no later than it
/// does, up to the first that ends later: later patterns have their turn first, and of one pattern
/// the nodes that begin earlier. The turns of the matches behind them are not touched.
pub proof fn lemma_turns_of_competing_matches(matches: Seq<InjectionQueryMatch>, count: int)
    requires
        0 <= count < matches.len(),
        matches[0].include_children != IncludedChildren::Nothing,
        forall|i: int|
            0 < i <= count ==> (#[trigger] matches[i]).node.range.end <= matches[0].node.range.end,
        count + 1 < matches.len() ==> matches[count + 1].node.range.end
            > matches[0].node.range.end,
    ensures
        in_turn(matches).len() == matches.len(),
        in_turn(matches).take(count + 1).to_multiset() == matches.take(count + 1).to_multiset(),
        in_turn(matches).skip(count + 1) == in_turn(matches.skip(count + 1)),
        forall|i: int, j: int|
            0 <= i < j <= count ==> {
                let (a, b) = (#[trigger] in_turn(matches)[i], #[trigger] in_turn(matches)[j]);
                a.pattern.0 > b.pattern.0 || (a.pattern.0 == b.pattern.0 && a.node.range.start
                    <= b.node.range.start)
            },
{
    broadcast use vstd::seq_lib::group_to_multiset_ensures;

    let tail = matches.skip(1);
    let end = matches[0].node.range.end;
    assert forall|i: int| 0 <= i < count implies (#[trigger] tail[i]).node.range.end <= end by {
        assert(tail[i] == matches[i + 1]);
    }
    lemma_absorbed_count(tail, end, count);
    let group = tail.take(count).push(matches[0]);
    let first = by_precedence(group);
    let behind = matches.skip(1 + count);
    let out = in_turn(matches);
    assert(out == first + in_turn(behind));
    lemma_precedence(group);
    assert(first.len() == count + 1);
    assert(out.take(count + 1) =~= first);
    assert(out.skip(count + 1) =~= in_turn(behind));
    vstd::seq_lib::lemma_multiset_commutative(tail.take(count), seq![matches[0]]);
    vstd::seq_lib::lemma_multiset_commutative(seq![matches[0]], tail.take(count));
    assert(group =~= tail.take(count) + seq![matches[0]]);
    assert(matches.take(count + 1) =~= seq![matches[0]] + tail.take(count));
    lemma_all_have_their_turn(matches);
    assert(out.len() == matches.len()) by {
        lemma_all_have_their_turn(behind);
        assert(in_turn(behind).to_multiset().len() == behind.to_multiset().len());
    }
    assert forall|i: int, j: int| 0 <= i < j <= count implies {
        let (a, b) = (#[trigger] out[i], #[trigger] out[j]);
        a.pattern.0 > b.pattern.0 || (a.pattern.0 == b.pattern.0 && a.node.range.start
            <= b.node.range.start)
    } by {
        assert(out[i] == first[i] && out[j] == first[j]);
    }
}

/// A match that includes no children competes with none behind it.
pub proof fn lemma_turn_of_a_match_without_children(matches: Seq<InjectionQueryMatch>)
    requires
        matches.len() > 0,
        matches[0].include_children == IncludedChildren::Nothing,
    ensures
        in_turn(matches).len() > 0,
        in_turn(matches)[0] == matches[0],
        in_turn(matches).skip(1) == in_turn(matches.skip(1)),
{
    assert(in_turn(matches).skip(1) =~= in_turn(matches.skip(1)));
}

proof fn lemma_absorbed_count(matches: Seq<InjectionQueryMatch>, end: u32, count: int)
    requires
        0 <= count <= matches.len(),
        forall|i: int| 0 <= i < count ==> (#[trigger] matches[i]).node.range.end <= end,
        count < matches.len() ==> matches[count].node.range.end > end,
    ensures
        absorbed(matches, end) == count,
    decreases count,
{
    if count > 0 {
        assert(matches[0].node.range.end <= end);
        let rest = matches.drop_first();
        assert forall|i: int| 0 <= i < count - 1 implies (#[trigger] rest[i]).node.range.end
            <= end by {
            assert(rest[i] == matches[i + 1]);
        }
        lemma_absorbed_count(rest, end, count - 1);
    }
}

/// Of the matches of one node, the one of the latest pattern is kept, and of one pattern the one
/// that came last. Each node that was matched has one.
pub proof fn lemma_latest_pattern_is_kept(matches: Seq<InjectionQueryMatch>, at: int)
    requires
        0 <= at < matches.len(),
        forall|i: int|
            #![trigger matches[i]]
            0 <= i < matches.len() && matches[i].node.range == matches[at].node.range
                ==> matches[i].pattern.0 < matches[at].pattern.0 || (matches[i].pattern.0
                == matches[at].pattern.0 && i <= at),
    ensures
        resolved(matches).contains(matches[at]),
    decreases matches.len(),
{
    let front = matches.drop_last();
    let next = matches.last();
    let before = resolved(front);
    let out = resolved(matches);
    lemma_resolved_in_document_order(front);
    lemma_resolved_were_found(front);
    lemma_place_of(before, next.node.range);
    let place = place_of(before, next.node.range);
    let met = place < before.len() && before[place].node.range == next.node.range;
    if at == matches.len() - 1 {
        if met {
            assert(front.contains(before[place]));
            let k = choose|k: int| 0 <= k < front.len() && front[k] == before[place];
            assert(matches[k] == before[place]);
        }
        assert(out[place] == next);
    } else {
        assert forall|i: int|
            #![trigger front[i]]
            0 <= i < front.len() && front[i].node.range
                == front[at].node.range implies front[i].pattern.0 < front[at].pattern.0 || (
        front[i].pattern.0 == front[at].pattern.0 && i <= at) by {
            assert(front[i] == matches[i]);
        }
        assert(front[at] == matches[at]);
        lemma_latest_pattern_is_kept(front, at);
        let k = choose|k: int| 0 <= k < before.len() && before[k] == matches[at];
        if met {
            if k == place {
                assert(matches[matches.len() - 1] == next);
                assert(next.pattern.0 < matches[at].pattern.0);
                assert(out[k] == matches[at]);
            } else {
                assert(out[k] == matches[at]);
            }
        } else if k < place {
            assert(out[k] == matches[at]);
        } else {
            assert(out[k + 1] == matches[at]);
        }
    }
}

} // verus!
