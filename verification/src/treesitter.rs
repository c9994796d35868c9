//! What the library asks of the tree-sitter bindings: queries, trees and parses, as plain values.
use crate::byte_text::{byte_len, fits, is_boundary};
use crate::injection::NodeChild;
use crate::rope::{in_one_piece, slice_text};
use crate::types::{Capture, InputEdit, Pattern};
use ropey::RopeSlice;
use std::iter::from_fn;
use std::ops::Range;
use std::time::Duration;
use tree_house_bindings::{Grammar, InactiveQueryCursor, Parser, Query, Tree};
use tree_house_bindings::query::{ParseError, UserPredicate};
use vstd::prelude::*;
use vstd::utf8::*;

verus! {

#[verifier::external_type_specification]
#[verifier::external_body]
pub struct ExGrammar(tree_house_bindings::Grammar);

#[verifier::external_type_specification]
#[verifier::external_body]
pub struct ExQuery(tree_house_bindings::Query);

#[verifier::external_type_specification]
#[verifier::external_body]
pub struct ExTree(tree_house_bindings::Tree);

#[verifier::external_type_specification]
#[verifier::external_body]
pub struct ExParseError(tree_house_bindings::query::ParseError);

/// A predicate of a query pattern that tree-sitter leaves to its caller.
#[derive(Debug, PartialEq, Eq)]
pub enum QueryPredicate {
    /// `#is?` or, negated, `#is-not?`.
    IsPropertySet { negate: bool, key: String, val: Option<String> },
    /// `#set!`.
    SetProperty { key: String, val: Option<String> },
    /// Any other predicate.
    Other { name: String },
}

/// A predicate and the pattern it belongs to.
#[derive(Debug, PartialEq, Eq)]
pub struct PatternPredicate {
    pub pattern: Pattern,
    pub predicate: QueryPredicate,
}

/// What a predicate says, with its strings as sequences of characters.
pub enum PredicateView {
    IsPropertySet { negate: bool, key: Seq<char>, val: Option<Seq<char>> },
    SetProperty { key: Seq<char>, val: Option<Seq<char>> },
    Other { name: Seq<char> },
}

/// What a string holds, if it is there.
pub open spec fn text_of(val: Option<String>) -> Option<Seq<char>> {
    match val {
        Some(val) => Some(val@),
        None => None,
    }
}

impl View for QueryPredicate {
    type V = PredicateView;

    open spec fn view(&self) -> PredicateView {
        match *self {
            QueryPredicate::IsPropertySet { negate, key, val } => PredicateView::IsPropertySet {
                negate,
                key: key@,
                val: text_of(val),
            },
            QueryPredicate::SetProperty { key, val } => PredicateView::SetProperty {
                key: key@,
                val: text_of(val),
            },
            QueryPredicate::Other { name } => PredicateView::Other { name: name@ },
        }
    }
}

/// A predicate and its pattern, as plain mathematical values.
pub struct PatternPredicateView {
    pub pattern: Pattern,
    pub predicate: PredicateView,
}

impl View for PatternPredicate {
    type V = PatternPredicateView;

    open spec fn view(&self) -> PatternPredicateView {
        PatternPredicateView { pattern: self.pattern, predicate: self.predicate@ }
    }
}

/// What some predicates say.
pub open spec fn predicate_views(predicates: Seq<PatternPredicate>) -> Seq<PatternPredicateView> {
    Seq::new(predicates.len(), |i: int| predicates[i]@)
}

/// What comes of a query text.
pub struct CompiledQuery {
    pub query: Query,
    /// The predicates that are left to the caller, in the order of the text.
    pub predicates: Seq<PatternPredicateView>,
}

/// What is read of a query text.
pub struct QueryReading {
    /// The query, or why tree-sitter refuses the text.
    pub query: Result<Query, ParseError>,
    /// The predicates that are left to the caller, in the order of the text. Those of a text that
    /// is refused come before the place where it is.
    pub predicates: Seq<PatternPredicateView>,
}

/// What is read of a query text under a grammar, if the caller takes each predicate.
pub uninterp spec fn compiled(grammar: Grammar, source: Seq<char>) -> QueryReading;

/// The names of a query's captures, by their numbers.
pub uninterp spec fn captures_of(query: Query) -> Seq<Seq<char>>;

/// The query that reports all but one of the captures of another.
pub uninterp spec fn without_capture(query: Query, name: Seq<char>) -> Query;

/// The number of the first capture with a name.
pub open spec fn capture_named(captures: Seq<Seq<char>>, name: Seq<char>) -> Option<Capture> {
    if captures.contains(name) {
        Some(Capture(captures.index_of_first(name)->0 as u32))
    } else {
        None
    }
}

/// `Query::new` with a callback that takes note of each predicate and refuses none. It panics on a
/// text of two gibibytes or more. Patterns are numbered from zero by a count of 32 bits.
#[verifier::external_body]
pub(crate) fn compile_query(grammar: Grammar, source: &str) -> (read: (
    Result<Query, ParseError>,
    Vec<PatternPredicate>,
))
    requires
        byte_len(source@) <= i32::MAX,
    ensures
        compiled(grammar, source@) == (QueryReading {
            query: read.0,
            predicates: predicate_views(read.1@),
        }),
        forall|i: int| 0 <= i < read.1.len() ==> (#[trigger] read.1@[i]).pattern.0 < u32::MAX,
{
    let mut predicates = Vec::new();
    let query = Query::new(grammar, source, |pattern, predicate| {
        let predicate = match predicate {
            UserPredicate::IsPropertySet { negate, key, val } => QueryPredicate::IsPropertySet { negate, key: key.to_owned(), val: val.map(str::to_owned) },
            UserPredicate::SetProperty { key, val } => QueryPredicate::SetProperty { key: key.to_owned(), val: val.map(str::to_owned) },
            UserPredicate::Other(other) => QueryPredicate::Other { name: other.name().to_owned() },
        };
        predicates.push(PatternPredicate { pattern: Pattern(pattern.idx() as u32), predicate });
        Ok(())
    });
    (query, predicates)
}

/// `Query::get_capture`: the number of the first capture with a name. Captures are numbered from
/// zero.
#[verifier::external_body]
pub(crate) fn get_capture(query: &Query, name: &str) -> (capture: Option<Capture>)
    ensures
        capture == capture_named(captures_of(*query), name@),
{
    query.get_capture(name).map(|capture| Capture(capture.idx() as u32))
}

/// `Query::captures`: the names of the captures in the order of their numbers, which have 32 bits.
#[verifier::external_body]
pub(crate) fn capture_names(query: &Query) -> (names: Vec<String>)
    ensures
        names.len() == captures_of(*query).len(),
        names.len() <= u32::MAX,
        forall|i: int| 0 <= i < names.len() ==> (#[trigger] names@[i])@ == captures_of(*query)[i],
{
    query.captures().map(|(_, name)| name.to_owned()).collect()
}

/// `Query::disable_capture`: the query no longer reports the capture. The names and numbers of the
/// captures stay.
#[verifier::external_body]
pub(crate) fn disable_capture(query: &mut Query, name: &str)
    ensures
        *final(query) == without_capture(*old(query), name@),
        captures_of(*final(query)) == captures_of(*old(query)),
{
    query.disable_capture(name)
}

/// A node that a query captured: under which capture, and which bytes.
#[derive(Debug, PartialEq, Eq)]
pub struct CapturedRange {
    pub capture: Capture,
    pub range: Range<u32>,
}

/// One captured node of one match, in the order of the document.
#[derive(Debug, PartialEq, Eq)]
pub struct CaptureEvent {
    /// The match, by its number.
    pub id: u32,
    pub pattern: Pattern,
    /// Which of the nodes of the match this is.
    pub node_idx: u32,
    /// All nodes of the match.
    pub nodes: Vec<CapturedRange>,
    /// The children of this node.
    pub children: Vec<NodeChild>,
}

/// What a capture event says.
pub struct EventView {
    pub id: u32,
    pub pattern: Pattern,
    pub node_idx: u32,
    pub nodes: Seq<CapturedRange>,
    pub children: Seq<NodeChild>,
}

impl View for CaptureEvent {
    type V = EventView;

    open spec fn view(&self) -> EventView {
        EventView {
            id: self.id,
            pattern: self.pattern,
            node_idx: self.node_idx,
            nodes: self.nodes@,
            children: self.children@,
        }
    }
}

/// The bytes that each node of a tree covers, from its begin to its end; those nodes count too that
/// the grammar hides.
pub uninterp spec fn tree_ranges(tree: Tree) -> Set<Range<u32>>;

/// Whether a tree is in sync with a text: its nodes begin and end at the text's characters.
pub open spec fn describes(tree: Tree, text: Seq<char>) -> bool {
    forall|range: Range<u32>| #[trigger]
        tree_ranges(tree).contains(range) ==> fits(text, range.start as int, range.end as int)
}

/// Whether an event is about a node of a tree: the nodes of its match are nodes of the tree, and it
/// is about one of them.
pub open spec fn is_event_of(event: CaptureEvent, tree: Tree) -> bool {
    &&& event.node_idx < event.nodes.len()
    &&& event.nodes.len() <= u16::MAX
    &&& forall|k: int|
        0 <= k < event.nodes.len() ==> tree_ranges(tree).contains(
            (#[trigger] event.nodes@[k]).range,
        )
}

/// The captured node that a query reports next in a tree of a text, while it keeps at most `limit`
/// matches in mind. As many nodes have been reported before as `removed` is long, and it tells of
/// each of them whether its match was removed.
pub uninterp spec fn reported(
    query: Query,
    tree: Tree,
    text: Seq<char>,
    limit: u32,
    removed: Seq<bool>,
) -> Option<EventView>;

/// A captured node that has been decided on: what it comes to, and whether its match was removed.
#[derive(Debug)]
pub struct Judged<R> {
    pub event: CaptureEvent,
    pub answer: R,
    pub removed: bool,
}

/// Which of the matches of some captured nodes were removed.
pub open spec fn removals<R>(judged: Seq<Judged<R>>) -> Seq<bool> {
    Seq::new(judged.len(), |i: int| judged[i].removed)
}

/// Whether these are all the captured nodes that a query reports in a tree of a text, if matches
/// are removed as soon as it is decided on their nodes.
pub open spec fn is_report<R>(
    judged: Seq<Judged<R>>,
    query: Query,
    tree: Tree,
    text: Seq<char>,
    limit: u32,
) -> bool {
    &&& forall|i: int|
        0 <= i < judged.len() ==> is_event_of((#[trigger] judged[i]).event, tree) && reported(
            query,
            tree,
            text,
            limit,
            removals(judged.take(i)),
        ) == Some(judged[i].event@)
    &&& reported(query, tree, text, limit, removals(judged)) is None
}

/// What decides on captured nodes while a query reports them.
pub trait EventJudge<R> {
    /// Whether an event can be decided on.
    spec fn takes(&self, event: CaptureEvent) -> bool;

    /// What an event comes to, and whether its match is done with.
    spec fn verdict(&self, event: CaptureEvent) -> (R, bool);

    /// Decides on an event.
    fn judge(&self, event: CaptureEvent) -> (judged: Judged<R>)
        requires
            self.takes(event),
        ensures
            judged.event == event,
            (judged.answer, judged.removed) == self.verdict(event),
    ;
}

/// `QueryCursor::next_matched_node`, asked until nothing is left, for a cursor that starts at the
/// root of the tree, and `QueryMatch::remove` for the matches that `judge` is done with. The nodes
/// of a match are nodes of the tree, of which a match has at most as many as 16 bits can count, and
/// the node that an event is about is one of them. A cursor keeps between one and 65536 matches in
/// mind. It reads the text of captured nodes piece by piece: where a node lies in more than one
/// piece, what it finds depends on the pieces, and it may panic; so it may where the tree is not in
/// sync with the text.
#[verifier::external_body]
pub(crate) fn judge_events<R, J: EventJudge<R>>(
    query: &Query,
    tree: &Tree,
    source: RopeSlice<'_>,
    limit: u32,
    judge: &J,
) -> (judged: Vec<Judged<R>>)
    requires
        in_one_piece(source),
        describes(*tree, slice_text(source)),
        0 < limit <= 0x1_0000,
        forall|event: CaptureEvent| #[trigger] is_event_of(event, *tree) ==> judge.takes(event),
    ensures
        is_report(judged@, *query, *tree, slice_text(source), limit),
        reported(*query, *tree, slice_text(source), limit, removals(judged@)) is None,
        forall|i: int|
            0 <= i < judged.len() ==> (judged@[i].answer, judged@[i].removed) == judge.verdict(
                (#[trigger] judged@[i]).event,
            ),
        forall|i: int, k: int|
            0 <= i < judged.len() && 0 <= k < judged@[i].event.nodes.len() ==> tree_ranges(
                *tree,
            ).contains((#[trigger] judged@[i].event.nodes@[k]).range),
{
    let mut cursor = InactiveQueryCursor::new(0..u32::MAX, limit).execute_query(query, &tree.root_node(), source);
    from_fn(|| {
        let (found, node_idx) = cursor.next_matched_node()?;
        let judged = judge.judge(CaptureEvent {
            id: found.id(),
            pattern: Pattern(found.pattern().idx() as u32),
            node_idx,
            nodes: found.matched_nodes().map(|node| CapturedRange { capture: Capture(node.capture.idx() as u32), range: node.node.byte_range() }).collect(),
            children: found.matched_node(node_idx).node.children().map(|child| NodeChild { range: child.byte_range(), named: child.is_named() }).collect(),
        });
        if judged.removed {
            found.remove();
        }
        Some(judged)
    }).collect()
}

/// The captured nodes of each match that a query finds in a tree of a text, while it keeps at most
/// `limit` matches in mind.
pub uninterp spec fn query_matches(
    query: Query,
    tree: Tree,
    text: Seq<char>,
    limit: u32,
) -> Seq<Seq<CapturedRange>>;

/// `QueryCursor::next_match`, asked until nothing is left, for a cursor that starts at the root of
/// the tree. What `QueryCursor::next_matched_node` asks for, it asks for too.
#[verifier::external_body]
pub(crate) fn matches_of(query: &Query, tree: &Tree, source: RopeSlice<'_>, limit: u32) -> (matches:
    Vec<Vec<CapturedRange>>)
    requires
        in_one_piece(source),
        describes(*tree, slice_text(source)),
        0 < limit <= 0x1_0000,
    ensures
        matches.len() == query_matches(*query, *tree, slice_text(source), limit).len(),
        forall|i: int|
            0 <= i < matches.len() ==> (#[trigger] matches@[i])@ == query_matches(
                *query,
                *tree,
                slice_text(source),
                limit,
            )[i],
{
    let cursor = InactiveQueryCursor::new(0..u32::MAX, limit);
    let mut cursor = cursor.execute_query(query, &tree.root_node(), source);
    from_fn(|| {
        let found = cursor.next_match()?;
        let nodes = found.matched_nodes().map(|node| CapturedRange { capture: Capture(node.capture.idx() as u32), range: node.node.byte_range() });
        Some(nodes.collect())
    }).collect()
}

/// Whether each range ends before the next one starts, and none ends before it starts.
pub open spec fn in_order(ranges: Seq<Range<u32>>) -> bool {
    &&& forall|i: int| 0 <= i < ranges.len() ==> (#[trigger] ranges[i]).start <= ranges[i].end
    &&& forall|i: int, j: int|
        0 <= i < j < ranges.len() ==> (#[trigger] ranges[i]).end <= (#[trigger] ranges[j]).start
}

/// How a parse ended.
pub enum ParseOutcome {
    Parsed(Tree),
    /// The parser gave up before it was through.
    Stopped,
    /// The ranges to parse are not in order.
    InvalidRanges,
    /// The parser cannot use the grammar.
    IncompatibleGrammar,
}

/// The tree of the parts of a text that `ranges` cover, parsed with the help of an older tree. When
/// a parse is through, this is its tree, however long it took.
pub uninterp spec fn parsed_tree(
    grammar: Grammar,
    ranges: Seq<Range<u32>>,
    text: Seq<char>,
    older: Option<Tree>,
) -> Tree;

/// What an optional reference to a tree leads to.
pub open spec fn tree_at(tree: Option<&Tree>) -> Option<Tree> {
    match tree {
        Some(tree) => Some(*tree),
        None => None,
    }
}

/// Whether a parser can use a grammar.
pub uninterp spec fn is_compatible(grammar: Grammar) -> bool;

/// The grammar that a tree was parsed with.
pub uninterp spec fn tree_grammar(tree: Tree) -> Grammar;

/// `Node::grammar` of the root node.
#[verifier::external_body]
pub(crate) fn grammar_of(tree: &Tree) -> (grammar: Grammar)
    ensures
        grammar == tree_grammar(*tree),
{
    tree.root_node().grammar()
}

/// `Grammar::eq`: two grammars are the same if their data are.
#[verifier::external_body]
pub(crate) fn same_grammar(a: Grammar, b: Grammar) -> (same: bool)
    ensures
        same == (a == b),
{
    a == b
}

/// Whether ranges begin and end at characters of a text; they may also end behind it. There are no
/// more of them than 32 bits can count.
pub open spec fn at_characters(ranges: Seq<Range<u32>>, text: Seq<char>) -> bool {
    &&& ranges.len() <= u32::MAX
    &&& forall|i: int|
        0 <= i < ranges.len() ==> is_boundary(text, (#[trigger] ranges[i]).start as int) && (
        is_boundary(text, ranges[i].end as int) || ranges[i].end >= byte_len(text))
}

/// A parse without a time limit: `Parser::set_grammar`, which refuses a grammar by its version,
/// `Parser::set_included_ranges`, which refuses ranges that are not in order, and `Parser::parse`,
/// which then does not stop before it is through. It takes over nodes of the older tree without a
/// look at the text or the grammar, so that tree must be in sync with the one and of the other.
#[verifier::external_body]
pub(crate) fn parse_unlimited(
    grammar: Grammar,
    ranges: &[Range<u32>],
    source: RopeSlice<'_>,
    older: Option<&Tree>,
) -> (outcome: ParseOutcome)
    requires
        byte_len(slice_text(source)) <= i32::MAX,
        at_characters(ranges@, slice_text(source)),
        tree_at(older) matches Some(older) ==> describes(older, slice_text(source)) && tree_grammar(
            older,
        ) == grammar,
    ensures
        !(outcome is Stopped),
        outcome is IncompatibleGrammar == !is_compatible(grammar),
        outcome is InvalidRanges == (is_compatible(grammar) && !in_order(ranges@)),
        outcome matches ParseOutcome::Parsed(tree) ==> {
            &&& tree == parsed_tree(grammar, ranges@, slice_text(source), tree_at(older))
            &&& describes(tree, slice_text(source))
            &&& tree_grammar(tree) == grammar
        },
{
    let mut parser = Parser::new();
    let zero = tree_house_bindings::Point::ZERO;
    let included: Vec<_> = ranges.iter().map(|range| tree_house_bindings::Range { start_point: zero, end_point: zero, start_byte: range.start, end_byte: range.end }).collect();
    if parser.set_grammar(grammar).is_err() {
        return ParseOutcome::IncompatibleGrammar;
    }
    match parser.set_included_ranges(&included) {
        Err(_) => ParseOutcome::InvalidRanges,
        Ok(()) => parser.parse(source, older).map_or(ParseOutcome::Stopped, ParseOutcome::Parsed),
    }
}

/// The whole seconds of a duration.
pub uninterp spec fn duration_secs(duration: Duration) -> u64;

/// `std::time::Duration::as_secs`.
#[verifier::external_body]
pub(crate) fn whole_secs(duration: Duration) -> (secs: u64)
    ensures
        secs == duration_secs(duration),
{
    duration.as_secs()
}

/// `std::time::Duration::from_millis`.
#[verifier::external_body]
pub(crate) fn duration_from_millis(millis: u64) -> (duration: Duration)
    ensures
        duration == millis_duration(millis),
        duration_secs(duration) == millis / 1000,
{
    Duration::from_millis(millis)
}

/// The duration of some milliseconds.
pub uninterp spec fn millis_duration(millis: u64) -> Duration;

/// A parse with a time limit: `Parser::set_grammar`, which refuses a grammar by its version,
/// `Parser::set_included_ranges`, which refuses ranges that are not in order, and
/// `Parser::parse_with_timeout`. Nothing is said of when it stops, which is up to the clock. The
/// end of the time must be a moment that the clock can tell; it can tell those of the next four
/// billion seconds. It takes over nodes of the older tree without a look at the text or the
/// grammar, so that tree must be in sync with the one and of the other.
#[verifier::external_body]
pub(crate) fn parse_limited(
    grammar: Grammar,
    ranges: &[Range<u32>],
    source: RopeSlice<'_>,
    older: Option<&Tree>,
    timeout: Duration,
) -> (outcome: ParseOutcome)
    requires
        byte_len(slice_text(source)) <= i32::MAX,
        at_characters(ranges@, slice_text(source)),
        tree_at(older) matches Some(older) ==> describes(older, slice_text(source)) && tree_grammar(
            older,
        ) == grammar,
        duration_secs(timeout) <= 4_000_000_000,
    ensures
        outcome is IncompatibleGrammar == !is_compatible(grammar),
        outcome is InvalidRanges == (is_compatible(grammar) && !in_order(ranges@)),
        outcome matches ParseOutcome::Parsed(tree) ==> {
            &&& tree == parsed_tree(grammar, ranges@, slice_text(source), tree_at(older))
            &&& describes(tree, slice_text(source))
            &&& tree_grammar(tree) == grammar
        },
{
    let mut parser = Parser::new();
    let zero = tree_house_bindings::Point::ZERO;
    let included: Vec<_> = ranges.iter().map(|range| tree_house_bindings::Range { start_point: zero, end_point: zero, start_byte: range.start, end_byte: range.end }).collect();
    if parser.set_grammar(grammar).is_err() {
        return ParseOutcome::IncompatibleGrammar;
    }
    match parser.set_included_ranges(&included) {
        Err(_) => ParseOutcome::InvalidRanges,
        Ok(()) => parser.parse_with_timeout(source, older, timeout).map_or(ParseOutcome::Stopped, ParseOutcome::Parsed),
    }
}

/// The tree that an edit of the text turns a tree into, until it is parsed again.
pub uninterp spec fn edited_tree(tree: Tree, edit: InputEdit) -> Tree;

/// Whether an edit turns one text into another.
pub open spec fn is_edit(before: Seq<char>, after: Seq<char>, edit: InputEdit) -> bool {
    let (start, old_end, new_end) = (
        edit.start_byte as int,
        edit.old_end_byte as int,
        edit.new_end_byte as int,
    );
    &&& fits(before, start, old_end)
    &&& fits(after, start, new_end)
    &&& encode_utf8(before).take(start) == encode_utf8(after).take(start)
    &&& encode_utf8(before).skip(old_end) == encode_utf8(after).skip(new_end)
}

/// `Tree::edit`: keeps a tree in sync with a text that is edited, as long as 32 bits can count the
/// bytes of the text.
#[verifier::external_body]
pub(crate) fn tree_edit(tree: &mut Tree, edit: &InputEdit)
    ensures
        *final(tree) == edited_tree(*old(tree), *edit),
        forall|before: Seq<char>, after: Seq<char>|
            #![trigger describes(*old(tree), before), is_edit(before, after, *edit)]
            describes(*old(tree), before) && is_edit(before, after, *edit) && byte_len(after)
                <= u32::MAX ==> describes(*final(tree), after),
        tree_grammar(*final(tree)) == tree_grammar(*old(tree)),
{
    let point = |point: crate::types::Point| tree_house_bindings::Point { row: point.row, col: point.col };
    tree.edit(&tree_house_bindings::InputEdit {
        start_byte: edit.start_byte,
        old_end_byte: edit.old_end_byte,
        new_end_byte: edit.new_end_byte,
        start_point: point(edit.start_point),
        old_end_point: point(edit.old_end_point),
        new_end_point: point(edit.new_end_point),
    })
}

/// `Tree::clone`: the same tree once more.
#[verifier::external_body]
pub(crate) fn tree_clone(tree: &Tree) -> (copy: Tree)
    ensures
        copy == *tree,
{
    tree.clone()
}

/// The byte at which the root node of a tree ends.
pub uninterp spec fn tree_end(tree: Tree) -> u32;

/// `Node::end_byte` of the root node.
#[verifier::external_body]
pub(crate) fn root_end_byte(tree: &Tree) -> (end: u32)
    ensures
        end == tree_end(*tree),
{
    tree.root_node().end_byte()
}

/// The bytes of the smallest node of a tree around a byte range.
pub uninterp spec fn node_around(tree: Tree, start: u32, end: u32) -> Option<Range<u32>>;

/// `Node::descendant_for_byte_range` of the root node.
#[verifier::external_body]
pub(crate) fn descendant_range(tree: &Tree, start: u32, end: u32) -> (range: Option<Range<u32>>)
    ensures
        range == node_around(*tree, start, end),
{
    tree.root_node().descendant_for_byte_range(start, end).map(|node| node.byte_range())
}

/// The bytes of the smallest node of a tree around a byte range that has a name in the grammar.
pub uninterp spec fn named_node_around(tree: Tree, start: u32, end: u32) -> Option<Range<u32>>;

/// `Node::named_descendant_for_byte_range` of the root node.
#[verifier::external_body]
pub(crate) fn named_descendant_range(tree: &Tree, start: u32, end: u32) -> (range: Option<
    Range<u32>,
>)
    ensures
        range == named_node_around(*tree, start, end),
{
    tree.root_node().named_descendant_for_byte_range(start, end).map(|node| node.byte_range())
}

} // verus!
