//! Queries about the structure of a document: indents, text objects, tags and rainbow brackets.
use crate::injections_query::TREE_SITTER_MATCH_LIMIT;
use crate::query_rules::{query_outcome, QueryError, QueryErrorView, QueryRules};
use crate::snapshot::{lemma_nodes_of_a_capture, nodes_under, DocumentSnapshot, SnapshotView};
use crate::treesitter::{
    capture_named, captures_of, get_capture, query_matches, CapturedRange, CompiledQuery,
};
use crate::types::{copy_range, Capture};
use std::ops::Range;
use tree_house_bindings::{Grammar, Query};
use vstd::prelude::*;

verus! {

/// What each match of a query in a document captures under one capture.
pub open spec fn captured(query: Query, snapshot: SnapshotView, capture: Capture) -> Seq<
    Seq<Range<u32>>,
> {
    query_matches(query, snapshot.root_tree(), snapshot.text, TREE_SITTER_MATCH_LIMIT).map_values(
        |nodes| nodes_under(nodes, capture),
    )
}

/// The groups that have nodes.
pub open spec fn with_nodes(groups: Seq<Seq<Range<u32>>>) -> Seq<Seq<Range<u32>>>
    decreases groups.len(),
{
    if groups.len() == 0 {
        Seq::empty()
    } else {
        let front = with_nodes(groups.drop_last());
        if groups.last().len() > 0 {
            front.push(groups.last())
        } else {
            front
        }
    }
}

/// The capture of the first of some names that a query has.
pub open spec fn first_capture(captures: Seq<Seq<char>>, names: Seq<&str>) -> Option<Capture>
    decreases names.len(),
{
    if names.len() == 0 {
        None
    } else {
        match capture_named(captures, names[0]@) {
            Some(capture) => Some(capture),
            None => first_capture(captures, names.drop_first()),
        }
    }
}

/// The nodes of all matches of a query in a document that are captured under one capture, in the
/// order of the matches.
fn flat_nodes(query: &Query, snapshot: &DocumentSnapshot, capture: Capture) -> (nodes: Vec<
    Range<u32>,
>)
    requires
        snapshot@.is_valid(),
    ensures
        nodes@ == captured(*query, snapshot@, capture).flatten(),
{
    let matches = snapshot.capture_matches(query, capture);
    let ghost groups = captured(*query, snapshot@, capture);
    let mut nodes: Vec<Range<u32>> = Vec::new();
    assert(groups.take(0) =~= Seq::empty());
    for i in 0..matches.len()
        invariant
            matches.len() == groups.len(),
            forall|k: int| 0 <= k < matches.len() ==> (#[trigger] matches@[k])@ == groups[k],
            nodes@ == groups.take(i as int).flatten(),
    {
        let ghost before = nodes@;
        let found = &matches[i];
        assert(found@.take(0) =~= Seq::empty());
        for j in 0..found.len()
            invariant
                nodes@ == before + found@.take(j as int),
        {
            assert(found@.take(j + 1) =~= found@.take(j as int).push(found@[j as int]));
            nodes.push(copy_range(&found[j]));
        }
        proof {
            assert(found@.take(found.len() as int) =~= found@);
            assert(groups.take(i + 1) =~= groups.take(i as int).push(groups[i as int]));
            groups.take(i as int).lemma_flatten_push(groups[i as int]);
        }
    }
    assert(groups.take(matches.len() as int) =~= groups);
    nodes
}

/// What a query captures under the capture with a name, if it has one: the nodes of all matches.
pub open spec fn flat_named(query: Query, snapshot: SnapshotView, name: Seq<char>) -> Option<
    Seq<Range<u32>>,
> {
    flat_under(query, snapshot, capture_named(captures_of(query), name))
}

/// What a query captures under a capture, if there is one: the nodes of all matches.
pub open spec fn flat_under(query: Query, snapshot: SnapshotView, capture: Option<Capture>) -> Option<
    Seq<Range<u32>>,
> {
    match capture {
        Some(capture) => Some(captured(query, snapshot, capture).flatten()),
        None => None,
    }
}

/// What a list holds, if it is there.
pub open spec fn list_of(nodes: Option<Vec<Range<u32>>>) -> Option<Seq<Range<u32>>> {
    match nodes {
        Some(nodes) => Some(nodes@),
        None => None,
    }
}

/// A query for indents.
#[derive(Debug)]
pub struct IndentQuery {
    query: Query,
    indent_capture: Option<Capture>,
    dedent_capture: Option<Capture>,
    extend_capture: Option<Capture>,
}

/// What a query for indents consists of.
pub struct IndentView {
    pub query: Query,
    pub indent_capture: Option<Capture>,
    pub dedent_capture: Option<Capture>,
    pub extend_capture: Option<Capture>,
}

impl View for IndentQuery {
    type V = IndentView;

    closed spec fn view(&self) -> IndentView {
        IndentView {
            query: self.query,
            indent_capture: self.indent_capture,
            dedent_capture: self.dedent_capture,
            extend_capture: self.extend_capture,
        }
    }
}

/// Whether a query text of some kind is refused for the right reason.
pub open spec fn is_refused_query(
    error: QueryError,
    rules: QueryRules,
    grammar: Grammar,
    source: Seq<char>,
) -> bool {
    query_outcome(rules, grammar, source) == Err::<CompiledQuery, QueryErrorView>(error@)
}

/// Whether a query is what comes of a query text of some kind.
pub open spec fn is_query_of(
    query: Query,
    rules: QueryRules,
    grammar: Grammar,
    source: Seq<char>,
) -> bool {
    query_outcome(rules, grammar, source) matches Ok(found) && query == found.query
}

impl IndentQuery {
    /// Compiles a query for indents.
    pub fn new(grammar: Grammar, source: &str) -> (res: Result<Self, QueryError>)
        ensures
            match res {
                Ok(query) => {
                    &&& is_query_of(query@.query, QueryRules::Indents, grammar, source@)
                    &&& query@.indent_capture == capture_named(
                        captures_of(query@.query),
                        "indent"@,
                    )
                    &&& query@.dedent_capture == capture_named(
                        captures_of(query@.query),
                        "dedent"@,
                    )
                    &&& query@.extend_capture == capture_named(
                        captures_of(query@.query),
                        "extend"@,
                    )
                },
                Err(error) => is_refused_query(error, QueryRules::Indents, grammar, source@),
            },
    {
        match QueryRules::Indents.compile(grammar, source) {
            Ok((query, _)) => Ok(
                IndentQuery {
                    indent_capture: get_capture(&query, "indent"),
                    dedent_capture: get_capture(&query, "dedent"),
                    extend_capture: get_capture(&query, "extend"),
                    query,
                },
            ),
            Err(error) => Err(error),
        }
    }

    /// The query itself.
    pub fn query(&self) -> (query: &Query)
        ensures
            *query == self@.query,
    {
        &self.query
    }
}

/// A captured node, or the nodes of a group that were captured together, by their bytes.
#[derive(Debug, PartialEq, Eq)]
pub enum CapturedNode {
    Single(Range<u32>),
    Grouped(Vec<Range<u32>>),
}

impl View for CapturedNode {
    type V = Seq<Range<u32>>;

    open spec fn view(&self) -> Seq<Range<u32>> {
        match *self {
            CapturedNode::Single(node) => seq![node],
            CapturedNode::Grouped(nodes) => nodes@,
        }
    }
}

impl CapturedNode {
    /// Whether a group has more than one node.
    pub open spec fn is_valid(self) -> bool {
        self is Grouped ==> self@.len() > 1
    }

    /// The nodes of a match, if there are any.
    pub fn from_nodes(nodes: Vec<Range<u32>>) -> (captured: Option<Self>)
        ensures
            captured is None <==> nodes.len() == 0,
            captured matches Some(group) ==> group@ == nodes@ && group.is_valid(),
    {
        if nodes.len() > 1 {
            Some(CapturedNode::Grouped(nodes))
        } else if nodes.len() == 1 {
            let node = copy_range(&nodes[0]);
            assert(nodes@ =~= seq![node]);
            Some(CapturedNode::Single(node))
        } else {
            None
        }
    }

    /// The byte at which the first node begins.
    pub fn start_byte(&self) -> (start: usize)
        requires
            self@.len() > 0,
        ensures
            start == self@.first().start,
    {
        match self {
            CapturedNode::Single(node) => node.start as usize,
            CapturedNode::Grouped(nodes) => nodes[0].start as usize,
        }
    }

    /// The byte at which the last node ends.
    pub fn end_byte(&self) -> (end: usize)
        requires
            self@.len() > 0,
        ensures
            end == self@.last().end,
    {
        match self {
            CapturedNode::Single(node) => node.end as usize,
            CapturedNode::Grouped(nodes) => nodes[nodes.len() - 1].end as usize,
        }
    }

    /// The bytes from the begin of the first node to the end of the last one.
    pub fn byte_range(&self) -> (range: Range<usize>)
        requires
            self@.len() > 0,
        ensures
            range.start == self@.first().start,
            range.end == self@.last().end,
    {
        self.start_byte()..self.end_byte()
    }
}

/// Whether `nodes` are the groups that have nodes.
pub open spec fn are_groups(nodes: Seq<CapturedNode>, groups: Seq<Seq<Range<u32>>>) -> bool {
    &&& nodes.len() == with_nodes(groups).len()
    &&& forall|i: int|
        0 <= i < nodes.len() ==> (#[trigger] nodes[i])@ == with_nodes(groups)[i]
            && nodes[i].is_valid()
}

/// Finds the groups of nodes that the matches of a query capture under one capture.
fn grouped_nodes(query: &Query, snapshot: &DocumentSnapshot, capture: Capture) -> (nodes: Vec<
    CapturedNode,
>)
    requires
        snapshot@.is_valid(),
    ensures
        are_groups(nodes@, captured(*query, snapshot@, capture)),
{
    let mut matches = snapshot.capture_matches(query, capture);
    let ghost groups = captured(*query, snapshot@, capture);
    let count: usize = matches.len();
    let ghost all = matches@;
    let mut nodes: Vec<CapturedNode> = Vec::new();
    assert(groups.take(0) =~= Seq::empty());
    for i in 0..count
        invariant
            count == groups.len(),
            count == all.len(),
            forall|k: int| 0 <= k < count ==> (#[trigger] all[k])@ == groups[k],
            matches.len() == count,
            forall|k: int| i <= k < count ==> (#[trigger] matches@[k]) == all[k],
            are_groups(nodes@, groups.take(i as int)),
    {
        proof {
            assert(groups.take(i + 1).drop_last() =~= groups.take(i as int));
            assert(groups.take(i + 1).last() == groups[i as int]);
            assert(matches@[i as int] == all[i as int]);
        }
        let mut found: Vec<Range<u32>> = Vec::new();
        std::mem::swap(&mut found, &mut matches[i]);
        match CapturedNode::from_nodes(found) {
            Some(node) => nodes.push(node),
            None => {},
        }
    }
    assert(groups.take(count as int) =~= groups);
    nodes
}

/// Leaving out the groups without nodes loses no node, and keeps them in their order.
pub proof fn lemma_groups_keep_every_node(groups: Seq<Seq<Range<u32>>>)
    ensures
        with_nodes(groups).flatten() == groups.flatten(),
    decreases groups.len(),
{
    if groups.len() > 0 {
        lemma_groups_keep_every_node(groups.drop_last());
        let front = with_nodes(groups.drop_last());
        groups.drop_last().lemma_flatten_push(groups.last());
        front.lemma_flatten_push(groups.last());
        assert(groups.drop_last().push(groups.last()) =~= groups);
        if groups.last().len() == 0 {
            assert(groups.drop_last().flatten() + groups.last() =~= groups.drop_last().flatten());
        }
    }
}

/// Whether `nodes` is what a query captures under a capture, in groups, if there is one.
pub open spec fn are_groups_under(
    nodes: Option<Vec<CapturedNode>>,
    query: Query,
    snapshot: SnapshotView,
    capture: Option<Capture>,
) -> bool {
    match (nodes, capture) {
        (Some(nodes), Some(capture)) => are_groups(nodes@, captured(query, snapshot, capture)),
        (None, None) => true,
        _ => false,
    }
}

/// A query for text objects.
#[derive(Debug)]
pub struct TextObjectQuery {
    query: Query,
}

impl View for TextObjectQuery {
    type V = Query;

    closed spec fn view(&self) -> Query {
        self.query
    }
}

impl TextObjectQuery {
    /// Compiles a query for text objects.
    pub fn new(grammar: Grammar, source: &str) -> (res: Result<Self, QueryError>)
        ensures
            match res {
                Ok(query) => is_query_of(query@, QueryRules::TextObjects, grammar, source@),
                Err(error) => is_refused_query(error, QueryRules::TextObjects, grammar, source@),
            },
    {
        match QueryRules::TextObjects.compile(grammar, source) {
            Ok((query, _)) => Ok(TextObjectQuery { query }),
            Err(error) => Err(error),
        }
    }

    /// The nodes that are captured under a name, if the query has it.
    pub fn capture_nodes(&self, capture_name: &str, snapshot: &DocumentSnapshot) -> (nodes: Option<
        Vec<CapturedNode>,
    >)
        requires
            snapshot@.is_valid(),
        ensures
            are_groups_under(
                nodes,
                self@,
                snapshot@,
                capture_named(captures_of(self@), capture_name@),
            ),
    {
        match get_capture(&self.query, capture_name) {
            Some(capture) => Some(grouped_nodes(&self.query, snapshot, capture)),
            None => None,
        }
    }

    /// The nodes that are captured under the first of some names that the query has.
    pub fn capture_nodes_any(
        &self,
        capture_names: &[&str],
        snapshot: &DocumentSnapshot,
    ) -> (nodes: Option<Vec<CapturedNode>>)
        requires
            snapshot@.is_valid(),
        ensures
            are_groups_under(
                nodes,
                self@,
                snapshot@,
                first_capture(captures_of(self@), capture_names@),
            ),
    {
        let ghost captures = captures_of(self.query);
        assert(capture_names@.skip(0) =~= capture_names@);
        for i in 0..capture_names.len()
            invariant
                captures == captures_of(self.query),
                snapshot@.is_valid(),
                first_capture(captures, capture_names@) == first_capture(
                    captures,
                    capture_names@.skip(i as int),
                ),
        {
            assert(capture_names@.skip(i as int).drop_first() =~= capture_names@.skip(i + 1));
            if let Some(capture) = get_capture(&self.query, capture_names[i]) {
                return Some(grouped_nodes(&self.query, snapshot, capture));
            }
        }
        None
    }
}

/// A query for tags of symbols.
#[derive(Debug)]
pub struct TagQuery {
    pub query: Query,
}

impl TagQuery {
    /// Compiles a query for tags.
    pub fn new(grammar: Grammar, source: &str) -> (res: Result<Self, QueryError>)
        ensures
            match res {
                Ok(query) => is_query_of(query.query, QueryRules::Tags, grammar, source@),
                Err(error) => is_refused_query(error, QueryRules::Tags, grammar, source@),
            },
    {
        match QueryRules::Tags.compile(grammar, source) {
            Ok((query, _)) => Ok(TagQuery { query }),
            Err(error) => Err(error),
        }
    }

    /// The bytes of the nodes that are captured under a name, if the query has it.
    pub fn capture_nodes(&self, capture_name: &str, snapshot: &DocumentSnapshot) -> (nodes: Option<
        Vec<Range<u32>>,
    >)
        requires
            snapshot@.is_valid(),
        ensures
            list_of(nodes) == flat_named(self.query, snapshot@, capture_name@),
    {
        match get_capture(&self.query, capture_name) {
            Some(capture) => Some(flat_nodes(&self.query, snapshot, capture)),
            None => None,
        }
    }
}

/// A query for rainbow brackets.
#[derive(Debug)]
pub struct RainbowQuery {
    pub query: Query,
    pub scope_capture: Option<Capture>,
    pub bracket_capture: Option<Capture>,
}

impl RainbowQuery {
    /// Compiles a query for rainbow brackets.
    pub fn new(grammar: Grammar, source: &str) -> (res: Result<Self, QueryError>)
        ensures
            match res {
                Ok(query) => {
                    &&& is_query_of(query.query, QueryRules::Rainbow, grammar, source@)
                    &&& query.scope_capture == capture_named(
                        captures_of(query.query),
                        "rainbow.scope"@,
                    )
                    &&& query.bracket_capture == capture_named(
                        captures_of(query.query),
                        "rainbow.bracket"@,
                    )
                },
                Err(error) => is_refused_query(error, QueryRules::Rainbow, grammar, source@),
            },
    {
        match QueryRules::Rainbow.compile(grammar, source) {
            Ok((query, _)) => Ok(
                RainbowQuery {
                    scope_capture: get_capture(&query, "rainbow.scope"),
                    bracket_capture: get_capture(&query, "rainbow.bracket"),
                    query,
                },
            ),
            Err(error) => Err(error),
        }
    }

    /// The bytes of the nodes that are captured under a name, if the query has it.
    pub fn capture_nodes(&self, capture_name: &str, snapshot: &DocumentSnapshot) -> (nodes: Option<
        Vec<Range<u32>>,
    >)
        requires
            snapshot@.is_valid(),
        ensures
            list_of(nodes) == flat_named(self.query, snapshot@, capture_name@),
    {
        match get_capture(&self.query, capture_name) {
            Some(capture) => Some(flat_nodes(&self.query, snapshot, capture)),
            None => None,
        }
    }

    /// The bytes of the brackets.
    pub fn bracket_nodes(&self, snapshot: &DocumentSnapshot) -> (nodes: Option<Vec<Range<u32>>>)
        requires
            snapshot@.is_valid(),
        ensures
            list_of(nodes) == flat_under(self.query, snapshot@, self.bracket_capture),
    {
        match self.bracket_capture {
            Some(capture) => Some(flat_nodes(&self.query, snapshot, capture)),
            None => None,
        }
    }

    /// The bytes of the scopes that brackets enclose.
    pub fn scope_nodes(&self, snapshot: &DocumentSnapshot) -> (nodes: Option<Vec<Range<u32>>>)
        requires
            snapshot@.is_valid(),
        ensures
            list_of(nodes) == flat_under(self.query, snapshot@, self.scope_capture),
    {
        match self.scope_capture {
            Some(capture) => Some(flat_nodes(&self.query, snapshot, capture)),
            None => None,
        }
    }
}

/// The groups that are kept are those that are not empty, in their order.
pub proof fn lemma_kept_groups(groups: Seq<Seq<Range<u32>>>)
    ensures
        with_nodes(groups) == groups.filter(|group: Seq<Range<u32>>| group.len() > 0),
    decreases groups.len(),
{
    reveal(Seq::filter);
    if groups.len() > 0 {
        lemma_kept_groups(groups.drop_last());
    }
}

/// What is captured are, match by match, the nodes of the outermost tree that the query captures
/// under the capture. No more than 256 matches are followed at a time.
pub proof fn lemma_what_is_captured(query: Query, snapshot: SnapshotView, capture: Capture)
    ensures
        ({
            let all = query_matches(
                query,
                snapshot.layers[snapshot.root.0].parse_tree->0,
                snapshot.text,
                256,
            );
            &&& captured(query, snapshot, capture).len() == all.len()
            &&& forall|i: int|
                0 <= i < all.len() ==> #[trigger] captured(query, snapshot, capture)[i]
                    == all[i].filter(|node: CapturedRange| node.capture == capture).map_values(
                    |node: CapturedRange| node.range,
                )
            &&& flat_under(query, snapshot, Some(capture)) == Some(
                captured(query, snapshot, capture).flatten(),
            )
            &&& flat_under(query, snapshot, None) is None
        }),
{
    let all = query_matches(query, snapshot.root_tree(), snapshot.text, TREE_SITTER_MATCH_LIMIT);
    assert forall|i: int| 0 <= i < all.len() implies #[trigger] captured(query, snapshot, capture)[i]
        == all[i].filter(|node: CapturedRange| node.capture == capture).map_values(
        |node: CapturedRange| node.range,
    ) by {
        lemma_nodes_of_a_capture(all[i], capture);
    }
}

/// A name stands for the first capture that has it, and for none if the query has no such
/// capture.
pub proof fn lemma_capture_of_a_name(
    query: Query,
    snapshot: SnapshotView,
    names: Seq<Seq<char>>,
    name: Seq<char>,
    at: int,
)
    requires
        names == captures_of(query),
        names.len() <= u32::MAX,
        0 <= at < names.len(),
        names[at] == name,
        forall|k: int| 0 <= k < at ==> #[trigger] names[k] != name,
    ensures
        flat_named(query, snapshot, name) == Some(
            captured(query, snapshot, Capture(at as u32)).flatten(),
        ),
        forall|other: Seq<char>|
            !(exists|k: int| 0 <= k < names.len() && #[trigger] names[k] == other)
                ==> #[trigger] flat_named(query, snapshot, other) is None,
{
    lemma_first_index(names, name, at);
}

/// The first place of a value in a sequence.
proof fn lemma_first_index(names: Seq<Seq<char>>, name: Seq<char>, at: int)
    requires
        0 <= at < names.len(),
        names[at] == name,
        forall|k: int| 0 <= k < at ==> #[trigger] names[k] != name,
    ensures
        names.contains(name),
        names.index_of_first(name) == Some(at),
{
    names.index_of_first_ensures(name);
}

/// Of some names the first one that the query has decides, whatever comes behind it. Without one
/// there is no capture.
pub proof fn lemma_first_known_name(captures: Seq<Seq<char>>, names: Seq<&str>, at: int)
    requires
        0 <= at <= names.len(),
        forall|k: int| 0 <= k < at ==> !captures.contains((#[trigger] names[k])@),
        at < names.len() ==> captures.contains(names[at]@),
    ensures
        at < names.len() ==> first_capture(captures, names) == capture_named(captures, names[at]@)
            && first_capture(captures, names) is Some,
        at == names.len() ==> first_capture(captures, names) is None,
    decreases names.len(),
{
    if at > 0 {
        let rest = names.drop_first();
        assert(!captures.contains(names[0]@));
        assert forall|k: int| 0 <= k < at - 1 implies !captures.contains((#[trigger] rest[k])@) by {
            assert(rest[k] == names[k + 1]);
        }
        lemma_first_known_name(captures, rest, at - 1);
    }
}

} // verus!
