//! Injection queries: what their patterns ask for, and which nodes of a tree they pick.
use crate::byte_text::{between, fits, lemma_ends_are_boundaries, same_text, strip_prefix, stripped};
use crate::config::LanguageLoader;
use crate::injection::{
    in_document_order, none_empty, resolve_overlaps, resolved, IncludedChildren,
    InjectionQueryMatch, InjectionScope, MatchedRange,
};
use crate::ordering::into_queue;
use crate::query_rules::{
    accepts, first_refusal, query_outcome, QueryError, QueryErrorView, QueryRules,
};
use crate::regexes::{find_first_group, first_group_span};
use crate::rope::{
    in_one_piece, slice_byte_slice, slice_get_byte_slice, slice_line_start, slice_of_str,
    slice_text, slice_to_string, slice_try_line_to_byte, sub_slice,
};
use crate::treesitter::{
    capture_named, capture_names, captures_of, describes, disable_capture, get_capture, is_event_of,
    is_report, judge_events, predicate_views, text_of, tree_ranges, without_capture, CaptureEvent,
    CapturedRange, CompiledQuery, EventJudge, Judged, PatternPredicate, PatternPredicateView,
    PredicateView, QueryPredicate,
};
use crate::types::{copy_range, Capture, Highlight, Language, Pattern};
use ropey::RopeSlice;
use std::collections::VecDeque;
use std::ops::Range;
use tree_house_bindings::{Grammar, Query, Tree};
use vstd::prelude::*;

verus! {

/// How many matches a query keeps in mind.
pub const TREE_SITTER_MATCH_LIMIT: u32 = 256;

/// What a script names as its interpreter.
pub const SHEBANG: &'static str = r"#!\s*(?:\S*[/\\](?:env\s+(?:\-\S+\s+)*)?)?([^\s\.\d]+)";

/// What a pattern of an injection query asks for.
#[derive(Debug, PartialEq, Eq)]
pub struct InjectionProperties {
    pub include_children: IncludedChildren,
    pub language: Option<String>,
    pub combined: bool,
}

/// What a pattern of an injection query asks for, the language as a sequence of characters.
pub struct PropertiesView {
    pub include_children: IncludedChildren,
    pub language: Option<Seq<char>>,
    pub combined: bool,
}

impl View for InjectionProperties {
    type V = PropertiesView;

    open spec fn view(&self) -> PropertiesView {
        PropertiesView {
            include_children: self.include_children,
            language: text_of(self.language),
            combined: self.combined,
        }
    }
}

/// What a pattern asks for that sets nothing.
pub open spec fn no_properties() -> PropertiesView {
    PropertiesView { include_children: IncludedChildren::Nothing, language: None, combined: false }
}

impl Default for InjectionProperties {
    fn default() -> (properties: Self)
        ensures
            properties@ == no_properties(),
    {
        InjectionProperties {
            include_children: IncludedChildren::Nothing,
            language: None,
            combined: false,
        }
    }
}

/// What each pattern asks for.
pub open spec fn properties_views(properties: Seq<InjectionProperties>) -> Seq<PropertiesView> {
    Seq::new(properties.len(), |i: int| properties[i]@)
}

/// `items` with as many more of `item` as it takes to have one at `index`.
pub open spec fn padded<T>(items: Seq<T>, index: int, item: T) -> Seq<T> {
    if index < items.len() {
        items
    } else {
        items + Seq::new((index + 1 - items.len()) as nat, |i: int| item)
    }
}

/// What a pattern asks for once it has set one more property.
pub open spec fn with_setting(
    properties: PropertiesView,
    key: Seq<char>,
    val: Option<Seq<char>>,
) -> PropertiesView {
    if key == "injection.include-unnamed-children"@ {
        PropertiesView { include_children: IncludedChildren::Unnamed, ..properties }
    } else if key == "injection.include-children"@ {
        PropertiesView { include_children: IncludedChildren::All, ..properties }
    } else if key == "injection.language"@ {
        PropertiesView { language: val, ..properties }
    } else {
        PropertiesView { combined: true, ..properties }
    }
}

/// What the patterns ask for, after some of the settings in the query text.
pub open spec fn properties_set(predicates: Seq<PatternPredicateView>) -> Seq<PropertiesView>
    decreases predicates.len(),
{
    if predicates.len() == 0 {
        Seq::empty()
    } else {
        let before = properties_set(predicates.drop_last());
        match predicates.last().predicate {
            PredicateView::SetProperty { key, val } => {
                let index = predicates.last().pattern.0 as int;
                let wide = padded(before, index, no_properties());
                wide.update(index, with_setting(wide[index], key, val))
            },
            _ => before,
        }
    }
}

/// Which patterns say that their scopes do not inherit, after some of the settings.
pub open spec fn flags_set(predicates: Seq<PatternPredicateView>) -> Seq<bool>
    decreases predicates.len(),
{
    if predicates.len() == 0 {
        Seq::empty()
    } else {
        let before = flags_set(predicates.drop_last());
        match predicates.last().predicate {
            PredicateView::SetProperty { key, val: Some(val) } => if val != "true"@ {
                let index = predicates.last().pattern.0 as int;
                padded(before, index, false).update(index, true)
            } else {
                before
            },
            _ => before,
        }
    }
}

/// Makes sure that there are properties for a pattern, and returns their position.
pub fn pattern_properties_mut(
    properties: &mut Vec<InjectionProperties>,
    pattern: Pattern,
) -> (index: usize)
    requires
        pattern.0 < u32::MAX,
    ensures
        index == pattern.0,
        index < final(properties).len(),
        properties_views(final(properties)@) == padded(
            properties_views(old(properties)@),
            pattern.0 as int,
            no_properties(),
        ),
        forall|i: int|
            0 <= i < old(properties).len() ==> final(properties)@[i] == #[trigger] old(
                properties,
            )@[i],
{
    let index: usize = pattern.idx();
    let ghost before = properties@;
    while properties.len() <= index
        invariant
            index == pattern.0,
            index < u32::MAX,
            before.len() <= properties.len(),
            properties.len() <= before.len() || properties.len() <= index + 1,
            forall|i: int| 0 <= i < before.len() ==> properties@[i] == #[trigger] before[i],
            forall|i: int|
                before.len() <= i < properties.len() ==> (#[trigger] properties@[i])@
                    == no_properties(),
        decreases index + 1 - properties.len(),
    {
        properties.push(InjectionProperties::default());
    }
    assert(properties_views(properties@) =~= padded(
        properties_views(before),
        pattern.0 as int,
        no_properties(),
    ));
    index
}

/// Raises the flag of a pattern.
pub fn set_pattern_flag(flags: &mut Vec<bool>, pattern: Pattern)
    requires
        pattern.0 < u32::MAX,
    ensures
        final(flags)@ == padded(old(flags)@, pattern.0 as int, false).update(pattern.0 as int, true),
{
    let index: usize = pattern.idx();
    let ghost before = flags@;
    while flags.len() <= index
        invariant
            index == pattern.0,
            index < u32::MAX,
            before.len() <= flags.len(),
            flags.len() <= before.len() || flags.len() <= index + 1,
            forall|i: int| 0 <= i < before.len() ==> flags@[i] == #[trigger] before[i],
            forall|i: int| before.len() <= i < flags.len() ==> #[trigger] flags@[i] == false,
        decreases index + 1 - flags.len(),
    {
        flags.push(false);
    }
    assert(flags@ =~= padded(before, pattern.0 as int, false));
    flags.set(index, true);
}

/// An indicator in the document or the query of the language that an injection has.
#[derive(Debug, Clone, Copy)]
pub enum InjectionLanguageMarker<'a> {
    /// The query itself names the language. Such names match exactly.
    Name(&'a str),
    /// The document names the language, or something like it. The longest match of a regular
    /// expression decides.
    Match(RopeSlice<'a>),
    /// The document names a file of the language.
    Filename(RopeSlice<'a>),
    /// The document names an interpreter of the language.
    Shebang(RopeSlice<'a>),
}

/// What a marker says.
pub enum MarkerView {
    Name(Seq<char>),
    Match(Seq<char>),
    Filename(Seq<char>),
    Shebang(Seq<char>),
}

impl<'a> View for InjectionLanguageMarker<'a> {
    type V = MarkerView;

    open spec fn view(&self) -> MarkerView {
        match *self {
            InjectionLanguageMarker::Name(name) => MarkerView::Name(name@),
            InjectionLanguageMarker::Match(text) => MarkerView::Match(slice_text(text)),
            InjectionLanguageMarker::Filename(text) => MarkerView::Filename(slice_text(text)),
            InjectionLanguageMarker::Shebang(text) => MarkerView::Shebang(slice_text(text)),
        }
    }
}

/// What a marker says, if there is one.
pub open spec fn marker_view(marker: Option<InjectionLanguageMarker<'_>>) -> Option<MarkerView> {
    match marker {
        Some(marker) => Some(marker@),
        None => None,
    }
}

/// An injection query and the locals query of the same language.
#[derive(Debug)]
pub struct InjectionsQuery {
    pub injection_query: Query,
    pub injection_properties: Vec<InjectionProperties>,
    pub injection_content_capture: Option<Capture>,
    pub injection_language_capture: Option<Capture>,
    pub injection_filename_capture: Option<Capture>,
    pub injection_shebang_capture: Option<Capture>,
    pub local_query: Query,
    pub not_scope_inherits: Vec<bool>,
    pub local_scope_capture: Option<Capture>,
    pub local_definition_captures: Vec<Option<Highlight>>,
}

/// Whether an injections query is what two query texts stand for.
pub open spec fn stands_for(
    query: InjectionsQuery,
    injections: CompiledQuery,
    locals: CompiledQuery,
) -> bool {
    let captures = captures_of(injections.query);
    &&& query.injection_query == injections.query
    &&& properties_views(query.injection_properties@) == properties_set(injections.predicates)
    &&& query.injection_content_capture == capture_named(captures, "injection.content"@)
    &&& query.injection_language_capture == capture_named(captures, "injection.language"@)
    &&& query.injection_filename_capture == capture_named(captures, "injection.filename"@)
    &&& query.injection_shebang_capture == capture_named(captures, "injection.shebang"@)
    &&& query.local_query == without_capture(locals.query, "local.reference"@)
    &&& query.not_scope_inherits@ == flags_set(locals.predicates)
    &&& query.local_scope_capture == capture_named(captures_of(locals.query), "local.scope"@)
    &&& query.local_definition_captures@ == Seq::new(
        captures_of(locals.query).len(),
        |i: int| None::<Highlight>,
    )
}

/// A vector of `len` times nothing.
fn no_highlights(len: usize) -> (highlights: Vec<Option<Highlight>>)
    ensures
        highlights@ == Seq::new(len as nat, |i: int| None::<Highlight>),
{
    let mut highlights: Vec<Option<Highlight>> = Vec::new();
    for i in 0..len
        invariant
            highlights@ == Seq::new(i as nat, |k: int| None::<Highlight>),
    {
        highlights.push(None);
        assert(highlights@ =~= Seq::new((i + 1) as nat, |k: int| None::<Highlight>));
    }
    highlights
}

/// Collects what the patterns of an injection query ask for.
fn read_properties(predicates: &Vec<PatternPredicate>) -> (properties: Vec<InjectionProperties>)
    requires
        first_refusal(QueryRules::Injections, predicate_views(predicates@)) is None,
        forall|i: int|
            0 <= i < predicates.len() ==> (#[trigger] predicates@[i]).pattern.0 < u32::MAX,
    ensures
        properties_views(properties@) == properties_set(predicate_views(predicates@)),
{
    let mut properties: Vec<InjectionProperties> = Vec::new();
    let ghost views = predicate_views(predicates@);
    proof {
        assert(views.take(0) =~= Seq::empty());
        assert(properties_views(properties@) =~= Seq::empty());
    }
    for i in 0..predicates.len()
        invariant
            views == predicate_views(predicates@),
            first_refusal(QueryRules::Injections, views) is None,
            forall|k: int|
                0 <= k < predicates.len() ==> (#[trigger] predicates@[k]).pattern.0 < u32::MAX,
            properties_views(properties@) == properties_set(views.take(i as int)),
    {
        proof {
            lemma_accepted(QueryRules::Injections, views, i as int);
            assert(views.take(i + 1).drop_last() =~= views.take(i as int));
            assert(views.take(i + 1).last() == predicates@[i as int]@);
        }
        if let QueryPredicate::SetProperty { key, val } = &predicates[i].predicate {
            let ghost before = properties_views(properties@);
            let index: usize = pattern_properties_mut(&mut properties, predicates[i].pattern);
            let ghost wide = properties_views(properties@);
            if same_text(key, "injection.include-unnamed-children") {
                properties[index].include_children = IncludedChildren::Unnamed;
            } else if same_text(key, "injection.include-children") {
                properties[index].include_children = IncludedChildren::All;
            } else if same_text(key, "injection.language") {
                properties[index].language = val.clone();
            } else {
                properties[index].combined = true;
            }
            assert(properties_views(properties@) =~= wide.update(
                index as int,
                with_setting(wide[index as int], key@, text_of(*val)),
            ));
        }
    }
    assert(views.take(predicates.len() as int) =~= views);
    properties
}

/// Where no predicate is refused, each one is taken.
proof fn lemma_accepted(rules: QueryRules, predicates: Seq<PatternPredicateView>, at: int)
    requires
        first_refusal(rules, predicates) is None,
        0 <= at < predicates.len(),
    ensures
        accepts(rules, predicates[at].predicate),
    decreases predicates.len(),
{
    if at > 0 {
        lemma_accepted(rules, predicates.drop_first(), at - 1);
    }
}

/// Collects which patterns of a locals query say that their scopes do not inherit.
fn read_flags(predicates: &Vec<PatternPredicate>) -> (flags: Vec<bool>)
    requires
        forall|i: int|
            0 <= i < predicates.len() ==> (#[trigger] predicates@[i]).pattern.0 < u32::MAX,
    ensures
        flags@ == flags_set(predicate_views(predicates@)),
{
    let mut flags: Vec<bool> = Vec::new();
    let ghost views = predicate_views(predicates@);
    proof {
        assert(views.take(0) =~= Seq::empty());
    }
    for i in 0..predicates.len()
        invariant
            views == predicate_views(predicates@),
            forall|k: int|
                0 <= k < predicates.len() ==> (#[trigger] predicates@[k]).pattern.0 < u32::MAX,
            flags@ == flags_set(views.take(i as int)),
    {
        proof {
            assert(views.take(i + 1).drop_last() =~= views.take(i as int));
            assert(views.take(i + 1).last() == predicates@[i as int]@);
        }
        if let QueryPredicate::SetProperty { val: Some(val), .. } = &predicates[i].predicate {
            if !same_text(val, "true") {
                set_pattern_flag(&mut flags, predicates[i].pattern);
            }
        }
    }
    assert(views.take(predicates.len() as int) =~= views);
    flags
}

impl InjectionsQuery {
    /// Parses an injection query and a locals query.
    pub fn new(
        grammar: Grammar,
        injection_query_text: &str,
        local_query_text: &str,
    ) -> (res: Result<Self, QueryError>)
        ensures
            match res {
                Ok(query) => query_outcome(
                    QueryRules::Injections,
                    grammar,
                    injection_query_text@,
                ) matches Ok(injections) && query_outcome(
                    QueryRules::Locals,
                    grammar,
                    local_query_text@,
                ) matches Ok(locals) && stands_for(query, injections, locals),
                Err(error) => match query_outcome(
                    QueryRules::Injections,
                    grammar,
                    injection_query_text@,
                ) {
                    Err(refusal) => error@ == refusal,
                    Ok(_) => query_outcome(QueryRules::Locals, grammar, local_query_text@) == Err::<
                        CompiledQuery,
                        QueryErrorView,
                    >(error@),
                },
            },
    {
        let (injection_query, injection_predicates) = match QueryRules::Injections.compile(
            grammar,
            injection_query_text,
        ) {
            Ok(found) => found,
            Err(error) => return Err(error),
        };
        let (mut local_query, local_predicates) = match QueryRules::Locals.compile(
            grammar,
            local_query_text,
        ) {
            Ok(found) => found,
            Err(error) => return Err(error),
        };
        // References are read by the highlight query.
        disable_capture(&mut local_query, "local.reference");
        let num_captures: usize = capture_names(&local_query).len();
        Ok(
            InjectionsQuery {
                injection_properties: read_properties(&injection_predicates),
                injection_content_capture: get_capture(&injection_query, "injection.content"),
                injection_language_capture: get_capture(&injection_query, "injection.language"),
                injection_filename_capture: get_capture(&injection_query, "injection.filename"),
                injection_shebang_capture: get_capture(&injection_query, "injection.shebang"),
                injection_query,
                not_scope_inherits: read_flags(&local_predicates),
                local_scope_capture: get_capture(&local_query, "local.scope"),
                local_definition_captures: no_highlights(num_captures),
                local_query,
            },
        )
    }

    /// Asks `f` for the highlight of each kind of local definition.
    pub fn configure<F>(&mut self, f: &F) where F: Fn(&str) -> Option<Highlight>
        requires
            forall|name: &str| #[trigger] call_requires(f, (name,)),
        ensures
            *final(self) == (InjectionsQuery {
                local_definition_captures: final(self).local_definition_captures,
                ..*old(self)
            }),
            final(self).local_definition_captures.len() == captures_of(old(self).local_query).len(),
            forall|i: int|
                0 <= i < captures_of(old(self).local_query).len() ==> is_configured(
                    f,
                    captures_of(old(self).local_query)[i],
                    "local.definition."@,
                    #[trigger] final(self).local_definition_captures@[i],
                ),
    {
        let names = capture_names(&self.local_query);
        let mut highlights: Vec<Option<Highlight>> = Vec::new();
        for i in 0..names.len()
            invariant
                forall|name: &str| #[trigger] call_requires(f, (name,)),
                names.len() == captures_of(self.local_query).len(),
                forall|k: int|
                    0 <= k < names.len() ==> (#[trigger] names@[k])@ == captures_of(
                        self.local_query,
                    )[k],
                highlights.len() == i,
                forall|k: int|
                    0 <= k < i ==> is_configured(
                        f,
                        captures_of(self.local_query)[k],
                        "local.definition."@,
                        #[trigger] highlights@[k],
                    ),
        {
            let highlight = match strip_prefix(&names[i], "local.definition.") {
                Some(suffix) => f(suffix),
                None => None,
            };
            highlights.push(highlight);
        }
        self.local_definition_captures = highlights;
    }
}

/// Whether a highlight is what `f` may answer for a capture's name behind `prefix`; captures with
/// other names have none.
pub open spec fn is_configured<F>(
    f: &F,
    name: Seq<char>,
    prefix: Seq<char>,
    highlight: Option<Highlight>,
) -> bool where F: Fn(&str) -> Option<Highlight> {
    match stripped(name, prefix) {
        Some(suffix) => exists|asked: &str|
            asked@ == suffix && #[trigger] call_ensures(f, (asked,), highlight),
        None => highlight is None,
    }
}

/// What the part of a document says that a node covers.
pub open spec fn node_text(source: RopeSlice<'_>, range: Range<u32>) -> Seq<char> {
    between(slice_text(source), range.start as int, range.end as int)
}

/// The first two lines of the part of a document that a node covers. Some languages allow a line
/// break before the actual text.
pub open spec fn first_lines(source: RopeSlice<'_>, range: Range<u32>) -> Seq<char> {
    let node = sub_slice(source, range.start as usize, range.end as usize);
    match slice_line_start(node, 2) {
        Some(end) => between(node_text(source, range), 0, end as int),
        None => node_text(source, range),
    }
}

/// The interpreter that a text names.
pub open spec fn shebang_in(lines: Seq<char>) -> Option<MarkerView> {
    match first_group_span(SHEBANG@, lines) {
        Some(span) => if fits(lines, span.start as int, span.end as int) {
            Some(MarkerView::Shebang(between(lines, span.start as int, span.end as int)))
        } else {
            None
        },
        None => None,
    }
}

/// What a captured node says about the language of its match; `before` is what the nodes before it
/// say.
pub open spec fn marker_after(
    query: InjectionsQuery,
    node: CapturedRange,
    source: RopeSlice<'_>,
    before: Option<MarkerView>,
) -> Option<MarkerView> {
    let capture = Some(node.capture);
    if capture == query.injection_language_capture {
        Some(MarkerView::Match(node_text(source, node.range)))
    } else if capture == query.injection_filename_capture {
        Some(MarkerView::Filename(node_text(source, node.range)))
    } else if capture == query.injection_shebang_capture {
        shebang_in(first_lines(source, node.range))
    } else {
        before
    }
}

/// What the nodes of a match say about its language.
pub open spec fn marker_in(
    query: InjectionsQuery,
    nodes: Seq<CapturedRange>,
    source: RopeSlice<'_>,
) -> Option<MarkerView>
    decreases nodes.len(),
{
    if nodes.len() == 0 {
        None
    } else {
        marker_after(query, nodes.last(), source, marker_in(query, nodes.drop_last(), source))
    }
}

/// Whether a node is content, and nothing else.
pub open spec fn is_content(query: InjectionsQuery, node: CapturedRange) -> bool {
    let capture = Some(node.capture);
    &&& capture != query.injection_language_capture
    &&& capture != query.injection_filename_capture
    &&& capture != query.injection_shebang_capture
    &&& capture == query.injection_content_capture
}

/// The number of content nodes.
pub open spec fn content_count(query: InjectionsQuery, nodes: Seq<CapturedRange>) -> int
    decreases nodes.len(),
{
    if nodes.len() == 0 {
        0
    } else {
        content_count(query, nodes.drop_last()) + if is_content(query, nodes.last()) {
            1int
        } else {
            0
        }
    }
}

/// The position of the last content node; the first position where there is none.
pub open spec fn last_content(query: InjectionsQuery, nodes: Seq<CapturedRange>) -> int
    decreases nodes.len(),
{
    if nodes.len() == 0 {
        0
    } else if is_content(query, nodes.last()) {
        nodes.len() - 1
    } else {
        last_content(query, nodes.drop_last())
    }
}

/// What a pattern asks for.
pub open spec fn properties_of(query: InjectionsQuery, pattern: Pattern) -> PropertiesView {
    if pattern.0 < query.injection_properties.len() {
        query.injection_properties@[pattern.0 as int]@
    } else {
        no_properties()
    }
}

/// What a match says about its language: the document comes before the query.
pub open spec fn event_marker(
    query: InjectionsQuery,
    event: CaptureEvent,
    source: RopeSlice<'_>,
) -> Option<MarkerView> {
    match marker_in(query, event.nodes@, source) {
        Some(marker) => Some(marker),
        None => match properties_of(query, event.pattern).language {
            Some(name) => Some(MarkerView::Name(name)),
            None => None,
        },
    }
}

/// What joins the content nodes of a match, or of a pattern, into one layer.
pub open spec fn event_scope(
    query: InjectionsQuery,
    event: CaptureEvent,
    language: Language,
) -> Option<InjectionScope> {
    if properties_of(query, event.pattern).combined {
        Some(InjectionScope::Pattern { pattern: event.pattern, language })
    } else if content_count(query, event.nodes@) != 1 {
        Some(InjectionScope::Match { id: event.id })
    } else {
        None
    }
}

/// The language that a captured node is to be read in, if it is known.
pub open spec fn event_language<L: LanguageLoader>(
    query: InjectionsQuery,
    event: CaptureEvent,
    source: RopeSlice<'_>,
    loader: &L,
) -> Option<Language> {
    match event_marker(query, event, source) {
        Some(marker) => loader.marker_language(marker),
        None => None,
    }
}

/// The injection that a captured node stands for in a language.
pub open spec fn injection_in(
    query: InjectionsQuery,
    event: CaptureEvent,
    language: Language,
) -> InjectionQueryMatch {
    InjectionQueryMatch {
        language,
        scope: event_scope(query, event, language),
        include_children: properties_of(query, event.pattern).include_children,
        node: MatchedRange {
            range: event.nodes@[event.node_idx as int].range,
            children: event.children,
        },
        last_match: last_content(query, event.nodes@) == event.node_idx,
        pattern: event.pattern,
    }
}

/// The injection that a captured node stands for, if its language is known.
pub open spec fn injection_of<L: LanguageLoader>(
    query: InjectionsQuery,
    event: CaptureEvent,
    source: RopeSlice<'_>,
    loader: &L,
) -> Option<InjectionQueryMatch> {
    match event_language(query, event, source, loader) {
        Some(language) => Some(injection_in(query, event, language)),
        None => None,
    }
}

/// Whether the nodes of a match lie at characters of a document.
pub open spec fn event_fits(event: CaptureEvent, source: RopeSlice<'_>) -> bool {
    &&& event.node_idx < event.nodes.len()
    &&& event.nodes.len() <= u32::MAX
    &&& forall|i: int|
        0 <= i < event.nodes.len() ==> fits(
            slice_text(source),
            (#[trigger] event.nodes@[i]).range.start as int,
            event.nodes@[i].range.end as int,
        )
}

/// Reads the interpreter that the part of a document names that a node covers.
fn read_shebang<'a>(source: &RopeSlice<'a>, range: &Range<u32>) -> (marker: Option<
    InjectionLanguageMarker<'a>,
>)
    requires
        fits(slice_text(*source), range.start as int, range.end as int),
    ensures
        marker_view(marker) == shebang_in(first_lines(*source, *range)),
{
    let node: RopeSlice<'a> = slice_byte_slice(source, range.start as usize, range.end as usize);
    let lines: RopeSlice<'a> = match slice_try_line_to_byte(&node, 2) {
        Some(end) => {
            proof {
                lemma_ends_are_boundaries(slice_text(node));
                crate::byte_text::lemma_boundary_in_text(slice_text(node), end as int);
            }
            slice_byte_slice(&node, 0, end)
        },
        None => node,
    };
    match find_first_group(SHEBANG, lines) {
        Some(span) => match slice_get_byte_slice(&lines, span.start, span.end) {
            Some(name) => Some(InjectionLanguageMarker::Shebang(name)),
            None => None,
        },
        None => None,
    }
}

impl InjectionsQuery {
    /// Reads what the nodes of a match say about its language.
    fn read_marker<'a>(&self, nodes: &Vec<CapturedRange>, source: &RopeSlice<'a>) -> (marker: Option<
        InjectionLanguageMarker<'a>,
    >)
        requires
            forall|i: int|
                0 <= i < nodes.len() ==> fits(
                    slice_text(*source),
                    (#[trigger] nodes@[i]).range.start as int,
                    nodes@[i].range.end as int,
                ),
        ensures
            marker_view(marker) == marker_in(*self, nodes@, *source),
    {
        let mut marker: Option<InjectionLanguageMarker<'a>> = None;
        assert(nodes@.take(0) =~= Seq::empty());
        for i in 0..nodes.len()
            invariant
                forall|k: int|
                    0 <= k < nodes.len() ==> fits(
                        slice_text(*source),
                        (#[trigger] nodes@[k]).range.start as int,
                        nodes@[k].range.end as int,
                    ),
                marker_view(marker) == marker_in(*self, nodes@.take(i as int), *source),
        {
            proof {
                assert(nodes@.take(i + 1).drop_last() =~= nodes@.take(i as int));
                assert(nodes@.take(i + 1).last() == nodes@[i as int]);
            }
            let node = &nodes[i];
            let capture: Option<Capture> = Some(node.capture);
            let start: usize = node.range.start as usize;
            let end: usize = node.range.end as usize;
            if capture == self.injection_language_capture {
                marker = Some(InjectionLanguageMarker::Match(slice_byte_slice(source, start, end)));
            } else if capture == self.injection_filename_capture {
                marker = Some(
                    InjectionLanguageMarker::Filename(slice_byte_slice(source, start, end)),
                );
            } else if capture == self.injection_shebang_capture {
                marker = read_shebang(source, &node.range);
            }
        }
        assert(nodes@.take(nodes.len() as int) =~= nodes@);
        marker
    }

    /// Finds the language that a captured node is to be read in.
    fn find_language<L: LanguageLoader>(
        &self,
        event: &CaptureEvent,
        source: RopeSlice<'_>,
        loader: &L,
    ) -> (language: Option<Language>)
        requires
            event_fits(*event, source),
        ensures
            language == event_language(*self, *event, source, loader),
    {
        let marker = self.read_marker(&event.nodes, &source);
        let pattern_idx: usize = event.pattern.idx();
        let name: Option<&String> = if pattern_idx < self.injection_properties.len() {
            self.injection_properties[pattern_idx].language.as_ref()
        } else {
            None
        };
        let marker: InjectionLanguageMarker<'_> = match marker {
            Some(marker) => marker,
            None => match name {
                Some(name) => InjectionLanguageMarker::Name(name.as_str()),
                None => return None,
            },
        };
        loader.language_for_marker(marker)
    }

    /// Tells how many content nodes a match has, and which is the last.
    fn count_content(&self, nodes: &Vec<CapturedRange>) -> (counted: (u32, u32))
        requires
            nodes.len() <= u32::MAX,
        ensures
            counted.0 == content_count(*self, nodes@),
            counted.1 == last_content(*self, nodes@),
    {
        let mut count: u32 = 0;
        let mut last: u32 = 0;
        assert(nodes@.take(0) =~= Seq::empty());
        for i in 0..nodes.len()
            invariant
                nodes.len() <= u32::MAX,
                count == content_count(*self, nodes@.take(i as int)),
                count <= i,
                last == last_content(*self, nodes@.take(i as int)),
        {
            proof {
                assert(nodes@.take(i + 1).drop_last() =~= nodes@.take(i as int));
                assert(nodes@.take(i + 1).last() == nodes@[i as int]);
            }
            let capture: Option<Capture> = Some(nodes[i].capture);
            if capture != self.injection_language_capture && capture
                != self.injection_filename_capture && capture != self.injection_shebang_capture
                && capture == self.injection_content_capture {
                count = count + 1;
                last = i as u32;
            }
        }
        assert(nodes@.take(nodes.len() as int) =~= nodes@);
        (count, last)
    }

    /// Builds the injection that a captured node stands for in a language.
    pub fn build_match(&self, event: CaptureEvent, language: Language) -> (found:
        InjectionQueryMatch)
        requires
            event.node_idx < event.nodes.len() <= u32::MAX,
        ensures
            found == injection_in(*self, event, language),
    {
        let (content_nodes, last_content_node): (u32, u32) = self.count_content(&event.nodes);
        let pattern_idx: usize = event.pattern.idx();
        let (include_children, combined): (IncludedChildren, bool) = if pattern_idx
            < self.injection_properties.len() {
            let properties = &self.injection_properties[pattern_idx];
            (properties.include_children, properties.combined)
        } else {
            (IncludedChildren::Nothing, false)
        };
        let scope = if combined {
            Some(InjectionScope::Pattern { pattern: event.pattern, language })
        } else if content_nodes != 1 {
            Some(InjectionScope::Match { id: event.id })
        } else {
            None
        };
        let range = copy_range(&event.nodes[event.node_idx as usize].range);
        InjectionQueryMatch {
            language,
            scope,
            include_children,
            node: MatchedRange { range, children: event.children },
            last_match: last_content_node == event.node_idx,
            pattern: event.pattern,
        }
    }

    /// Finds the injection that a captured node stands for. There is none where the language of the
    /// match is unknown.
    pub fn process_match<L: LanguageLoader>(
        &self,
        event: CaptureEvent,
        source: RopeSlice<'_>,
        loader: &L,
    ) -> (found: Option<InjectionQueryMatch>)
        requires
            event_fits(event, source),
        ensures
            found == injection_of(*self, event, source, loader),
    {
        match self.find_language(&event, source, loader) {
            Some(language) => Some(self.build_match(event, language)),
            None => None,
        }
    }
}

/// What a captured node comes to: the language that it is to be read in, if it is an injection, and
/// whether its match is done with. Only content counts. A match is done with when its language is
/// unknown, and behind its last content node.
pub open spec fn judgement<L: LanguageLoader>(
    query: InjectionsQuery,
    event: CaptureEvent,
    source: RopeSlice<'_>,
    loader: &L,
) -> (Option<Language>, bool) {
    if Some(event.nodes@[event.node_idx as int].capture) != query.injection_content_capture {
        (None, false)
    } else {
        match event_language(query, event, source, loader) {
            None => (None, true),
            Some(language) => (
                Some(language),
                last_content(query, event.nodes@) == event.node_idx,
            ),
        }
    }
}

/// The injections among captured nodes that were decided on. Empty nodes are left out.
pub open spec fn found_among(query: InjectionsQuery, judged: Seq<Judged<Option<Language>>>) -> Seq<
    InjectionQueryMatch,
>
    decreases judged.len(),
{
    if judged.len() == 0 {
        Seq::empty()
    } else {
        let front = found_among(query, judged.drop_last());
        let event = judged.last().event;
        let range = event.nodes@[event.node_idx as int].range;
        match judged.last().answer {
            Some(language) => if range.start < range.end {
                front.push(injection_in(query, event, language))
            } else {
                front
            },
            None => front,
        }
    }
}

/// What a query reports of a tree that is in sync with a document lies at characters of it.
proof fn lemma_event_fits(event: CaptureEvent, tree: Tree, source: RopeSlice<'_>)
    requires
        is_event_of(event, tree),
        describes(tree, slice_text(source)),
    ensures
        event_fits(event, source),
{
    assert forall|k: int| 0 <= k < event.nodes.len() implies fits(
        slice_text(source),
        (#[trigger] event.nodes@[k]).range.start as int,
        event.nodes@[k].range.end as int,
    ) by {
        assert(tree_ranges(tree).contains(event.nodes@[k].range));
    }
}

/// Whether matches are the injections that a query finds in a tree of a document. A match that is
/// done with is removed, so that the query reports no more of its nodes.
pub open spec fn are_injections<L: LanguageLoader>(
    matches: Seq<InjectionQueryMatch>,
    query: InjectionsQuery,
    tree: Tree,
    source: RopeSlice<'_>,
    loader: &L,
) -> bool {
    exists|judged: Seq<Judged<Option<Language>>>|
        {
            &&& #[trigger] is_report(
                judged,
                query.injection_query,
                tree,
                slice_text(source),
                TREE_SITTER_MATCH_LIMIT,
            )
            &&& forall|i: int|
                0 <= i < judged.len() ==> (judged[i].answer, judged[i].removed) == judgement(
                    query,
                    (#[trigger] judged[i]).event,
                    source,
                    loader,
                )
            &&& matches == resolved(found_among(query, judged))
        }
}

/// Decides which captured nodes of a document are injections.
struct InjectionJudge<'a, L: LanguageLoader> {
    query: &'a InjectionsQuery,
    source: RopeSlice<'a>,
    loader: &'a L,
}

impl<'a, L: LanguageLoader> EventJudge<Option<Language>> for InjectionJudge<'a, L> {
    closed spec fn takes(&self, event: CaptureEvent) -> bool {
        event_fits(event, self.source)
    }

    closed spec fn verdict(&self, event: CaptureEvent) -> (Option<Language>, bool) {
        judgement(*self.query, event, self.source, self.loader)
    }

    fn judge(&self, event: CaptureEvent) -> (judged: Judged<Option<Language>>) {
        let (answer, removed) = self.query.judge_event(&event, self.source, self.loader);
        Judged { event, answer, removed }
    }
}

impl InjectionsQuery {
    /// Says what a captured node comes to: the language that it is to be read in, if it is an
    /// injection, and whether its match is done with.
    pub fn judge_event<L: LanguageLoader>(
        &self,
        event: &CaptureEvent,
        source: RopeSlice<'_>,
        loader: &L,
    ) -> (judged: (Option<Language>, bool))
        requires
            event_fits(*event, source),
        ensures
            judged == judgement(*self, *event, source, loader),
    {
        let capture: Option<Capture> = Some(event.nodes[event.node_idx as usize].capture);
        if capture != self.injection_content_capture {
            return (None, false);
        }
        match self.find_language(event, source, loader) {
            None => (None, true),
            Some(language) => {
                (Some(language), self.count_content(&event.nodes).1 == event.node_idx)
            },
        }
    }

    /// Picks the injections among captured nodes that were decided on, in the order of the
    /// document.
    pub fn pick_injections(&self, judged: Vec<Judged<Option<Language>>>) -> (matches: Vec<
        InjectionQueryMatch,
    >)
        requires
            forall|i: int|
                0 <= i < judged.len() ==> (#[trigger] judged@[i]).event.node_idx
                    < judged@[i].event.nodes.len() <= u32::MAX,
        ensures
            matches@ == resolved(found_among(*self, judged@)),
            in_document_order(matches@),
            none_empty(matches@),
    {
        let ghost all = judged@;
        let mut rest: VecDeque<Judged<Option<Language>>> = into_queue(judged);
        let mut matches: Vec<InjectionQueryMatch> = Vec::new();
        let ghost mut done: int = 0;
        proof {
            assert(all.take(0) =~= Seq::empty());
            assert(all.skip(0) =~= all);
        }
        while rest.len() > 0
            invariant
                0 <= done <= all.len(),
                rest@ == all.skip(done),
                forall|i: int|
                    0 <= i < all.len() ==> (#[trigger] all[i]).event.node_idx
                        < all[i].event.nodes.len() <= u32::MAX,
                none_empty(matches@),
                matches@ == found_among(*self, all.take(done)),
            decreases rest.len(),
        {
            proof {
                assert(all.take(done + 1).drop_last() =~= all.take(done));
                assert(all.take(done + 1).last() == all[done]);
                assert(rest@[0] == all[done]);
                assert(rest@.drop_first() =~= all.skip(done + 1));
            }
            if let Some(next) = rest.pop_front() {
                proof {
                    done = done + 1;
                }
                if let Some(language) = next.answer {
                    let found = self.build_match(next.event, language);
                    if found.node.range.start < found.node.range.end {
                        matches.push(found);
                    }
                }
            }
        }
        assert(all.take(done) =~= all);
        resolve_overlaps(matches)
    }

    /// Executes the query on a tree of a document, and returns the injections in the order of the
    /// document: they begin one after the other, no two are of the same node, none is empty, and a
    /// node around another one comes first.
    pub fn execute<L: LanguageLoader>(
        &self,
        tree: &Tree,
        source: RopeSlice<'_>,
        loader: &L,
    ) -> (matches: Vec<InjectionQueryMatch>)
        requires
            describes(*tree, slice_text(source)),
        ensures
            are_injections(matches@, *self, *tree, source, loader),
            in_document_order(matches@),
            none_empty(matches@),
    {
        let text = slice_to_string(&source);
        self.execute_on(tree, source, slice_of_str(&text), loader)
    }

    /// Executes the query on a tree of a document whose text is also there in one piece.
    pub fn execute_on<L: LanguageLoader>(
        &self,
        tree: &Tree,
        source: RopeSlice<'_>,
        whole: RopeSlice<'_>,
        loader: &L,
    ) -> (matches: Vec<InjectionQueryMatch>)
        requires
            describes(*tree, slice_text(source)),
            in_one_piece(whole),
            slice_text(whole) == slice_text(source),
        ensures
            are_injections(matches@, *self, *tree, source, loader),
            in_document_order(matches@),
            none_empty(matches@),
    {
        let judge = InjectionJudge { query: self, source, loader };
        assert forall|event: CaptureEvent| #[trigger] is_event_of(event, *tree) implies judge.takes(
            event,
        ) by {
            lemma_event_fits(event, *tree, source);
        }
        let judged = judge_events(
            &self.injection_query,
            tree,
            whole,
            TREE_SITTER_MATCH_LIMIT,
            &judge,
        );
        assert forall|i: int| 0 <= i < judged.len() implies (
        #[trigger] judged@[i]).event.node_idx < judged@[i].event.nodes.len() <= u32::MAX by {
            assert(is_event_of(judged@[i].event, *tree));
        }
        self.pick_injections(judged)
    }
}

/// Whether a predicate sets a property of a pattern.
pub open spec fn sets(predicate: PatternPredicateView, pattern: int, key: Seq<char>) -> bool {
    predicate.pattern.0 == pattern && (predicate.predicate matches PredicateView::SetProperty {
        key: set,
        ..
    } && set == key)
}

/// The value that a predicate sets a property to.
pub open spec fn value_set(predicate: PatternPredicateView) -> Option<Seq<char>> {
    match predicate.predicate {
        PredicateView::SetProperty { val, .. } => val,
        _ => None,
    }
}

/// What a list says of a pattern; of one that it does not reach, nothing.
pub open spec fn properties_at(properties: Seq<PropertiesView>, pattern: int) -> PropertiesView {
    if pattern < properties.len() {
        properties[pattern]
    } else {
        no_properties()
    }
}

/// The keys that an injection query may set are all different.
proof fn lemma_keys_differ()
    ensures
        "injection.include-unnamed-children"@ != "injection.include-children"@,
        "injection.include-unnamed-children"@ != "injection.language"@,
        "injection.include-unnamed-children"@ != "injection.combined"@,
        "injection.include-children"@ != "injection.language"@,
        "injection.include-children"@ != "injection.combined"@,
        "injection.language"@ != "injection.combined"@,
{
    reveal_strlit("injection.include-unnamed-children");
    reveal_strlit("injection.include-children");
    reveal_strlit("injection.language");
    reveal_strlit("injection.combined");
    assert("injection.include-unnamed-children"@.len() == 34);
    assert("injection.include-children"@.len() == 26);
    assert("injection.language"@.len() == 18 && "injection.combined"@.len() == 18);
    assert("injection.language"@[10] == 'l' && "injection.combined"@[10] == 'c');
}

/// The settings of a query text count for the patterns that they belong to. The last language that
/// a pattern sets is its language, and without one it has none; the last of its settings that
/// include children says which; and it is combined exactly where it says so. Settings of other
/// patterns change nothing.
pub proof fn lemma_settings_of_a_pattern(
    predicates: Seq<PatternPredicateView>,
    pattern: int,
    language: int,
    children: int,
)
    requires
        0 <= pattern,
        first_refusal(QueryRules::Injections, predicates) is None,
        -1 <= language < predicates.len(),
        language >= 0 ==> sets(predicates[language], pattern, "injection.language"@),
        forall|i: int|
            language < i < predicates.len() ==> !sets(
                #[trigger] predicates[i],
                pattern,
                "injection.language"@,
            ),
        -1 <= children < predicates.len(),
        children >= 0 ==> sets(predicates[children], pattern, "injection.include-children"@)
            || sets(predicates[children], pattern, "injection.include-unnamed-children"@),
        forall|i: int|
            children < i < predicates.len() ==> !sets(
                #[trigger] predicates[i],
                pattern,
                "injection.include-children"@,
            ) && !sets(predicates[i], pattern, "injection.include-unnamed-children"@),
    ensures
        ({
            let own = properties_at(properties_set(predicates), pattern);
            &&& own.language == if language >= 0 {
                value_set(predicates[language])
            } else {
                None
            }
            &&& own.include_children == if children < 0 {
                IncludedChildren::Nothing
            } else if sets(predicates[children], pattern, "injection.include-children"@) {
                IncludedChildren::All
            } else {
                IncludedChildren::Unnamed
            }
            &&& own.combined <==> exists|i: int|
                0 <= i < predicates.len() && sets(
                    #[trigger] predicates[i],
                    pattern,
                    "injection.combined"@,
                )
        }),
    decreases predicates.len(),
{
    lemma_keys_differ();
    if predicates.len() > 0 {
        let front = predicates.drop_last();
        let last = predicates.len() - 1;
        let next = predicates.last();
        lemma_accepted_front(predicates);
        lemma_accepted(QueryRules::Injections, predicates, last);
        let (language_before, children_before) = lemma_last_settings(front, pattern);
        lemma_settings_of_a_pattern(front, pattern, language_before, children_before);
        let before = properties_set(front);
        let index = next.pattern.0 as int;
        let wide = padded(before, index, no_properties());
        assert(properties_at(wide, pattern) == properties_at(before, pattern));
        assert(predicates[last] == next);
        assert forall|i: int| 0 <= i < last implies predicates[i] == #[trigger] front[i] by {
        }
        if language < last {
            if language >= 0 {
                assert(front[language] == predicates[language]);
            }
            if language_before > language {
                assert(sets(predicates[language_before], pattern, "injection.language"@));
            }
            if language > language_before {
                assert(sets(front[language], pattern, "injection.language"@));
            }
            assert(language_before == language);
        }
        if children < last {
            if children >= 0 {
                assert(front[children] == predicates[children]);
            }
            if children_before > children {
                assert(predicates[children_before] == front[children_before]);
            }
            if children > children_before {
                assert(front[children] == predicates[children]);
            }
            assert(children_before == children);
        }
        let key = "injection.combined"@;
        if exists|i: int| 0 <= i < predicates.len() && sets(#[trigger] predicates[i], pattern, key) {
            let i = choose|i: int|
                0 <= i < predicates.len() && sets(#[trigger] predicates[i], pattern, key);
            if i < last {
                assert(sets(front[i], pattern, key));
            }
        }
        if exists|i: int| 0 <= i < front.len() && sets(#[trigger] front[i], pattern, key) {
            let i = choose|i: int| 0 <= i < front.len() && sets(#[trigger] front[i], pattern, key);
            assert(sets(predicates[i], pattern, key));
        }
    }
}

proof fn lemma_accepted_front(predicates: Seq<PatternPredicateView>)
    requires
        predicates.len() > 0,
        first_refusal(QueryRules::Injections, predicates) is None,
    ensures
        first_refusal(QueryRules::Injections, predicates.drop_last()) is None,
    decreases predicates.len(),
{
    if predicates.len() > 1 {
        lemma_accepted_front(predicates.drop_first());
        assert(predicates.drop_last().drop_first() =~= predicates.drop_first().drop_last());
        assert(predicates.drop_last()[0] == predicates[0]);
    }
}

proof fn lemma_last_settings(predicates: Seq<PatternPredicateView>, pattern: int) -> (found: (
    int,
    int,
))
    ensures
        -1 <= found.0 < predicates.len(),
        found.0 >= 0 ==> sets(predicates[found.0], pattern, "injection.language"@),
        forall|i: int|
            found.0 < i < predicates.len() ==> !sets(
                #[trigger] predicates[i],
                pattern,
                "injection.language"@,
            ),
        -1 <= found.1 < predicates.len(),
        found.1 >= 0 ==> sets(predicates[found.1], pattern, "injection.include-children"@) || sets(
            predicates[found.1],
            pattern,
            "injection.include-unnamed-children"@,
        ),
        forall|i: int|
            found.1 < i < predicates.len() ==> !sets(
                #[trigger] predicates[i],
                pattern,
                "injection.include-children"@,
            ) && !sets(predicates[i], pattern, "injection.include-unnamed-children"@),
    decreases predicates.len(),
{
    if predicates.len() == 0 {
        (-1, -1)
    } else {
        let front = predicates.drop_last();
        let (a, b) = lemma_last_settings(front, pattern);
        let last = predicates.len() - 1;
        assert forall|i: int| 0 <= i < last implies predicates[i] == #[trigger] front[i] by {
        }
        let c = if sets(predicates[last], pattern, "injection.language"@) {
            last
        } else {
            a
        };
        let d = if sets(predicates[last], pattern, "injection.include-children"@) || sets(
            predicates[last],
            pattern,
            "injection.include-unnamed-children"@,
        ) {
            last
        } else {
            b
        };
        assert forall|i: int| c < i < predicates.len() implies !sets(
            #[trigger] predicates[i],
            pattern,
            "injection.language"@,
        ) by {
            if i < last {
                assert(front[i] == predicates[i]);
            }
        }
        assert forall|i: int| d < i < predicates.len() implies !sets(
            #[trigger] predicates[i],
            pattern,
            "injection.include-children"@,
        ) && !sets(predicates[i], pattern, "injection.include-unnamed-children"@) by {
            if i < last {
                assert(front[i] == predicates[i]);
            }
        }
        (c, d)
    }
}

/// A scope does not inherit exactly where its pattern sets a property to a value other than `true`.
pub proof fn lemma_flag_of_a_pattern(predicates: Seq<PatternPredicateView>, pattern: int)
    requires
        0 <= pattern,
    ensures
        (pattern < flags_set(predicates).len() && flags_set(predicates)[pattern]) <==> exists|i: int|
            0 <= i < predicates.len() && #[trigger] denies(predicates[i], pattern),
    decreases predicates.len(),
{
    if predicates.len() > 0 {
        let front = predicates.drop_last();
        let last = predicates.len() - 1;
        lemma_flag_of_a_pattern(front, pattern);
        assert forall|i: int| 0 <= i < last implies predicates[i] == #[trigger] front[i] by {
        }
        assert(predicates[last] == predicates.last());
        if exists|i: int| 0 <= i < predicates.len() && #[trigger] denies(predicates[i], pattern) {
            let i = choose|i: int|
                0 <= i < predicates.len() && #[trigger] denies(predicates[i], pattern);
            if i < last {
                assert(denies(front[i], pattern));
            }
        }
        if exists|i: int| 0 <= i < front.len() && #[trigger] denies(front[i], pattern) {
            let i = choose|i: int| 0 <= i < front.len() && #[trigger] denies(front[i], pattern);
            assert(denies(predicates[i], pattern));
        }
        if denies(predicates.last(), pattern) {
            assert(denies(predicates[last], pattern));
        }
    }
}

/// Whether a predicate of a pattern sets a property to a value other than `true`.
pub open spec fn denies(predicate: PatternPredicateView, pattern: int) -> bool {
    predicate.pattern.0 == pattern && (predicate.predicate matches PredicateView::SetProperty {
        val: Some(val),
        ..
    } && val != "true"@)
}

/// Whether a node says something about the language of its match.
pub open spec fn is_marker(query: InjectionsQuery, node: CapturedRange) -> bool {
    ||| Some(node.capture) == query.injection_language_capture
    ||| Some(node.capture) == query.injection_filename_capture
    ||| Some(node.capture) == query.injection_shebang_capture
}

/// The last node that says something about the language of a match decides: a language by its text,
/// a file by its name, a script by the interpreter that its first lines name. Without such a node,
/// nothing is said.
pub proof fn lemma_last_marker_decides(
    query: InjectionsQuery,
    nodes: Seq<CapturedRange>,
    source: RopeSlice<'_>,
    at: int,
)
    requires
        -1 <= at < nodes.len(),
        at >= 0 ==> is_marker(query, nodes[at]),
        forall|i: int| at < i < nodes.len() ==> !is_marker(query, #[trigger] nodes[i]),
    ensures
        at < 0 ==> marker_in(query, nodes, source) is None,
        at >= 0 ==> {
            let text = between(
                slice_text(source),
                nodes[at].range.start as int,
                nodes[at].range.end as int,
            );
            let capture = Some(nodes[at].capture);
            let marker = marker_in(query, nodes, source);
            if capture == query.injection_language_capture {
                marker == Some(MarkerView::Match(text))
            } else if capture == query.injection_filename_capture {
                marker == Some(MarkerView::Filename(text))
            } else {
                match first_group_span(SHEBANG@, first_lines(source, nodes[at].range)) {
                    Some(span) => {
                        let lines = first_lines(source, nodes[at].range);
                        fits(lines, span.start as int, span.end as int) ==> marker == Some(
                            MarkerView::Shebang(
                                between(lines, span.start as int, span.end as int),
                            ),
                        )
                    },
                    None => marker is None,
                }
            }
        },
    decreases nodes.len(),
{
    if nodes.len() > 0 {
        let front = nodes.drop_last();
        if at < nodes.len() - 1 {
            assert(!is_marker(query, nodes[nodes.len() - 1]));
            assert forall|i: int| at < i < front.len() implies !is_marker(
                query,
                #[trigger] front[i],
            ) by {
                assert(front[i] == nodes[i]);
            }
            if at >= 0 {
                assert(front[at] == nodes[at]);
            }
            lemma_last_marker_decides(query, front, source, at);
        }
    }
}

/// Whether a node is captured as content and says nothing about the language.
pub open spec fn is_plain_content(query: InjectionsQuery, node: CapturedRange) -> bool {
    Some(node.capture) == query.injection_content_capture && !is_marker(query, node)
}

/// The content nodes of a match are those that are captured as such and say nothing about the
/// language; the last of them is the last in the match.
pub proof fn lemma_content_nodes(query: InjectionsQuery, nodes: Seq<CapturedRange>, at: int)
    ensures
        content_count(query, nodes) == nodes.filter(
            |node: CapturedRange| is_plain_content(query, node),
        ).len(),
        0 <= at < nodes.len() && is_plain_content(query, nodes[at]) && (forall|i: int|
            at < i < nodes.len() ==> !is_plain_content(query, #[trigger] nodes[i]))
            ==> last_content(query, nodes) == at,
    decreases nodes.len(),
{
    let pred = |node: CapturedRange| is_plain_content(query, node);
    reveal(Seq::filter);
    if nodes.len() > 0 {
        let front = nodes.drop_last();
        lemma_content_nodes(query, front, at);
        assert(nodes[nodes.len() - 1] == nodes.last());
        if 0 <= at < nodes.len() - 1 && is_plain_content(query, nodes[at]) && (forall|i: int|
            at < i < nodes.len() ==> !is_plain_content(query, #[trigger] nodes[i])) {
            assert(front[at] == nodes[at]);
            assert(!is_plain_content(query, nodes[nodes.len() - 1]));
            assert forall|i: int| at < i < front.len() implies !is_plain_content(
                query,
                #[trigger] front[i],
            ) by {
                assert(front[i] == nodes[i]);
            }
        }
    }
}

/// What a captured node comes to. A node that is no content leaves its match alone. A match whose
/// language nothing tells, or that the loader does not know, is done with. Else the node is an
/// injection in that language, and its match is done with at its last content node. The document
/// comes before the query in naming the language.
pub proof fn lemma_judgement<L: LanguageLoader>(
    query: InjectionsQuery,
    event: CaptureEvent,
    source: RopeSlice<'_>,
    loader: &L,
)
    ensures
        ({
            let (language, done) = judgement(query, event, source, loader);
            let told = marker_in(query, event.nodes@, source);
            let named = properties_at(
                properties_views(query.injection_properties@),
                event.pattern.0 as int,
            ).language;
            if Some(event.nodes@[event.node_idx as int].capture)
                != query.injection_content_capture {
                language is None && !done
            } else {
                &&& language == if told is Some {
                    loader.marker_language(told->0)
                } else if named is Some {
                    loader.marker_language(MarkerView::Name(named->0))
                } else {
                    None
                }
                &&& language is None ==> done
                &&& language is Some ==> done == (last_content(query, event.nodes@)
                    == event.node_idx)
            }
        }),
{
}

/// An injection is of the node that was captured, with what its pattern asks for. Its layer is
/// shared with all nodes of the pattern and language where the pattern is combined, with the other
/// content nodes of its match where there are any, and else with none.
pub proof fn lemma_injection_in(query: InjectionsQuery, event: CaptureEvent, language: Language)
    ensures
        ({
            let found = injection_in(query, event, language);
            let own = properties_at(
                properties_views(query.injection_properties@),
                event.pattern.0 as int,
            );
            &&& found.language == language
            &&& found.pattern == event.pattern
            &&& found.include_children == own.include_children
            &&& found.node.range == event.nodes@[event.node_idx as int].range
            &&& found.node.children == event.children
            &&& found.last_match == (last_content(query, event.nodes@) == event.node_idx)
            &&& own.combined ==> found.scope == Some(
                InjectionScope::Pattern { pattern: event.pattern, language },
            )
            &&& !own.combined && content_count(query, event.nodes@) == 1 ==> found.scope is None
            &&& !own.combined && content_count(query, event.nodes@) != 1 ==> found.scope == Some(
                InjectionScope::Match { id: event.id },
            )
        }),
{
}

/// Each captured node that is to be read in a language and is not empty is an injection, and no
/// other; they come in the order in which they were captured. Returns which they are.
pub proof fn lemma_found_among(
    query: InjectionsQuery,
    judged: Seq<Judged<Option<Language>>>,
) -> (from: Seq<int>)
    ensures
        from.len() == found_among(query, judged).len(),
        forall|i: int, j: int|
            0 <= i < j < from.len() ==> #[trigger] from[i] < #[trigger] from[j],
        forall|k: int|
            #![trigger judged[k]]
            0 <= k < judged.len() ==> (from.contains(k) <==> judged[k].answer is Some && {
                let range = judged[k].event.nodes@[judged[k].event.node_idx as int].range;
                range.start < range.end
            }),
        forall|i: int|
            0 <= i < from.len() ==> 0 <= from[i] < judged.len() && judged[from[i]].answer is Some
                && #[trigger] found_among(query, judged)[i] == injection_in(
                query,
                judged[from[i]].event,
                judged[from[i]].answer->0,
            ),
    decreases judged.len(),
{
    if judged.len() == 0 {
        Seq::empty()
    } else {
        let rest = judged.drop_last();
        let front = lemma_found_among(query, rest);
        let before = found_among(query, rest);
        let out = found_among(query, judged);
        let last = judged.len() - 1;
        let from = if out.len() > before.len() {
            front.push(last)
        } else {
            front
        };
        assert forall|i: int| 0 <= i < front.len() implies 0 <= #[trigger] front[i] < last by {
            assert(found_among(query, rest)[i] == before[i]);
        }
        assert forall|k: int|
            #![trigger judged[k]]
            0 <= k < judged.len() implies (from.contains(k) <==> judged[k].answer is Some && {
            let range = judged[k].event.nodes@[judged[k].event.node_idx as int].range;
            range.start < range.end
        }) by {
            if k < last {
                assert(rest[k] == judged[k]);
                if front.contains(k) {
                    let i = choose|i: int| 0 <= i < front.len() && front[i] == k;
                    assert(from[i] == k);
                }
                if from.contains(k) {
                    let i = choose|i: int| 0 <= i < from.len() && from[i] == k;
                    assert(front[i] == k);
                }
            } else {
                if out.len() > before.len() {
                    assert(from[front.len() as int] == k);
                } else if from.contains(k) {
                    let i = choose|i: int| 0 <= i < front.len() && front[i] == k;
                    assert(front[i] < last);
                }
            }
        }
        assert forall|i: int| 0 <= i < from.len() implies 0 <= from[i] < judged.len()
            && judged[from[i]].answer is Some && #[trigger] out[i] == injection_in(
            query,
            judged[from[i]].event,
            judged[from[i]].answer->0,
        ) by {
            if i < front.len() {
                assert(out[i] == before[i]);
                assert(rest[front[i]] == judged[front[i]]);
            }
        }
        from
    }
}

/// The highlight of a definition is asked for by what stands behind the prefix in its name. A
/// capture of another name has none.
pub proof fn lemma_highlight_of_a_definition<F>(
    f: &F,
    kind: Seq<char>,
    name: Seq<char>,
    highlight: Option<Highlight>,
    answers: spec_fn(Seq<char>) -> Option<Highlight>,
) where F: Fn(&str) -> Option<Highlight>
    requires
        is_configured(f, name, "local.definition."@, highlight),
        forall|asked: &str, answer: Option<Highlight>| #[trigger]
            call_ensures(f, (asked,), answer) ==> answer == answers(asked@),
    ensures
        name == "local.definition."@ + kind ==> highlight == answers(kind),
        !"local.definition."@.is_prefix_of(name) ==> highlight is None,
{
    let prefix = "local.definition."@;
    if name == prefix + kind {
        assert(name.subrange(0, prefix.len() as int) =~= prefix);
        assert(prefix.is_prefix_of(name));
        assert(name.skip(prefix.len() as int) =~= kind);
    }
}

} // verus!
