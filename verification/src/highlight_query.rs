//! Highlight queries: which captures stand for which highlights.
use crate::byte_text::strip_prefix;
use crate::query_rules::{query_outcome, QueryError, QueryErrorView, QueryRules};
use crate::treesitter::{
    capture_named, capture_names, captures_of, disable_capture, get_capture, predicate_views,
    without_capture, CompiledQuery, PatternPredicate, PatternPredicateView, QueryPredicate,
};
use crate::types::{Capture, Highlight, Pattern};
use tree_house_bindings::{Grammar, Query};
use vstd::prelude::*;

verus! {

/// A highlight query, with the locals query behind it, made ready for use.
#[derive(Debug)]
pub struct HighlightQuery {
    pub query: Query,
    /// The highlight of each capture, by its number.
    pub highlight_indices: Vec<Option<Highlight>>,
    /// The patterns that do not match a node that is a local.
    pub non_local_patterns: Vec<Pattern>,
    pub local_reference_capture: Option<Capture>,
}

/// The query that reports neither the scopes nor the definitions of locals.
pub open spec fn without_definitions(query: Query, names: Seq<Seq<char>>) -> Query
    decreases names.len(),
{
    if names.len() == 0 {
        query
    } else {
        let rest = without_definitions(query, names.drop_last());
        if "local.definition."@.is_prefix_of(names.last()) {
            without_capture(rest, names.last())
        } else {
            rest
        }
    }
}

/// The patterns that say that they do not match locals.
pub open spec fn non_locals(predicates: Seq<PatternPredicateView>) -> Seq<Pattern>
    decreases predicates.len(),
{
    if predicates.len() == 0 {
        Seq::empty()
    } else {
        let rest = non_locals(predicates.drop_last());
        if predicates.last().predicate is IsPropertySet {
            rest.push(predicates.last().pattern)
        } else {
            rest
        }
    }
}

/// Whether a highlight query stands for what comes of its text: scopes and definitions are left to
/// the locals query, and no capture has a highlight yet.
pub open spec fn stands_for(query: HighlightQuery, found: CompiledQuery) -> bool {
    let names = captures_of(found.query);
    &&& query.query == without_definitions(without_capture(found.query, "local.scope"@), names)
    &&& captures_of(query.query) == names
    &&& query.non_local_patterns@ == non_locals(found.predicates)
    &&& query.local_reference_capture == capture_named(names, "local.reference"@)
    &&& query.highlight_indices.len() == names.len()
    &&& forall|i: int|
        0 <= i < names.len() ==> (#[trigger] query.highlight_indices@[i]) is None
}

/// Whether a highlight is what `f` may answer for a name.
pub open spec fn may_answer<F>(f: &F, name: Seq<char>, highlight: Option<Highlight>) -> bool where
    F: Fn(&str) -> Option<Highlight>,
 {
    exists|asked: &str| asked@ == name && #[trigger] call_ensures(f, (asked,), highlight)
}

/// Whether `highlights` is what `f` may answer for the names of captures.
pub open spec fn are_highlights_of<F>(
    f: &F,
    names: Seq<Seq<char>>,
    highlights: Seq<Option<Highlight>>,
) -> bool where F: Fn(&str) -> Option<Highlight> {
    &&& highlights.len() == names.len()
    &&& forall|i: int|
        0 <= i < names.len() ==> may_answer(f, names[i], #[trigger] highlights[i])
}

/// Collects the patterns that say that they do not match locals.
fn read_non_locals(predicates: &Vec<PatternPredicate>) -> (patterns: Vec<Pattern>)
    ensures
        patterns@ == non_locals(predicate_views(predicates@)),
{
    let mut patterns: Vec<Pattern> = Vec::new();
    let ghost views = predicate_views(predicates@);
    assert(views.take(0) =~= Seq::empty());
    for i in 0..predicates.len()
        invariant
            views == predicate_views(predicates@),
            patterns@ == non_locals(views.take(i as int)),
    {
        proof {
            assert(views.take(i + 1).drop_last() =~= views.take(i as int));
            assert(views.take(i + 1).last() == predicates@[i as int]@);
        }
        if let QueryPredicate::IsPropertySet { .. } = &predicates[i].predicate {
            patterns.push(predicates[i].pattern);
        }
    }
    assert(views.take(predicates.len() as int) =~= views);
    patterns
}

impl HighlightQuery {
    /// Parses a highlight query and the locals query behind it.
    pub fn new(
        grammar: Grammar,
        highlight_query_text: &str,
        local_query_text: &str,
    ) -> (res: Result<Self, QueryError>)
        ensures
            match res {
                Ok(query) => query_outcome(
                    QueryRules::Highlights,
                    grammar,
                    highlight_query_text@ + local_query_text@,
                ) matches Ok(found) && stands_for(query, found),
                Err(error) => query_outcome(
                    QueryRules::Highlights,
                    grammar,
                    highlight_query_text@ + local_query_text@,
                ) == Err::<CompiledQuery, QueryErrorView>(error@),
            },
    {
        let mut source = highlight_query_text.to_owned();
        source.append(local_query_text);
        let (mut query, predicates) = match QueryRules::Highlights.compile(grammar, &source) {
            Ok(found) => found,
            Err(error) => return Err(error),
        };
        let ghost compiled = query;
        let names = capture_names(&query);
        let ghost all = captures_of(compiled);
        disable_capture(&mut query, "local.scope");
        let ghost first = query;
        let mut highlight_indices: Vec<Option<Highlight>> = Vec::new();
        assert(all.take(0) =~= Seq::empty());
        for i in 0..names.len()
            invariant
                names.len() == all.len(),
                forall|k: int| 0 <= k < names.len() ==> (#[trigger] names@[k])@ == all[k],
                captures_of(query) == all,
                query == without_definitions(first, all.take(i as int)),
                highlight_indices.len() == i,
                forall|k: int| 0 <= k < i ==> (#[trigger] highlight_indices@[k]) is None,
        {
            proof {
                assert(all.take(i + 1).drop_last() =~= all.take(i as int));
                assert(all.take(i + 1).last() == names@[i as int]@);
            }
            if strip_prefix(&names[i], "local.definition.").is_some() {
                disable_capture(&mut query, &names[i]);
            }
            highlight_indices.push(None);
        }
        assert(all.take(names.len() as int) =~= all);
        Ok(
            HighlightQuery {
                highlight_indices,
                non_local_patterns: read_non_locals(&predicates),
                local_reference_capture: get_capture(&query, "local.reference"),
                query,
            },
        )
    }

    /// Asks `f` for the highlight of each capture.
    pub fn configure<F>(&mut self, f: &F) where F: Fn(&str) -> Option<Highlight>
        requires
            forall|name: &str| #[trigger] call_requires(f, (name,)),
        ensures
            *final(self) == (HighlightQuery {
                highlight_indices: final(self).highlight_indices,
                ..*old(self)
            }),
            are_highlights_of(
                f,
                captures_of(old(self).query),
                final(self).highlight_indices@,
            ),
    {
        let names = capture_names(&self.query);
        let ghost all = captures_of(self.query);
        let mut highlights: Vec<Option<Highlight>> = Vec::new();
        for i in 0..names.len()
            invariant
                forall|name: &str| #[trigger] call_requires(f, (name,)),
                names.len() == all.len(),
                forall|k: int| 0 <= k < names.len() ==> (#[trigger] names@[k])@ == all[k],
                highlights.len() == i,
                forall|k: int| 0 <= k < i ==> may_answer(f, all[k], #[trigger] highlights@[k]),
        {
            let name = names[i].as_str();
            let highlight = f(name);
            highlights.push(highlight);
            assert(may_answer(f, all[i as int], highlight));
        }
        self.highlight_indices = highlights;
    }
}

/// The patterns that do not match locals are those that ask whether a node is one, in the order of
/// the query text.
pub proof fn lemma_non_locals(predicates: Seq<PatternPredicateView>)
    ensures
        non_locals(predicates) == predicates.filter(
            |predicate: PatternPredicateView| predicate.predicate is IsPropertySet,
        ).map_values(|predicate: PatternPredicateView| predicate.pattern),
    decreases predicates.len(),
{
    let asks = |predicate: PatternPredicateView| predicate.predicate is IsPropertySet;
    let pattern = |predicate: PatternPredicateView| predicate.pattern;
    reveal(Seq::filter);
    if predicates.len() > 0 {
        let front = predicates.drop_last();
        lemma_non_locals(front);
        assert(predicates.filter(asks).map_values(pattern) =~= if asks(predicates.last()) {
            front.filter(asks).map_values(pattern).push(predicates.last().pattern)
        } else {
            front.filter(asks).map_values(pattern)
        });
    } else {
        assert(predicates.filter(asks).map_values(pattern) =~= Seq::empty());
    }
}

/// What a highlight query does not report: the captures of the query whose names begin with
/// `local.definition.`, and no others.
pub proof fn lemma_unreported_definitions(query: Query, names: Seq<Seq<char>>)
    ensures
        without_definitions(query, names) == names.filter(
            |name: Seq<char>| "local.definition."@.is_prefix_of(name),
        ).fold_left(query, |rest: Query, name: Seq<char>| without_capture(rest, name)),
    decreases names.len(),
{
    let defines = |name: Seq<char>| "local.definition."@.is_prefix_of(name);
    reveal(Seq::filter);
    if names.len() > 0 {
        let front = names.drop_last();
        lemma_unreported_definitions(query, front);
        if defines(names.last()) {
            let kept = front.filter(defines);
            assert(names.filter(defines) =~= kept.push(names.last()));
            assert(kept.push(names.last()).drop_last() =~= kept);
            assert(kept.push(names.last()).last() == names.last());
        } else {
            assert(names.filter(defines) =~= front.filter(defines));
        }
    } else {
        assert(names.filter(defines) =~= Seq::empty());
    }
}

/// A highlight query asks for references to locals by the capture `local.reference`, and reports
/// neither the scopes nor the definitions of locals. It has no highlights until it is configured.
pub proof fn lemma_new_highlight_query(query: HighlightQuery, found: CompiledQuery, k: int)
    requires
        stands_for(query, found),
    ensures
        query.query == without_definitions(
            without_capture(found.query, "local.scope"@),
            captures_of(found.query),
        ),
        query.local_reference_capture is Some <==> captures_of(found.query).contains(
            "local.reference"@,
        ),
        query.local_reference_capture matches Some(Capture(number)) ==> captures_of(
            found.query,
        ).len() <= u32::MAX ==> captures_of(found.query)[number as int] == "local.reference"@,
        query.highlight_indices@.len() == captures_of(found.query).len(),
        0 <= k < query.highlight_indices@.len() ==> query.highlight_indices@[k] is None,
{
    let names = captures_of(found.query);
    if names.contains("local.reference"@) {
        names.index_of_first_ensures("local.reference"@);
    }
}

/// Highlights are asked for by the names of the captures, one by one. Where the answer to a name is
/// always the same, the highlights are these answers.
pub proof fn lemma_highlights_by_name<F>(
    f: &F,
    names: Seq<Seq<char>>,
    highlights: Seq<Option<Highlight>>,
    answers: spec_fn(Seq<char>) -> Option<Highlight>,
    k: int,
) where F: Fn(&str) -> Option<Highlight>
    requires
        are_highlights_of(f, names, highlights),
        forall|asked: &str, answer: Option<Highlight>| #[trigger]
            call_ensures(f, (asked,), answer) ==> answer == answers(asked@),
        0 <= k < names.len(),
    ensures
        highlights.len() == names.len(),
        highlights[k] == answers(names[k]),
{
    assert(may_answer(f, names[k], highlights[k]));
}

} // verus!
