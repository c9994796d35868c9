//! Which predicates each kind of query takes, and why a query text is refused.
use crate::byte_text::{byte_len, same_text, str_len};
use crate::treesitter::{
    compile_query, compiled, predicate_views, text_of, CompiledQuery, PatternPredicate,
    PatternPredicateView, PredicateView, QueryPredicate,
};
use crate::types::Pattern;
use tree_house_bindings::{Grammar, Query};
use tree_house_bindings::query::ParseError;
use vstd::prelude::*;

verus! {

/// The kind of a query.
#[derive(Debug, Clone, Copy, PartialEq, Eq, Structural)]
pub enum QueryRules {
    Highlights,
    Injections,
    Locals,
    Indents,
    TextObjects,
    Tags,
    Rainbow,
}

/// Why a query text is refused.
#[derive(Debug)]
pub enum QueryError {
    /// The text takes two gibibytes or more.
    TooLong,
    /// Tree-sitter refuses the text.
    Parse(ParseError),
    /// A pattern sets or tests a property that the kind of query does not know.
    UnknownProperty { pattern: Pattern, property: String },
    /// A pattern has a predicate that the kind of query does not know.
    UnknownPredicate { pattern: Pattern, name: String },
    /// A pattern gives a value to a property that takes none.
    UnexpectedValue { pattern: Pattern, property: String },
}

/// Why a query text is refused, with strings as sequences of characters.
pub enum QueryErrorView {
    TooLong,
    Parse(ParseError),
    UnknownProperty { pattern: Pattern, property: Seq<char> },
    UnknownPredicate { pattern: Pattern, name: Seq<char> },
    UnexpectedValue { pattern: Pattern, property: Seq<char> },
}

impl View for QueryError {
    type V = QueryErrorView;

    open spec fn view(&self) -> QueryErrorView {
        match *self {
            QueryError::TooLong => QueryErrorView::TooLong,
            QueryError::Parse(error) => QueryErrorView::Parse(error),
            QueryError::UnknownProperty { pattern, property } => QueryErrorView::UnknownProperty {
                pattern,
                property: property@,
            },
            QueryError::UnknownPredicate { pattern, name } => QueryErrorView::UnknownPredicate {
                pattern,
                name: name@,
            },
            QueryError::UnexpectedValue { pattern, property } => QueryErrorView::UnexpectedValue {
                pattern,
                property: property@,
            },
        }
    }
}

/// What is said of a predicate that is refused.
pub open spec fn refusal_message(error: QueryErrorView) -> Option<Seq<char>> {
    match error {
        QueryErrorView::TooLong | QueryErrorView::Parse(_) => None,
        QueryErrorView::UnknownProperty { property, .. } => Some(
            "unknown property '"@ + property + "'"@,
        ),
        QueryErrorView::UnknownPredicate { name, .. } => Some("unknown predicate #"@ + name),
        QueryErrorView::UnexpectedValue { property, .. } => Some(
            "property '"@ + property + "' does not take an argument"@,
        ),
    }
}

/// Puts a text between two others.
fn enclosed(before: &str, text: &str, behind: &str) -> (whole: String)
    ensures
        whole@ == before@ + text@ + behind@,
{
    let mut whole = before.to_owned();
    whole.append(text);
    whole.append(behind);
    whole
}

impl QueryError {
    /// Says what is wrong with a predicate that is refused.
    pub fn message(&self) -> (text: Option<String>)
        ensures
            text_of(text) == refusal_message(self@),
    {
        match self {
            QueryError::TooLong | QueryError::Parse(_) => None,
            QueryError::UnknownProperty { property, .. } => Some(
                enclosed("unknown property '", property, "'"),
            ),
            QueryError::UnknownPredicate { name, .. } => {
                let text = enclosed("unknown predicate #", name, "");
                proof {
                    reveal_strlit("");
                    assert(text@ =~= "unknown predicate #"@ + name@);
                }
                Some(text)
            },
            QueryError::UnexpectedValue { property, .. } => Some(
                enclosed("property '", property, "' does not take an argument"),
            ),
        }
    }
}

/// Whether a query for injections may set a property to a value.
pub open spec fn is_injection_setting(key: Seq<char>, val: Option<Seq<char>>) -> bool {
    ||| key == "injection.include-unnamed-children"@ && val is None
    ||| key == "injection.include-children"@ && val is None
    ||| key == "injection.language"@ && val is Some
    ||| key == "injection.combined"@ && val is None
}

/// Whether a query for indents may set a property.
pub open spec fn is_indent_setting(key: Seq<char>) -> bool {
    ||| key == "indent.begin"@
    ||| key == "indent.end"@
    ||| key == "indent.dedent"@
    ||| key == "indent.branch"@
    ||| key == "indent.ignore"@
    ||| key == "indent.align"@
}

/// Whether a kind of query takes a predicate.
pub open spec fn accepts(rules: QueryRules, predicate: PredicateView) -> bool {
    match rules {
        QueryRules::Highlights => match predicate {
            PredicateView::SetProperty { key, .. } => key == "local.scope-inherits"@,
            PredicateView::IsPropertySet { negate, key, val } => negate && key == "local"@
                && val is None,
            PredicateView::Other { .. } => false,
        },
        QueryRules::Injections => match predicate {
            PredicateView::SetProperty { key, val } => is_injection_setting(key, val),
            _ => false,
        },
        QueryRules::Locals => match predicate {
            PredicateView::SetProperty { key, .. } => key == "local.scope-inherits"@,
            _ => false,
        },
        QueryRules::Indents => match predicate {
            PredicateView::SetProperty { key, .. } => is_indent_setting(key),
            _ => false,
        },
        QueryRules::TextObjects => true,
        QueryRules::Tags => match predicate {
            PredicateView::IsPropertySet { key, .. } => key == "local"@,
            PredicateView::SetProperty { .. } => false,
            PredicateView::Other { name } => name == "strip!"@ || name == "select-adjacent!"@,
        },
        QueryRules::Rainbow => match predicate {
            PredicateView::SetProperty { key, val } => key == "rainbow.include-children"@
                && val is None,
            _ => false,
        },
    }
}

/// Why a kind of query does not take a predicate.
pub open spec fn refusal(rules: QueryRules, predicate: PatternPredicateView) -> QueryErrorView {
    let pattern = predicate.pattern;
    match predicate.predicate {
        PredicateView::IsPropertySet { key, .. } => QueryErrorView::UnknownProperty {
            pattern,
            property: key,
        },
        PredicateView::SetProperty { key, .. } => if rules == QueryRules::Rainbow && key
            == "rainbow.include-children"@ {
            QueryErrorView::UnexpectedValue { pattern, property: key }
        } else {
            QueryErrorView::UnknownProperty { pattern, property: key }
        },
        PredicateView::Other { name } => QueryErrorView::UnknownPredicate { pattern, name },
    }
}

/// The refusal of the first predicate that a kind of query does not take.
pub open spec fn first_refusal(
    rules: QueryRules,
    predicates: Seq<PatternPredicateView>,
) -> Option<QueryErrorView>
    decreases predicates.len(),
{
    if predicates.len() == 0 {
        None
    } else if !accepts(rules, predicates[0].predicate) {
        Some(refusal(rules, predicates[0]))
    } else {
        first_refusal(rules, predicates.drop_first())
    }
}

/// What comes of a query text of some kind. What stands first in the text is told first: a
/// predicate that is not taken comes before what tree-sitter refuses behind it.
pub open spec fn query_outcome(rules: QueryRules, grammar: Grammar, source: Seq<char>) -> Result<
    CompiledQuery,
    QueryErrorView,
> {
    if byte_len(source) > i32::MAX {
        Err(QueryErrorView::TooLong)
    } else {
        let read = compiled(grammar, source);
        match first_refusal(rules, read.predicates) {
            Some(refusal) => Err(refusal),
            None => match read.query {
                Ok(query) => Ok(CompiledQuery { query, predicates: read.predicates }),
                Err(error) => Err(QueryErrorView::Parse(error)),
            },
        }
    }
}

/// Tells whether a query for injections may set a property to a value.
fn check_injection_setting(key: &str, has_val: bool) -> (known: bool)
    ensures
        forall|val: Option<Seq<char>>|
            #![trigger is_injection_setting(key@, val)]
            (val is Some) == has_val ==> known == is_injection_setting(key@, val),
{
    if has_val {
        same_text(key, "injection.language")
    } else {
        same_text(key, "injection.include-unnamed-children") || same_text(
            key,
            "injection.include-children",
        ) || same_text(key, "injection.combined")
    }
}

/// Tells whether a query for indents may set a property.
fn check_indent_setting(key: &str) -> (known: bool)
    ensures
        known == is_indent_setting(key@),
{
    same_text(key, "indent.begin") || same_text(key, "indent.end") || same_text(
        key,
        "indent.dedent",
    ) || same_text(key, "indent.branch") || same_text(key, "indent.ignore") || same_text(
        key,
        "indent.align",
    )
}

impl QueryRules {
    /// Tells whether this kind of query takes a predicate.
    pub fn accepts_predicate(self, predicate: &QueryPredicate) -> (accepted: bool)
        ensures
            accepted == accepts(self, predicate@),
    {
        match self {
            QueryRules::Highlights => match predicate {
                QueryPredicate::SetProperty { key, .. } => same_text(key, "local.scope-inherits"),
                QueryPredicate::IsPropertySet { negate, key, val } => *negate && same_text(
                    key,
                    "local",
                ) && val.is_none(),
                QueryPredicate::Other { .. } => false,
            },
            QueryRules::Injections => match predicate {
                QueryPredicate::SetProperty { key, val } => check_injection_setting(
                    key,
                    val.is_some(),
                ),
                _ => false,
            },
            QueryRules::Locals => match predicate {
                QueryPredicate::SetProperty { key, .. } => same_text(key, "local.scope-inherits"),
                _ => false,
            },
            QueryRules::Indents => match predicate {
                QueryPredicate::SetProperty { key, .. } => check_indent_setting(key),
                _ => false,
            },
            QueryRules::TextObjects => true,
            QueryRules::Tags => match predicate {
                QueryPredicate::IsPropertySet { key, .. } => same_text(key, "local"),
                QueryPredicate::SetProperty { .. } => false,
                QueryPredicate::Other { name } => same_text(name, "strip!") || same_text(
                    name,
                    "select-adjacent!",
                ),
            },
            QueryRules::Rainbow => match predicate {
                QueryPredicate::SetProperty { key, val } => same_text(
                    key,
                    "rainbow.include-children",
                ) && val.is_none(),
                _ => false,
            },
        }
    }

    /// Says why this kind of query does not take a predicate.
    fn refuse(self, predicate: &PatternPredicate) -> (error: QueryError)
        ensures
            error@ == refusal(self, predicate@),
    {
        let pattern = predicate.pattern;
        match &predicate.predicate {
            QueryPredicate::IsPropertySet { key, .. } => QueryError::UnknownProperty {
                pattern,
                property: key.clone(),
            },
            QueryPredicate::SetProperty { key, .. } => if self == QueryRules::Rainbow && same_text(
                key,
                "rainbow.include-children",
            ) {
                QueryError::UnexpectedValue { pattern, property: key.clone() }
            } else {
                QueryError::UnknownProperty { pattern, property: key.clone() }
            },
            QueryPredicate::Other { name } => QueryError::UnknownPredicate {
                pattern,
                name: name.clone(),
            },
        }
    }

    /// Finds the first predicate that this kind of query does not take.
    pub fn check_predicates(self, predicates: &Vec<PatternPredicate>) -> (res: Result<
        (),
        QueryError,
    >)
        ensures
            match res {
                Ok(()) => first_refusal(self, predicate_views(predicates@)) is None,
                Err(error) => first_refusal(self, predicate_views(predicates@)) == Some(error@),
            },
    {
        let ghost views = predicate_views(predicates@);
        proof {
            assert(views.skip(0) =~= views);
        }
        for i in 0..predicates.len()
            invariant
                views == predicate_views(predicates@),
                first_refusal(self, views) == first_refusal(self, views.skip(i as int)),
        {
            assert(views.skip(i as int)[0] == predicates@[i as int]@);
            assert(views.skip(i as int).drop_first() =~= views.skip(i + 1));
            if !self.accepts_predicate(&predicates[i].predicate) {
                return Err(self.refuse(&predicates[i]));
            }
        }
        Ok(())
    }

    /// Compiles a query text of this kind.
    pub fn compile(self, grammar: Grammar, source: &str) -> (res: Result<
        (Query, Vec<PatternPredicate>),
        QueryError,
    >)
        ensures
            match res {
                Ok((query, predicates)) => {
                    &&& query_outcome(self, grammar, source@) == Ok::<
                        CompiledQuery,
                        QueryErrorView,
                    >((CompiledQuery { query, predicates: predicate_views(predicates@) }))
                    &&& forall|i: int|
                        0 <= i < predicates.len() ==> (#[trigger] predicates@[i]).pattern.0
                            < u32::MAX
                },
                Err(error) => query_outcome(self, grammar, source@) == Err::<
                    CompiledQuery,
                    QueryErrorView,
                >(error@),
            },
    {
        if str_len(source) > i32::MAX as usize {
            return Err(QueryError::TooLong);
        }
        let (read, predicates) = compile_query(grammar, source);
        match self.check_predicates(&predicates) {
            Err(error) => Err(error),
            Ok(()) => match read {
                Ok(query) => Ok((query, predicates)),
                Err(error) => Err(QueryError::Parse(error)),
            },
        }
    }
}

/// Which kinds of query may set a property. A query for text objects may set any, and one for tags
/// may set none.
pub proof fn lemma_who_may_set(rules: QueryRules, key: Seq<char>, val: Option<Seq<char>>)
    ensures
        accepts(rules, PredicateView::SetProperty { key, val }) <==> {
            ||| rules is TextObjects
            ||| key == "local.scope-inherits"@ && (rules is Highlights || rules is Locals)
            ||| key == "injection.language"@ && val is Some && rules is Injections
            ||| key == "injection.combined"@ && val is None && rules is Injections
            ||| key == "injection.include-children"@ && val is None && rules is Injections
            ||| key == "injection.include-unnamed-children"@ && val is None && rules is Injections
            ||| key == "rainbow.include-children"@ && val is None && rules is Rainbow
            ||| rules is Indents && seq![
                "indent.begin"@,
                "indent.end"@,
                "indent.dedent"@,
                "indent.branch"@,
                "indent.ignore"@,
                "indent.align"@,
            ].contains(key)
        },
{
    let known = seq![
        "indent.begin"@,
        "indent.end"@,
        "indent.dedent"@,
        "indent.branch"@,
        "indent.ignore"@,
        "indent.align"@,
    ];
    assert(known[0] == "indent.begin"@);
    assert(known[1] == "indent.end"@);
    assert(known[2] == "indent.dedent"@);
    assert(known[3] == "indent.branch"@);
    assert(known[4] == "indent.ignore"@);
    assert(known[5] == "indent.align"@);
}

/// Which kinds of query may ask for a property, and which may use another predicate. A query for
/// text objects may do both.
pub proof fn lemma_who_may_ask(
    rules: QueryRules,
    negate: bool,
    key: Seq<char>,
    val: Option<Seq<char>>,
    name: Seq<char>,
)
    ensures
        accepts(rules, PredicateView::IsPropertySet { negate, key, val }) <==> {
            ||| rules is TextObjects
            ||| rules is Tags && key == "local"@
            ||| rules is Highlights && key == "local"@ && negate && val is None
        },
        accepts(rules, PredicateView::Other { name }) <==> {
            ||| rules is TextObjects
            ||| rules is Tags && (name == "strip!"@ || name == "select-adjacent!"@)
        },
{
}

/// What is told of a refused predicate is its pattern, and the property or the predicate by its
/// name.
pub proof fn lemma_refusal_names_it(rules: QueryRules, predicate: PatternPredicateView)
    ensures
        match refusal(rules, predicate) {
            QueryErrorView::UnknownProperty { pattern, property } => {
                &&& pattern == predicate.pattern
                &&& match predicate.predicate {
                    PredicateView::IsPropertySet { key, .. } => property == key,
                    PredicateView::SetProperty { key, .. } => property == key && !(
                    rules is Rainbow && key == "rainbow.include-children"@),
                    PredicateView::Other { .. } => false,
                }
            },
            QueryErrorView::UnknownPredicate { pattern, name } => {
                &&& pattern == predicate.pattern
                &&& predicate.predicate == PredicateView::Other { name }
            },
            QueryErrorView::UnexpectedValue { pattern, property } => {
                &&& pattern == predicate.pattern
                &&& rules is Rainbow
                &&& property == "rainbow.include-children"@
                &&& predicate.predicate is SetProperty
            },
            _ => false,
        },
{
}

/// The first predicate that is not taken decides, whatever stands behind it. If all are taken,
/// nothing is refused.
pub proof fn lemma_first_refusal(
    rules: QueryRules,
    predicates: Seq<PatternPredicateView>,
    at: int,
)
    requires
        0 <= at <= predicates.len(),
        forall|k: int| 0 <= k < at ==> accepts(rules, (#[trigger] predicates[k]).predicate),
        at < predicates.len() ==> !accepts(rules, predicates[at].predicate),
    ensures
        at < predicates.len() ==> first_refusal(rules, predicates) == Some(
            refusal(rules, predicates[at]),
        ),
        at == predicates.len() ==> first_refusal(rules, predicates) is None,
    decreases predicates.len(),
{
    if at > 0 {
        let rest = predicates.drop_first();
        assert(accepts(rules, predicates[0].predicate));
        assert forall|k: int| 0 <= k < at - 1 implies accepts(
            rules,
            (#[trigger] rest[k]).predicate,
        ) by {
            assert(rest[k] == predicates[k + 1]);
        }
        lemma_first_refusal(rules, rest, at - 1);
    }
}

/// A query text is taken if it is short enough, tree-sitter takes it, and the kind of query takes
/// all its predicates; and only then. The query is what tree-sitter makes of it.
pub proof fn lemma_when_a_query_is_taken(rules: QueryRules, grammar: Grammar, source: Seq<char>)
    ensures
        ({
            let read = compiled(grammar, source);
            &&& query_outcome(rules, grammar, source) is Ok <==> {
                &&& byte_len(source) < 0x8000_0000
                &&& read.query is Ok
                &&& forall|k: int|
                    0 <= k < read.predicates.len() ==> accepts(
                        rules,
                        (#[trigger] read.predicates[k]).predicate,
                    )
            }
            &&& query_outcome(rules, grammar, source) matches Ok(found) ==> found.query
                == read.query->Ok_0 && found.predicates == read.predicates
            &&& query_outcome(rules, grammar, source) == Err::<CompiledQuery, QueryErrorView>(
                QueryErrorView::TooLong,
            ) <==> byte_len(source) >= 0x8000_0000
        }),
{
    let read = compiled(grammar, source);
    let at = first_untaken(rules, read.predicates);
    lemma_first_untaken(rules, read.predicates);
    lemma_first_refusal(rules, read.predicates, at);
    if at < read.predicates.len() {
        assert(!accepts(rules, read.predicates[at].predicate));
        lemma_refusal_names_it(rules, read.predicates[at]);
    }
}

/// The place of the first predicate that is not taken.
spec fn first_untaken(rules: QueryRules, predicates: Seq<PatternPredicateView>) -> int
    decreases predicates.len(),
{
    if predicates.len() == 0 || !accepts(rules, predicates[0].predicate) {
        0
    } else {
        1 + first_untaken(rules, predicates.drop_first())
    }
}

/// All before that place are taken.
proof fn lemma_first_untaken(rules: QueryRules, predicates: Seq<PatternPredicateView>)
    ensures
        ({
            let at = first_untaken(rules, predicates);
            &&& 0 <= at <= predicates.len()
            &&& forall|k: int| 0 <= k < at ==> accepts(rules, (#[trigger] predicates[k]).predicate)
            &&& at < predicates.len() ==> !accepts(rules, predicates[at].predicate)
        }),
    decreases predicates.len(),
{
    if predicates.len() > 0 && accepts(rules, predicates[0].predicate) {
        let rest = predicates.drop_first();
        lemma_first_untaken(rules, rest);
        assert forall|k: int| 0 <= k < first_untaken(rules, predicates) implies accepts(
            rules,
            (#[trigger] predicates[k]).predicate,
        ) by {
            if k > 0 {
                assert(rest[k - 1] == predicates[k]);
            }
        }
    }
}

} // verus!
