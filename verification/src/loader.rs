//! A loader for all languages of a registry.
use crate::config::{config_refusal, is_config_of, LanguageConfig, LanguageLoader};
use crate::grammar_files::{GrammarError, GrammarErrorView};
use crate::injections_query::{InjectionLanguageMarker, MarkerView};
use crate::language_id::LanguageId;
use crate::parts::texts_of;
use crate::query_files::{QueryReadError, QueryReadErrorView};
use crate::query_rules::{QueryError, QueryErrorView};
use crate::regexes::{compile_regex, find_spans, match_spans, regex_of};
use crate::registry::{LanguageRegistry, LanguageSpec, RegistryView};
use crate::rope::slice_to_string;
use crate::text_map::{has_key, in_text_order, lemma_text_order, lists, text_before, TextMap};
use crate::types::Language;
use regex::Regex;
use tree_house_bindings::Grammar;
use vstd::prelude::*;

verus! {

/// A language of a loader.
#[derive(Debug)]
pub struct LoadedLanguage {
    pub id: LanguageId,
    pub config: LanguageConfig,
}

/// A pattern that stands for a language.
#[derive(Debug)]
pub struct RegexMatcher {
    pub language: Language,
    pub regex: Regex,
}

/// A name that stands for a language.
#[derive(Debug)]
pub struct ExactNameMatcher {
    pub language: Language,
    /// The language that gave the name.
    pub owner: LanguageId,
}

/// Why a loader cannot be built.
#[derive(Debug)]
#[allow(inconsistent_fields)]
pub enum RegistryLanguageLoaderError {
    Grammar { language: LanguageId, source: GrammarError },
    Query { language: LanguageId, filename: &'static str, source: QueryReadError },
    Parse { language: LanguageId, source: QueryError },
    InvalidRegex {
        language: LanguageId,
        matcher_kind: &'static str,
        pattern: String,
        source: regex::Error,
    },
    /// Two languages want the same name.
    DuplicateInjectionName { name: String, first: LanguageId, second: LanguageId },
}

/// Why a loader cannot be built, with strings as sequences of characters.
#[allow(inconsistent_fields)]
pub enum LoaderErrorView {
    Grammar { language: Seq<char>, source: GrammarErrorView },
    Query { language: Seq<char>, filename: Seq<char>, source: QueryReadErrorView },
    Parse { language: Seq<char>, source: QueryErrorView },
    InvalidRegex {
        language: Seq<char>,
        matcher_kind: Seq<char>,
        pattern: Seq<char>,
        source: regex::Error,
    },
    DuplicateInjectionName { name: Seq<char>, first: Seq<char>, second: Seq<char> },
}

impl View for RegistryLanguageLoaderError {
    type V = LoaderErrorView;

    open spec fn view(&self) -> LoaderErrorView {
        match *self {
            RegistryLanguageLoaderError::Grammar { language, source } => LoaderErrorView::Grammar {
                language: language@,
                source: source@,
            },
            RegistryLanguageLoaderError::Query { language, filename, source } => {
                LoaderErrorView::Query {
                    language: language@,
                    filename: filename@,
                    source: source@,
                }
            },
            RegistryLanguageLoaderError::Parse { language, source } => LoaderErrorView::Parse {
                language: language@,
                source: source@,
            },
            RegistryLanguageLoaderError::InvalidRegex {
                language,
                matcher_kind,
                pattern,
                source,
            } => LoaderErrorView::InvalidRegex {
                language: language@,
                matcher_kind: matcher_kind@,
                pattern: pattern@,
                source,
            },
            RegistryLanguageLoaderError::DuplicateInjectionName { name, first, second } => {
                LoaderErrorView::DuplicateInjectionName {
                    name: name@,
                    first: first@,
                    second: second@,
                }
            },
        }
    }
}

/// The names that stand for languages, with the languages that gave them.
pub open spec fn names_in(map: Map<Seq<char>, ExactNameMatcher>) -> Map<
    Seq<char>,
    (Language, Seq<char>),
> {
    map.map_values(|matcher: ExactNameMatcher| (matcher.language, matcher.owner@))
}

/// The names once a language was given one more. A name cannot stand for two languages.
pub open spec fn registered(
    names: Map<Seq<char>, (Language, Seq<char>)>,
    name: Seq<char>,
    language: Language,
    owner: Seq<char>,
) -> Result<Map<Seq<char>, (Language, Seq<char>)>, LoaderErrorView> {
    if !names.dom().contains(name) {
        Ok(names.insert(name, (language, owner)))
    } else if names[name].0 == language {
        Ok(names)
    } else {
        Err(LoaderErrorView::DuplicateInjectionName { name, first: names[name].1, second: owner })
    }
}

/// The names once a language was given some more.
pub open spec fn registered_all(
    names: Map<Seq<char>, (Language, Seq<char>)>,
    more: Seq<Seq<char>>,
    language: Language,
    owner: Seq<char>,
) -> Result<Map<Seq<char>, (Language, Seq<char>)>, LoaderErrorView>
    decreases more.len(),
{
    if more.len() == 0 {
        Ok(names)
    } else {
        match registered_all(names, more.drop_last(), language, owner) {
            Ok(names) => registered(names, more.last(), language, owner),
            Err(error) => Err(error),
        }
    }
}

/// Gives a language a name.
pub fn register_exact_name(
    exact_names: &mut TextMap<ExactNameMatcher>,
    name: &str,
    language: Language,
    current: &LanguageId,
) -> (res: Result<(), RegistryLanguageLoaderError>)
    ensures
        match res {
            Ok(()) => registered(names_in(old(exact_names)@), name@, language, current@) == Ok::<
                Map<Seq<char>, (Language, Seq<char>)>,
                LoaderErrorView,
            >(names_in(final(exact_names)@)),
            Err(error) => registered(names_in(old(exact_names)@), name@, language, current@)
                == Err::<Map<Seq<char>, (Language, Seq<char>)>, LoaderErrorView>(error@),
        },
{
    if let Some(existing) = exact_names.get(name) {
        if existing.language == language {
            return Ok(());
        }
        return Err(
            RegistryLanguageLoaderError::DuplicateInjectionName {
                name: name.to_owned(),
                first: existing.owner.clone(),
                second: current.clone(),
            },
        );
    }
    let ghost before = exact_names@;
    let _none = exact_names.insert(
        name.to_owned(),
        ExactNameMatcher { language, owner: current.clone() },
    );
    assert(names_in(exact_names@) =~= names_in(before).insert(name@, (language, current@)));
    Ok(())
}

proof fn lemma_registered_prefix(
    names: Map<Seq<char>, (Language, Seq<char>)>,
    more: Seq<Seq<char>>,
    language: Language,
    owner: Seq<char>,
    count: int,
)
    requires
        0 <= count <= more.len(),
        registered_all(names, more.take(count), language, owner) is Err,
    ensures
        registered_all(names, more, language, owner) == registered_all(
            names,
            more.take(count),
            language,
            owner,
        ),
    decreases more.len(),
{
    if count < more.len() {
        assert(more.drop_last().take(count) =~= more.take(count));
        lemma_registered_prefix(names, more.drop_last(), language, owner, count);
    } else {
        assert(more.take(count) =~= more);
    }
}

/// Gives a language some names.
fn register_exact_names(
    exact_names: &mut TextMap<ExactNameMatcher>,
    more: &Vec<String>,
    language: Language,
    current: &LanguageId,
) -> (res: Result<(), RegistryLanguageLoaderError>)
    ensures
        match res {
            Ok(()) => registered_all(
                names_in(old(exact_names)@),
                texts_of(more@),
                language,
                current@,
            ) == Ok::<Map<Seq<char>, (Language, Seq<char>)>, LoaderErrorView>(
                names_in(final(exact_names)@),
            ),
            Err(error) => registered_all(
                names_in(old(exact_names)@),
                texts_of(more@),
                language,
                current@,
            ) == Err::<Map<Seq<char>, (Language, Seq<char>)>, LoaderErrorView>(error@),
        },
{
    let ghost start = names_in(exact_names@);
    let ghost all = texts_of(more@);
    assert(all.take(0) =~= Seq::empty());
    for i in 0..more.len()
        invariant
            start == names_in(old(exact_names)@),
            all == texts_of(more@),
            registered_all(start, all.take(i as int), language, current@) == Ok::<
                Map<Seq<char>, (Language, Seq<char>)>,
                LoaderErrorView,
            >(names_in(exact_names@)),
    {
        proof {
            assert(all.take(i + 1).drop_last() =~= all.take(i as int));
            assert(all.take(i + 1).last() == more@[i as int]@);
        }
        match register_exact_name(exact_names, &more[i], language, current) {
            Ok(()) => {},
            Err(error) => {
                proof {
                    lemma_registered_prefix(start, all, language, current@, i + 1);
                }
                return Err(error);
            },
        }
    }
    assert(all.take(more.len() as int) =~= all);
    Ok(())
}

/// Patterns that stand for languages, once those of one more language were added.
pub open spec fn compiled_all(
    matchers: Seq<RegexMatcher>,
    language: Language,
    id: Seq<char>,
    matcher_kind: Seq<char>,
    patterns: Seq<Seq<char>>,
) -> Result<Seq<RegexMatcher>, LoaderErrorView>
    decreases patterns.len(),
{
    if patterns.len() == 0 {
        Ok(matchers)
    } else {
        match compiled_all(matchers, language, id, matcher_kind, patterns.drop_last()) {
            Err(error) => Err(error),
            Ok(matchers) => match regex_of(patterns.last()) {
                Ok(regex) => Ok(matchers.push(RegexMatcher { language, regex })),
                Err(source) => Err(
                    LoaderErrorView::InvalidRegex {
                        language: id,
                        matcher_kind,
                        pattern: patterns.last(),
                        source,
                    },
                ),
            },
        }
    }
}

proof fn lemma_compiled_prefix(
    matchers: Seq<RegexMatcher>,
    language: Language,
    id: Seq<char>,
    matcher_kind: Seq<char>,
    patterns: Seq<Seq<char>>,
    count: int,
)
    requires
        0 <= count <= patterns.len(),
        compiled_all(matchers, language, id, matcher_kind, patterns.take(count)) is Err,
    ensures
        compiled_all(matchers, language, id, matcher_kind, patterns) == compiled_all(
            matchers,
            language,
            id,
            matcher_kind,
            patterns.take(count),
        ),
    decreases patterns.len(),
{
    if count < patterns.len() {
        assert(patterns.drop_last().take(count) =~= patterns.take(count));
        lemma_compiled_prefix(
            matchers,
            language,
            id,
            matcher_kind,
            patterns.drop_last(),
            count,
        );
    } else {
        assert(patterns.take(count) =~= patterns);
    }
}

/// Compiles the patterns that stand for a language.
pub fn compile_regexes(
    dst: &mut Vec<RegexMatcher>,
    language: Language,
    id: &LanguageId,
    matcher_kind: &'static str,
    patterns: &Vec<String>,
) -> (res: Result<(), RegistryLanguageLoaderError>)
    ensures
        match res {
            Ok(()) => compiled_all(
                old(dst)@,
                language,
                id@,
                matcher_kind@,
                texts_of(patterns@),
            ) == Ok::<Seq<RegexMatcher>, LoaderErrorView>(final(dst)@),
            Err(error) => compiled_all(
                old(dst)@,
                language,
                id@,
                matcher_kind@,
                texts_of(patterns@),
            ) == Err::<Seq<RegexMatcher>, LoaderErrorView>(error@),
        },
{
    let ghost start = dst@;
    let ghost all = texts_of(patterns@);
    assert(all.take(0) =~= Seq::empty());
    for i in 0..patterns.len()
        invariant
            start == old(dst)@,
            all == texts_of(patterns@),
            compiled_all(start, language, id@, matcher_kind@, all.take(i as int)) == Ok::<
                Seq<RegexMatcher>,
                LoaderErrorView,
            >(dst@),
    {
        proof {
            assert(all.take(i + 1).drop_last() =~= all.take(i as int));
            assert(all.take(i + 1).last() == patterns@[i as int]@);
        }
        match compile_regex(&patterns[i]) {
            Ok(regex) => {
                dst.push(RegexMatcher { language, regex });
            },
            Err(source) => {
                proof {
                    lemma_compiled_prefix(start, language, id@, matcher_kind@, all, i + 1);
                }
                return Err(
                    RegistryLanguageLoaderError::InvalidRegex {
                        language: id.clone(),
                        matcher_kind,
                        pattern: patterns[i].clone(),
                        source,
                    },
                );
            },
        }
    }
    assert(all.take(patterns.len() as int) =~= all);
    Ok(())
}

/// The first of the longest of some matches. A match counts if it is longer than all before it.
pub open spec fn longest_span(
    best: Option<(int, Language)>,
    spans: Seq<(usize, usize)>,
    language: Language,
) -> Option<(int, Language)>
    decreases spans.len(),
{
    if spans.len() == 0 {
        best
    } else {
        let best = longest_span(best, spans.drop_last(), language);
        let len = spans.last().1 - spans.last().0;
        match best {
            Some((longest, _)) => if len > longest {
                Some((len, language))
            } else {
                best
            },
            None => Some((len, language)),
        }
    }
}

/// The first of the longest matches of some patterns, and its language.
pub open spec fn longest_of(matchers: Seq<RegexMatcher>, text: Seq<char>) -> Option<(int, Language)>
    decreases matchers.len(),
{
    if matchers.len() == 0 {
        None
    } else {
        longest_span(
            longest_of(matchers.drop_last(), text),
            match_spans(matchers.last().regex, text),
            matchers.last().language,
        )
    }
}

/// The language of the longest match.
pub open spec fn longest_match(matchers: Seq<RegexMatcher>, text: Seq<char>) -> Option<Language> {
    match longest_of(matchers, text) {
        Some(found) => Some(found.1),
        None => None,
    }
}

/// Finds the language of the longest match of some patterns.
pub fn longest_regex_match(matchers: &Vec<RegexMatcher>, text: &str) -> (language: Option<Language>)
    ensures
        language == longest_match(matchers@, text@),
{
    let mut best: Option<(usize, Language)> = None;
    assert(matchers@.take(0) =~= Seq::empty());
    for i in 0..matchers.len()
        invariant
            longest_of(matchers@.take(i as int), text@) == as_int(best),
    {
        proof {
            assert(matchers@.take(i + 1).drop_last() =~= matchers@.take(i as int));
            assert(matchers@.take(i + 1).last() == matchers@[i as int]);
        }
        let spans = find_spans(&matchers[i].regex, text);
        let ghost start = as_int(best);
        assert(spans@.take(0) =~= Seq::empty());
        for k in 0..spans.len()
            invariant
                i < matchers.len(),
                forall|k: int| 0 <= k < spans.len() ==> (#[trigger] spans@[k]).0 <= spans@[k].1,
                longest_span(start, spans@.take(k as int), matchers@[i as int].language) == as_int(
                    best,
                ),
        {
            proof {
                assert(spans@.take(k + 1).drop_last() =~= spans@.take(k as int));
                assert(spans@.take(k + 1).last() == spans@[k as int]);
            }
            let len: usize = spans[k].1 - spans[k].0;
            let longer = match best {
                Some((best_len, _)) => len > best_len,
                None => true,
            };
            if longer {
                best = Some((len, matchers[i].language));
            }
        }
        assert(spans@.take(spans.len() as int) =~= spans@);
    }
    assert(matchers@.take(matchers.len() as int) =~= matchers@);
    match best {
        Some((_, language)) => Some(language),
        None => None,
    }
}

/// A match with its length as an integer.
spec fn as_int(best: Option<(usize, Language)>) -> Option<(int, Language)> {
    match best {
        Some((len, language)) => Some((len as int, language)),
        None => None,
    }
}

/// How injections name the languages of a loader.
#[verifier::ext_equal]
pub struct Matchers {
    pub names: Map<Seq<char>, (Language, Seq<char>)>,
    pub content: Seq<RegexMatcher>,
    pub filename: Seq<RegexMatcher>,
    pub shebang: Seq<RegexMatcher>,
}

/// What a query file of a language says. A file that is not there says nothing.
pub open spec fn query_text(registry: RegistryView, id: Seq<char>, filename: Seq<char>) -> Result<
    Seq<char>,
    QueryReadErrorView,
> {
    match registry.optional_query_of(id, filename) {
        Ok(Some(text)) => Ok(text),
        Ok(None) => Ok(Seq::empty()),
        Err(error) => Err(error),
    }
}

/// The grammar of a language, if it could be had.
pub open spec fn grammar_at(
    grammars: Seq<Result<Grammar, GrammarError>>,
    at: int,
    spec: LanguageSpec,
) -> Result<Grammar, GrammarErrorView> {
    if at < grammars.len() {
        match grammars[at] {
            Ok(grammar) => Ok(grammar),
            Err(error) => Err(error@),
        }
    } else {
        Err(GrammarErrorView::NotFound(spec.grammar_name@))
    }
}

/// Why a language cannot be configured, if it cannot.
pub open spec fn config_problem(
    registry: RegistryView,
    id: Seq<char>,
    grammar: Result<Grammar, GrammarErrorView>,
) -> Option<LoaderErrorView> {
    match grammar {
        Err(source) => Some(LoaderErrorView::Grammar { language: id, source }),
        Ok(grammar) => match query_text(registry, id, "highlights.scm"@) {
            Err(source) => Some(
                LoaderErrorView::Query { language: id, filename: "highlights.scm"@, source },
            ),
            Ok(highlights) => match query_text(registry, id, "injections.scm"@) {
                Err(source) => Some(
                    LoaderErrorView::Query { language: id, filename: "injections.scm"@, source },
                ),
                Ok(injections) => match query_text(registry, id, "locals.scm"@) {
                    Err(source) => Some(
                        LoaderErrorView::Query { language: id, filename: "locals.scm"@, source },
                    ),
                    Ok(locals) => match config_refusal(grammar, highlights, injections, locals) {
                        Some(source) => Some(LoaderErrorView::Parse { language: id, source }),
                        None => None,
                    },
                },
            },
        },
    }
}

/// Whether this is the configuration of a language.
pub open spec fn is_config_in(
    registry: RegistryView,
    id: Seq<char>,
    grammar: Result<Grammar, GrammarErrorView>,
    config: LanguageConfig,
) -> bool {
    &&& grammar matches Ok(grammar)
    &&& query_text(registry, id, "highlights.scm"@) matches Ok(highlights)
    &&& query_text(registry, id, "injections.scm"@) matches Ok(injections)
    &&& query_text(registry, id, "locals.scm"@) matches Ok(locals)
    &&& is_config_of(config, grammar, highlights, injections, locals)
}

/// How injections name languages, once one more was added.
pub open spec fn matchers_with(
    matchers: Matchers,
    language: Language,
    id: Seq<char>,
    spec: LanguageSpec,
) -> Result<Matchers, LoaderErrorView> {
    match registered(matchers.names, id, language, id) {
        Err(error) => Err(error),
        Ok(names) => match registered_all(names, texts_of(spec.injection_names@), language, id) {
            Err(error) => Err(error),
            Ok(names) => match compiled_all(
                matchers.content,
                language,
                id,
                "content"@,
                texts_of(spec.content_regexes@),
            ) {
                Err(error) => Err(error),
                Ok(content) => match compiled_all(
                    matchers.filename,
                    language,
                    id,
                    "filename"@,
                    texts_of(spec.filename_regexes@),
                ) {
                    Err(error) => Err(error),
                    Ok(filename) => match compiled_all(
                        matchers.shebang,
                        language,
                        id,
                        "shebang"@,
                        texts_of(spec.shebang_regexes@),
                    ) {
                        Err(error) => Err(error),
                        Ok(shebang) => Ok(Matchers { names, content, filename, shebang }),
                    },
                },
            },
        },
    }
}

/// How injections name the first `count` languages of a registry, or why one of these cannot be
/// loaded.
pub open spec fn matchers_until(
    registry: RegistryView,
    entries: Seq<(String, LanguageSpec)>,
    grammars: Seq<Result<Grammar, GrammarError>>,
    count: int,
) -> Result<Matchers, LoaderErrorView>
    decreases count,
{
    if count <= 0 {
        Ok(
            Matchers {
                names: Map::empty(),
                content: Seq::empty(),
                filename: Seq::empty(),
                shebang: Seq::empty(),
            },
        )
    } else {
        let at = count - 1;
        let id = entries[at].0@;
        let spec = entries[at].1;
        match matchers_until(registry, entries, grammars, at) {
            Err(error) => Err(error),
            Ok(matchers) => match config_problem(registry, id, grammar_at(grammars, at, spec)) {
                Some(problem) => Err(problem),
                None => matchers_with(matchers, Language(at as u32), id, spec),
            },
        }
    }
}

proof fn lemma_matchers_prefix(
    registry: RegistryView,
    entries: Seq<(String, LanguageSpec)>,
    grammars: Seq<Result<Grammar, GrammarError>>,
    count: int,
    all: int,
)
    requires
        count <= all,
        matchers_until(registry, entries, grammars, count) is Err,
    ensures
        matchers_until(registry, entries, grammars, all) == matchers_until(
            registry,
            entries,
            grammars,
            count,
        ),
    decreases all - count,
{
    if count < all {
        lemma_matchers_prefix(registry, entries, grammars, count, all - 1);
    }
}

/// Reads a query file of a language. A file that is not there says nothing.
fn read_query_or_nothing(
    registry: &LanguageRegistry,
    id: &LanguageId,
    filename: &'static str,
) -> (res: Result<String, RegistryLanguageLoaderError>)
    ensures
        match res {
            Ok(text) => query_text(registry@, id@, filename@) == Ok::<
                Seq<char>,
                QueryReadErrorView,
            >(text@),
            Err(error) => query_text(registry@, id@, filename@) matches Err(source) && error@ == (
            LoaderErrorView::Query { language: id@, filename: filename@, source }),
        },
{
    match registry.read_optional_query(id, filename) {
        Ok(Some(text)) => Ok(text),
        Ok(None) => Ok(String::new()),
        Err(source) => Err(
            RegistryLanguageLoaderError::Query { language: id.clone(), filename, source },
        ),
    }
}

/// Reads the queries of a language.
fn load_config(
    registry: &LanguageRegistry,
    id: &LanguageId,
    grammar: Result<Grammar, GrammarError>,
) -> (res: Result<LanguageConfig, RegistryLanguageLoaderError>)
    ensures
        ({
            let given = match grammar {
                Ok(grammar) => Ok::<Grammar, GrammarErrorView>(grammar),
                Err(error) => Err::<Grammar, GrammarErrorView>(error@),
            };
            match res {
                Ok(config) => config_problem(registry@, id@, given) is None && is_config_in(
                    registry@,
                    id@,
                    given,
                    config,
                ),
                Err(error) => config_problem(registry@, id@, given) == Some(error@),
            }
        }),
{
    let grammar = match grammar {
        Ok(grammar) => grammar,
        Err(source) => return Err(
            RegistryLanguageLoaderError::Grammar { language: id.clone(), source },
        ),
    };
    let highlights = match read_query_or_nothing(registry, id, "highlights.scm") {
        Ok(text) => text,
        Err(error) => return Err(error),
    };
    let injections = match read_query_or_nothing(registry, id, "injections.scm") {
        Ok(text) => text,
        Err(error) => return Err(error),
    };
    let locals = match read_query_or_nothing(registry, id, "locals.scm") {
        Ok(text) => text,
        Err(error) => return Err(error),
    };
    match LanguageConfig::new(grammar, &highlights, &injections, &locals) {
        Ok(config) => Ok(config),
        Err(source) => Err(RegistryLanguageLoaderError::Parse { language: id.clone(), source }),
    }
}

/// A loader for the languages of a registry. Languages are numbered in the order of their names.
#[derive(Debug)]
pub struct RegistryLanguageLoader {
    pub languages: Vec<LoadedLanguage>,
    pub languages_by_id: TextMap<Language>,
    pub exact_names: TextMap<ExactNameMatcher>,
    pub content_regexes: Vec<RegexMatcher>,
    pub filename_regexes: Vec<RegexMatcher>,
    pub shebang_regexes: Vec<RegexMatcher>,
}

/// The first `count` languages of a registry by their names, numbered in that order.
pub open spec fn numbered(entries: Seq<(String, LanguageSpec)>, count: int) -> Map<
    Seq<char>,
    Language,
>
    decreases count,
{
    if count <= 0 {
        Map::empty()
    } else {
        numbered(entries, count - 1).insert(entries[count - 1].0@, Language((count - 1) as u32))
    }
}

impl RegistryLanguageLoader {
    /// How injections name the languages.
    pub open spec fn matchers(self) -> Matchers {
        Matchers {
            names: names_in(self.exact_names@),
            content: self.content_regexes@,
            filename: self.filename_regexes@,
            shebang: self.shebang_regexes@,
        }
    }

    /// Whether the first languages of a registry are loaded.
    pub open spec fn holds(
        self,
        registry: RegistryView,
        entries: Seq<(String, LanguageSpec)>,
        grammars: Seq<Result<Grammar, GrammarError>>,
        count: int,
    ) -> bool {
        &&& matchers_until(registry, entries, grammars, count) == Ok::<Matchers, LoaderErrorView>(
            self.matchers(),
        )
        &&& self.languages_by_id@ == numbered(entries, count)
        &&& self.languages.len() == count
        &&& forall|i: int|
            0 <= i < count ==> (#[trigger] self.languages@[i]).id@ == entries[i].0@
                && is_config_in(
                registry,
                entries[i].0@,
                grammar_at(grammars, i, entries[i].1),
                self.languages@[i].config,
            )
    }

    /// Takes note of how injections name a language.
    fn add_matchers(&mut self, language: Language, id: &LanguageId, spec: &LanguageSpec) -> (res:
        Result<(), RegistryLanguageLoaderError>)
        ensures
            final(self).languages == old(self).languages,
            final(self).languages_by_id == old(self).languages_by_id,
            match res {
                Ok(()) => matchers_with(old(self).matchers(), language, id@, *spec) == Ok::<
                    Matchers,
                    LoaderErrorView,
                >(final(self).matchers()),
                Err(error) => matchers_with(old(self).matchers(), language, id@, *spec) == Err::<
                    Matchers,
                    LoaderErrorView,
                >(error@),
            },
    {
        match register_exact_name(&mut self.exact_names, id.as_str(), language, id) {
            Ok(()) => {},
            Err(error) => return Err(error),
        }
        match register_exact_names(&mut self.exact_names, &spec.injection_names, language, id) {
            Ok(()) => {},
            Err(error) => return Err(error),
        }
        match compile_regexes(
            &mut self.content_regexes,
            language,
            id,
            "content",
            &spec.content_regexes,
        ) {
            Ok(()) => {},
            Err(error) => return Err(error),
        }
        match compile_regexes(
            &mut self.filename_regexes,
            language,
            id,
            "filename",
            &spec.filename_regexes,
        ) {
            Ok(()) => {},
            Err(error) => return Err(error),
        }
        compile_regexes(
            &mut self.shebang_regexes,
            language,
            id,
            "shebang",
            &spec.shebang_regexes,
        )
    }

    /// Reads the queries of all languages of a registry. The grammars come in the order of the
    /// languages.
    pub fn from_registry(
        registry: &LanguageRegistry,
        grammars: Vec<Result<Grammar, GrammarError>>,
    ) -> (res: Result<Self, RegistryLanguageLoaderError>)
        requires
            forall|entries: Seq<(String, LanguageSpec)>| #[trigger]
                lists(entries, registry@.specs) ==> entries.len() <= u32::MAX,
        ensures
            exists|entries: Seq<(String, LanguageSpec)>| #[trigger]
                lists(entries, registry@.specs) && match res {
                    Ok(loader) => loader.holds(
                        registry@,
                        entries,
                        grammars@,
                        entries.len() as int,
                    ),
                    Err(error) => matchers_until(
                        registry@,
                        entries,
                        grammars@,
                        entries.len() as int,
                    ) == Err::<Matchers, LoaderErrorView>(error@),
                },
    {
        let entries = registry.iter();
        let ghost listed = entries@;
        assert(lists(listed, registry@.specs));
        let mut loader = RegistryLanguageLoader {
            languages: Vec::new(),
            languages_by_id: TextMap::new(),
            exact_names: TextMap::new(),
            content_regexes: Vec::new(),
            filename_regexes: Vec::new(),
            shebang_regexes: Vec::new(),
        };
        assert(loader.matchers() =~= matchers_until(registry@, listed, grammars@, 0)->Ok_0);
        for i in 0..entries.len()
            invariant
                listed == entries@,
                lists(listed, registry@.specs),
                listed.len() <= u32::MAX,
                loader.holds(registry@, listed, grammars@, i as int),
        {
            let spec = &entries[i].1;
            let id = LanguageId::new(&entries[i].0);
            let language = Language::from_raw(i as u32);
            let ghost before = loader;
            let grammar = if i < grammars.len() {
                match &grammars[i] {
                    Ok(grammar) => Ok(*grammar),
                    Err(error) => Err(error.clone()),
                }
            } else {
                Err(GrammarError::NotFound(spec.grammar_name.clone()))
            };
            let config = match load_config(registry, &id, grammar) {
                Ok(config) => config,
                Err(error) => {
                    proof {
                        lemma_matchers_prefix(
                            registry@,
                            listed,
                            grammars@,
                            i + 1,
                            listed.len() as int,
                        );
                    }
                    return Err(error);
                },
            };
            let _none = loader.languages_by_id.insert(entries[i].0.clone(), language);
            loader.languages.push(LoadedLanguage { id: id.clone(), config });
            assert(loader.matchers() == before.matchers());
            match loader.add_matchers(language, &id, spec) {
                Ok(()) => {},
                Err(error) => {
                    proof {
                        lemma_matchers_prefix(
                            registry@,
                            listed,
                            grammars@,
                            i + 1,
                            listed.len() as int,
                        );
                    }
                    return Err(error);
                },
            }
            assert forall|k: int| 0 <= k < i + 1 implies (
            #[trigger] loader.languages@[k]).id@ == listed[k].0@ && is_config_in(
                registry@,
                listed[k].0@,
                grammar_at(grammars@, k, listed[k].1),
                loader.languages@[k].config,
            ) by {
                if k < i {
                    assert(loader.languages@[k] == before.languages@[k]);
                }
            }
        }
        Ok(loader)
    }

    /// The number by which the loader knows a language.
    pub fn language(&self, id: &LanguageId) -> (language: Option<Language>)
        ensures
            match language {
                Some(language) => self.languages_by_id@.dom().contains(id@)
                    && self.languages_by_id@[id@] == language,
                None => !self.languages_by_id@.dom().contains(id@),
            },
    {
        match self.languages_by_id.get(id.as_str()) {
            Some(language) => Some(*language),
            None => None,
        }
    }

    /// The name of a language.
    pub fn language_id(&self, language: Language) -> (id: Option<&LanguageId>)
        ensures
            match id {
                Some(id) => language.0 < self.languages.len()
                    && self.languages@[language.0 as int].id == *id,
                None => language.0 >= self.languages.len(),
            },
    {
        if language.idx() < self.languages.len() {
            Some(&self.languages[language.idx()].id)
        } else {
            None
        }
    }
}

impl LanguageLoader for RegistryLanguageLoader {
    open spec fn marker_language(&self, marker: MarkerView) -> Option<Language> {
        match marker {
            MarkerView::Name(name) => if self.exact_names@.dom().contains(name) {
                Some(self.exact_names@[name].language)
            } else {
                None
            },
            MarkerView::Match(text) => longest_match(self.content_regexes@, text),
            MarkerView::Filename(text) => longest_match(self.filename_regexes@, text),
            MarkerView::Shebang(text) => longest_match(self.shebang_regexes@, text),
        }
    }

    open spec fn config_of(&self, language: Language) -> Option<LanguageConfig> {
        if language.0 < self.languages.len() {
            Some(self.languages@[language.0 as int].config)
        } else {
            None
        }
    }

    fn language_for_marker(&self, marker: InjectionLanguageMarker<'_>) -> (language: Option<
        Language,
    >) {
        match marker {
            InjectionLanguageMarker::Name(name) => match self.exact_names.get(name) {
                Some(matcher) => Some(matcher.language),
                None => None,
            },
            InjectionLanguageMarker::Match(text) => longest_regex_match(
                &self.content_regexes,
                &slice_to_string(&text),
            ),
            InjectionLanguageMarker::Filename(text) => longest_regex_match(
                &self.filename_regexes,
                &slice_to_string(&text),
            ),
            InjectionLanguageMarker::Shebang(text) => longest_regex_match(
                &self.shebang_regexes,
                &slice_to_string(&text),
            ),
        }
    }

    fn get_config(&self, lang: Language) -> (config: Option<&LanguageConfig>) {
        if lang.idx() < self.languages.len() {
            Some(&self.languages[lang.idx()].config)
        } else {
            None
        }
    }
}

proof fn lemma_numbered(entries: Seq<(String, LanguageSpec)>, count: int)
    requires
        in_text_order(entries),
        0 <= count <= entries.len(),
    ensures
        forall|id: Seq<char>| #[trigger]
            numbered(entries, count).dom().contains(id) <==> exists|i: int|
                0 <= i < count && (#[trigger] entries[i]).0@ == id,
        forall|i: int|
            0 <= i < count ==> numbered(entries, count)[(#[trigger] entries[i]).0@] == Language(
                i as u32,
            ),
    decreases count,
{
    if count > 0 {
        lemma_numbered(entries, count - 1);
        let last = entries[count - 1].0@;
        let before = numbered(entries, count - 1);
        let after = numbered(entries, count);
        assert forall|id: Seq<char>| #[trigger] after.dom().contains(id) <==> exists|i: int|
            0 <= i < count && (#[trigger] entries[i]).0@ == id by {
            if after.dom().contains(id) {
                if id == last {
                    assert(entries[count - 1].0@ == id);
                } else {
                    assert(before.dom().contains(id));
                    let i = choose|i: int| 0 <= i < count - 1 && (#[trigger] entries[i]).0@ == id;
                    assert(entries[i].0@ == id);
                }
            }
            if exists|i: int| 0 <= i < count && (#[trigger] entries[i]).0@ == id {
                let i = choose|i: int| 0 <= i < count && (#[trigger] entries[i]).0@ == id;
                if i < count - 1 {
                    assert(before.dom().contains(id));
                }
            }
        }
        assert forall|i: int| 0 <= i < count implies after[(#[trigger] entries[i]).0@]
            == Language(i as u32) by {
            if i < count - 1 {
                assert(text_before(entries[i].0@, entries[count - 1].0@));
                lemma_text_order(entries[i].0@, last);
            }
        }
    }
}

/// Names and numbers of the languages of a loader lead to each other, and there is one of each for
/// each language of the registry.
pub proof fn lemma_names_and_numbers_agree(
    loader: RegistryLanguageLoader,
    registry: RegistryView,
    entries: Seq<(String, LanguageSpec)>,
    grammars: Seq<Result<Grammar, GrammarError>>,
)
    requires
        lists(entries, registry.specs),
        entries.len() <= u32::MAX,
        loader.holds(registry, entries, grammars, entries.len() as int),
    ensures
        loader.languages_by_id@.dom() == registry.specs.dom(),
        loader.languages.len() == entries.len(),
        forall|k: int|
            0 <= k < entries.len() ==> {
                &&& loader.languages_by_id@.dom().contains((#[trigger] entries[k]).0@)
                &&& loader.languages_by_id@[entries[k].0@] == Language(k as u32)
                &&& loader.languages@[k].id@ == entries[k].0@
            },
        forall|i: int|
            0 <= i < loader.languages.len() ==> loader.languages_by_id@.dom().contains(
                (#[trigger] loader.languages@[i]).id@,
            ) && loader.languages_by_id@[loader.languages@[i].id@] == Language(i as u32),
        forall|id: Seq<char>| #[trigger]
            registry.specs.dom().contains(id) ==> loader.languages_by_id@[id].0
                < loader.languages.len()
                && loader.languages@[loader.languages_by_id@[id].0 as int].id@ == id,
{
    let count = entries.len() as int;
    lemma_numbered(entries, count);
    let by_id = loader.languages_by_id@;
    assert forall|id: Seq<char>| by_id.dom().contains(id) == registry.specs.dom().contains(
        id,
    ) by {
        assert(registry.specs.dom().contains(id) == has_key(entries, id));
    }
    assert(by_id.dom() =~= registry.specs.dom());
    assert forall|i: int| 0 <= i < loader.languages.len() implies by_id.dom().contains(
        (#[trigger] loader.languages@[i]).id@,
    ) && by_id[loader.languages@[i].id@] == Language(i as u32) by {
        assert(entries[i].0@ == loader.languages@[i].id@);
    }
    assert forall|id: Seq<char>| #[trigger] registry.specs.dom().contains(id) implies by_id[id].0
        < loader.languages.len() && loader.languages@[by_id[id].0 as int].id@ == id by {
        let i = choose|i: int| 0 <= i < entries.len() && (#[trigger] entries[i]).0@ == id;
        assert(by_id[entries[i].0@] == Language(i as u32));
        assert(loader.languages@[i].id@ == entries[i].0@);
    }
}

proof fn lemma_registered_stays(
    names: Map<Seq<char>, (Language, Seq<char>)>,
    more: Seq<Seq<char>>,
    language: Language,
    owner: Seq<char>,
)
    requires
        registered_all(names, more, language, owner) is Ok,
    ensures
        ({
            let after = registered_all(names, more, language, owner)->Ok_0;
            &&& forall|name: Seq<char>| #[trigger]
                names.dom().contains(name) ==> after.dom().contains(name) && after[name]
                    == names[name]
            &&& forall|i: int|
                0 <= i < more.len() ==> after.dom().contains(#[trigger] more[i])
                    && after[more[i]].0 == language
        }),
    decreases more.len(),
{
    if more.len() > 0 {
        let front = more.drop_last();
        lemma_registered_stays(names, front, language, owner);
        let before = registered_all(names, front, language, owner)->Ok_0;
        let after = registered_all(names, more, language, owner)->Ok_0;
        assert forall|i: int| 0 <= i < more.len() implies after.dom().contains(#[trigger] more[i])
            && after[more[i]].0 == language by {
            if i < more.len() - 1 {
                assert(front[i] == more[i]);
                assert(before.dom().contains(front[i]));
            }
        }
    }
}

/// The names by which injections may call a language stand for it.
pub proof fn lemma_names_stand_for_their_language(
    registry: RegistryView,
    entries: Seq<(String, LanguageSpec)>,
    grammars: Seq<Result<Grammar, GrammarError>>,
    count: int,
    at: int,
)
    requires
        0 <= at < count <= entries.len(),
        matchers_until(registry, entries, grammars, count) is Ok,
    ensures
        ({
            let names = (matchers_until(registry, entries, grammars, count)->Ok_0).names;
            let aliases = entries[at].1.injection_names@;
            &&& names.dom().contains(entries[at].0@) && names[entries[at].0@].0 == Language(
                at as u32,
            )
            &&& forall|i: int|
                0 <= i < aliases.len() ==> names.dom().contains((#[trigger] aliases[i])@)
                    && names[aliases[i]@].0 == Language(at as u32)
        }),
    decreases count,
{
    let before = matchers_until(registry, entries, grammars, count - 1)->Ok_0;
    let last = entries[count - 1];
    let language = Language((count - 1) as u32);
    let named = registered(before.names, last.0@, language, last.0@)->Ok_0;
    let aliases = entries[at].1.injection_names@;
    let names = (matchers_until(registry, entries, grammars, count)->Ok_0).names;
    lemma_registered_stays(named, texts_of(last.1.injection_names@), language, last.0@);
    if at < count - 1 {
        lemma_names_stand_for_their_language(registry, entries, grammars, count - 1, at);
        assert(named.dom().contains(entries[at].0@));
        assert forall|i: int| 0 <= i < aliases.len() implies names.dom().contains(
            (#[trigger] aliases[i])@,
        ) && names[aliases[i]@].0 == Language(at as u32) by {
            assert(before.names.dom().contains(aliases[i]@));
            assert(named.dom().contains(aliases[i]@));
        }
    } else {
        assert(named.dom().contains(last.0@));
        assert forall|i: int| 0 <= i < aliases.len() implies names.dom().contains(
            (#[trigger] aliases[i])@,
        ) && names[aliases[i]@].0 == Language(at as u32) by {
            assert(texts_of(aliases)[i] == aliases[i]@);
        }
    }
}

/// Whether a match is no longer than the one that decides.
pub open spec fn is_outdone(span: (usize, usize), best: Option<(int, Language)>) -> bool {
    match best {
        Some((longest, _)) => span.1 - span.0 <= longest,
        None => false,
    }
}

proof fn lemma_longest_span(
    best: Option<(int, Language)>,
    spans: Seq<(usize, usize)>,
    language: Language,
)
    ensures
        forall|span: (usize, usize)| #[trigger]
            is_outdone(span, best) ==> is_outdone(span, longest_span(best, spans, language)),
        forall|k: int|
            0 <= k < spans.len() ==> is_outdone(
                #[trigger] spans[k],
                longest_span(best, spans, language),
            ),
    decreases spans.len(),
{
    if spans.len() > 0 {
        let front = spans.drop_last();
        lemma_longest_span(best, front, language);
        let before = longest_span(best, front, language);
        let after = longest_span(best, spans, language);
        assert forall|k: int| 0 <= k < spans.len() implies is_outdone(#[trigger] spans[k], after) by {
            if k < spans.len() - 1 {
                assert(is_outdone(front[k], before));
            }
        }
        assert forall|span: (usize, usize)| #[trigger] is_outdone(span, best) implies is_outdone(
            span,
            after,
        ) by {
            assert(is_outdone(span, before));
        }
    }
}

/// No match of any pattern is longer than the one that decides; where there is a match, there is
/// one that decides.
pub proof fn lemma_longest_decides(matchers: Seq<RegexMatcher>, text: Seq<char>, at: int, k: int)
    requires
        0 <= at < matchers.len(),
        0 <= k < match_spans(matchers[at].regex, text).len(),
    ensures
        is_outdone(match_spans(matchers[at].regex, text)[k], longest_of(matchers, text)),
    decreases matchers.len(),
{
    let front = matchers.drop_last();
    let spans = match_spans(matchers.last().regex, text);
    lemma_longest_span(longest_of(front, text), spans, matchers.last().language);
    if at < matchers.len() - 1 {
        lemma_longest_decides(front, text, at, k);
    } else {
        assert(is_outdone(spans[k], longest_of(matchers, text)));
    }
}

/// Whether the pattern at `at` has a match with the number `k`.
pub open spec fn has_match(matchers: Seq<RegexMatcher>, text: Seq<char>, at: int, k: int) -> bool {
    0 <= at < matchers.len() && 0 <= k < match_spans(matchers[at].regex, text).len()
}

/// The number of bytes of a match.
pub open spec fn match_len(matchers: Seq<RegexMatcher>, text: Seq<char>, at: int, k: int) -> int {
    let span = match_spans(matchers[at].regex, text)[k];
    span.1 - span.0
}

/// Whether a match is longer than all before it, and no shorter than any other.
pub open spec fn is_first_longest(
    matchers: Seq<RegexMatcher>,
    text: Seq<char>,
    at: int,
    k: int,
) -> bool {
    &&& has_match(matchers, text, at, k)
    &&& forall|a: int, j: int| #[trigger]
        has_match(matchers, text, a, j) ==> match_len(matchers, text, a, j) <= match_len(
            matchers,
            text,
            at,
            k,
        )
    &&& forall|a: int, j: int| #[trigger]
        has_match(matchers, text, a, j) && (a < at || a == at && j < k) ==> match_len(
            matchers,
            text,
            a,
            j,
        ) < match_len(matchers, text, at, k)
}

/// Which of some matches of one pattern decides: either what was found before, and then none of
/// them is longer, or the first of the longest of them.
proof fn lemma_first_longest_span(
    best: Option<(int, Language)>,
    spans: Seq<(usize, usize)>,
    language: Language,
) -> (k: int)
    ensures
        -1 <= k < spans.len(),
        k == -1 ==> longest_span(best, spans, language) == best && forall|j: int|
            0 <= j < spans.len() ==> best is Some && (#[trigger] spans[j]).1 - spans[j].0 <= (
            best->0).0,
        k >= 0 ==> {
            &&& longest_span(best, spans, language) == Some((spans[k].1 - spans[k].0, language))
            &&& best is Some ==> (best->0).0 < spans[k].1 - spans[k].0
            &&& forall|j: int|
                0 <= j < spans.len() ==> (#[trigger] spans[j]).1 - spans[j].0 <= spans[k].1
                    - spans[k].0
            &&& forall|j: int|
                0 <= j < k ==> (#[trigger] spans[j]).1 - spans[j].0 < spans[k].1 - spans[k].0
        },
    decreases spans.len(),
{
    if spans.len() == 0 {
        -1
    } else {
        let front = spans.drop_last();
        let before = lemma_first_longest_span(best, front, language);
        let last = spans.len() - 1;
        assert forall|j: int| 0 <= j < last implies #[trigger] spans[j] == front[j] by {}
        if longest_span(best, spans, language) == longest_span(best, front, language) && (best
            is Some || before >= 0) {
            before
        } else {
            last
        }
    }
}

/// A language is found if one of its patterns has the longest match, the first of these if there
/// are several. Without any match none is found.
pub proof fn lemma_which_match_decides(matchers: Seq<RegexMatcher>, text: Seq<char>) -> (found: (
    int,
    int,
))
    ensures
        longest_match(matchers, text) is Some ==> is_first_longest(
            matchers,
            text,
            found.0,
            found.1,
        ) && longest_match(matchers, text) == Some(matchers[found.0].language),
        longest_match(matchers, text) is Some ==> (longest_of(matchers, text)->0).0 == match_len(
            matchers,
            text,
            found.0,
            found.1,
        ),
        longest_match(matchers, text) is None ==> forall|a: int, j: int|
            !#[trigger] has_match(matchers, text, a, j),
    decreases matchers.len(),
{
    if matchers.len() == 0 {
        (0, 0)
    } else {
        let front = matchers.drop_last();
        let last = matchers.len() - 1;
        let (at, k) = lemma_which_match_decides(front, text);
        let spans = match_spans(matchers[last].regex, text);
        let best = longest_of(front, text);
        let j = lemma_first_longest_span(best, spans, matchers[last].language);
        assert forall|a: int, i: int| #[trigger]
            has_match(matchers, text, a, i) && a < last implies has_match(front, text, a, i)
            && match_len(front, text, a, i) == match_len(matchers, text, a, i) by {
            assert(front[a] == matchers[a]);
        }
        if j < 0 {
            if best is Some {
                assert(has_match(front, text, at, k));
                assert(front[at] == matchers[at]);
                assert(has_match(matchers, text, at, k));
            }
            (at, k)
        } else {
            assert(has_match(matchers, text, last, j));
            if best is None {
                assert forall|a: int, i: int| #[trigger] has_match(matchers, text, a, i) implies a
                    == last by {
                    if a < last {
                        assert(has_match(front, text, a, i));
                    }
                }
            }
            (last, j)
        }
    }
}

/// A name can be given to a language unless it stands for another one. Then it stands for the
/// language, and all other names stand for what they did. A name that is given again keeps its
/// first owner.
pub proof fn lemma_registered_name(
    names: Map<Seq<char>, (Language, Seq<char>)>,
    name: Seq<char>,
    language: Language,
    owner: Seq<char>,
    other: Seq<char>,
)
    ensures
        ({
            let res = registered(names, name, language, owner);
            &&& res is Err <==> names.dom().contains(name) && names[name].0 != language
            &&& (res matches Err(error) ==> error == (LoaderErrorView::DuplicateInjectionName {
                name,
                first: names[name].1,
                second: owner,
            }))
            &&& (res matches Ok(after) ==> {
                &&& after.dom().contains(name) && after[name].0 == language
                &&& names.dom().contains(name) ==> after[name] == names[name]
                &&& !names.dom().contains(name) ==> after[name].1 == owner
                &&& other != name ==> after.dom().contains(other) == names.dom().contains(other)
                    && after[other] == names[other]
            })
        }),
{
}

/// Names can be given to a language unless one of them stands for another one. Then all of them
/// stand for it, and no other name is touched. What is refused is a name of the list, which stood
/// for another language.
pub proof fn lemma_registered_names(
    names: Map<Seq<char>, (Language, Seq<char>)>,
    more: Seq<Seq<char>>,
    language: Language,
    owner: Seq<char>,
)
    ensures
        ({
            let res = registered_all(names, more, language, owner);
            &&& res is Ok <==> forall|i: int|
                0 <= i < more.len() && names.dom().contains(#[trigger] more[i])
                    ==> names[more[i]].0 == language
            &&& (res matches Ok(after) ==> forall|name: Seq<char>|
                #![trigger after.dom().contains(name)]
                {
                    &&& after.dom().contains(name) <==> names.dom().contains(name)
                        || more.contains(name)
                    &&& names.dom().contains(name) ==> after[name] == names[name]
                    &&& !names.dom().contains(name) && more.contains(name) ==> after[name] == (
                        language,
                        owner,
                    )
                })
            &&& (res matches Err(error) ==> error is DuplicateInjectionName && {
                let name = error->DuplicateInjectionName_name;
                &&& more.contains(name)
                &&& names.dom().contains(name) && names[name].0 != language
                &&& error->first == names[name].1
                &&& error->second == owner
            })
        }),
    decreases more.len(),
{
    let res = registered_all(names, more, language, owner);
    if more.len() > 0 {
        let front = more.drop_last();
        lemma_registered_names(names, front, language, owner);
        let before = registered_all(names, front, language, owner);
        assert forall|name: Seq<char>| #[trigger] more.contains(name) <==> front.contains(name)
            || name == more.last() by {
            if front.contains(name) {
                let i = front.index_of(name);
                assert(more[i] == name);
            }
            if more.contains(name) {
                let i = more.index_of(name);
                if i < front.len() {
                    assert(front[i] == name);
                }
            }
            assert(more[more.len() - 1] == more.last());
        }
        if before is Err {
            let name = before->Err_0->DuplicateInjectionName_name;
            let i = front.index_of(name);
            assert(more[i] == name);
        } else {
            let last = more[more.len() - 1];
            assert(before->Ok_0.dom().contains(last) || !before->Ok_0.dom().contains(last));
            assert forall|i: int| 0 <= i < front.len() implies front[i] == #[trigger] more[i] by {}
            if front.contains(last) {
                let i = front.index_of(last);
                assert(more[i] == last);
            }
        }
    }
}

/// The patterns of a language go behind those that are there, in their order, and stand for the
/// language. They are refused if and only if one of them cannot be compiled, and the first of
/// these is named.
pub proof fn lemma_compiled_patterns(
    matchers: Seq<RegexMatcher>,
    language: Language,
    id: Seq<char>,
    matcher_kind: Seq<char>,
    patterns: Seq<Seq<char>>,
)
    ensures
        ({
            let res = compiled_all(matchers, language, id, matcher_kind, patterns);
            &&& res is Ok <==> forall|i: int|
                0 <= i < patterns.len() ==> regex_of(#[trigger] patterns[i]) is Ok
            &&& (res matches Ok(after) ==> {
                &&& after.len() == matchers.len() + patterns.len()
                &&& forall|i: int| 0 <= i < matchers.len() ==> #[trigger] after[i] == matchers[i]
                &&& forall|i: int|
                    0 <= i < patterns.len() ==> {
                        let added = #[trigger] after[matchers.len() + i];
                        &&& added.language == language
                        &&& regex_of(patterns[i]) == Ok::<regex::Regex, regex::Error>(added.regex)
                    }
            })
            &&& (res matches Err(error) ==> exists|i: int|
                {
                    &&& 0 <= i < patterns.len()
                    &&& regex_of(#[trigger] patterns[i]) matches Err(source) && error == (
                    LoaderErrorView::InvalidRegex {
                        language: id,
                        matcher_kind,
                        pattern: patterns[i],
                        source,
                    })
                    &&& forall|j: int| 0 <= j < i ==> regex_of(#[trigger] patterns[j]) is Ok
                })
        }),
    decreases patterns.len(),
{
    if patterns.len() > 0 {
        let front = patterns.drop_last();
        let last = patterns.len() - 1;
        lemma_compiled_patterns(matchers, language, id, matcher_kind, front);
        let before = compiled_all(matchers, language, id, matcher_kind, front);
        let res = compiled_all(matchers, language, id, matcher_kind, patterns);
        assert forall|i: int| 0 <= i < last implies #[trigger] patterns[i] == front[i] by {}
        assert(patterns[last] == patterns.last());
        if before is Err {
            let i = choose|i: int|
                {
                    &&& 0 <= i < front.len()
                    &&& regex_of(#[trigger] front[i]) matches Err(source) && before->Err_0 == (
                    LoaderErrorView::InvalidRegex {
                        language: id,
                        matcher_kind,
                        pattern: front[i],
                        source,
                    })
                    &&& forall|j: int| 0 <= j < i ==> regex_of(#[trigger] front[j]) is Ok
                };
            assert(patterns[i] == front[i]);
        } else {
            assert forall|i: int| 0 <= i < last implies regex_of(#[trigger] patterns[i]) is Ok by {
                assert(regex_of(front[i]) is Ok);
            }
            if res is Ok {
                assert forall|i: int| 0 <= i < patterns.len() implies {
                    let added = #[trigger] (res->Ok_0)[matchers.len() + i];
                    &&& added.language == language
                    &&& regex_of(patterns[i]) == Ok::<regex::Regex, regex::Error>(added.regex)
                } by {
                    if i < last {
                        assert((res->Ok_0)[matchers.len() + i] == (before->Ok_0)[matchers.len()
                            + i]);
                    }
                }
            }
        }
    }
}

/// A language is added with its own name and its further names, and with its patterns, each kind
/// to its own list.
pub proof fn lemma_added_language(
    matchers: Matchers,
    language: Language,
    id: Seq<char>,
    spec: LanguageSpec,
)
    requires
        matchers_with(matchers, language, id, spec) is Ok,
    ensures
        ({
            let after = matchers_with(matchers, language, id, spec)->Ok_0;
            let aliases = texts_of(spec.injection_names@);
            &&& forall|name: Seq<char>|
                #![trigger after.names.dom().contains(name)]
                after.names.dom().contains(name) <==> matchers.names.dom().contains(name) || name
                    == id || aliases.contains(name)
            &&& forall|name: Seq<char>|
                #![trigger after.names[name]]
                matchers.names.dom().contains(name) ==> after.names[name] == matchers.names[name]
            &&& forall|name: Seq<char>|
                #![trigger after.names[name]]
                name == id || aliases.contains(name) ==> after.names[name].0 == language
            &&& compiled_all(
                matchers.content,
                language,
                id,
                "content"@,
                texts_of(spec.content_regexes@),
            ) == Ok::<Seq<RegexMatcher>, LoaderErrorView>(after.content)
            &&& compiled_all(
                matchers.filename,
                language,
                id,
                "filename"@,
                texts_of(spec.filename_regexes@),
            ) == Ok::<Seq<RegexMatcher>, LoaderErrorView>(after.filename)
            &&& compiled_all(
                matchers.shebang,
                language,
                id,
                "shebang"@,
                texts_of(spec.shebang_regexes@),
            ) == Ok::<Seq<RegexMatcher>, LoaderErrorView>(after.shebang)
        }),
{
    let after = matchers_with(matchers, language, id, spec)->Ok_0;
    let aliases = texts_of(spec.injection_names@);
    let named = registered(matchers.names, id, language, id)->Ok_0;
    lemma_registered_names(named, aliases, language, id);
    lemma_registered_stays(named, aliases, language, id);
    assert forall|name: Seq<char>|
        #![trigger after.names[name]]
        name == id || aliases.contains(name) implies after.names[name].0 == language by {
        if aliases.contains(name) {
            assert(aliases[aliases.index_of(name)] == name);
        }
        assert(after.names.dom().contains(name));
    }
    assert forall|name: Seq<char>|
        #![trigger after.names[name]]
        matchers.names.dom().contains(name) implies after.names[name] == matchers.names[name] by {
        assert(named.dom().contains(name));
        assert(after.names.dom().contains(name));
    }
    assert forall|name: Seq<char>|
        #![trigger after.names.dom().contains(name)]
        after.names.dom().contains(name) <==> matchers.names.dom().contains(name) || name == id
            || aliases.contains(name) by {}
}

/// A language is loaded from its grammar and the three query files `highlights.scm`,
/// `injections.scm` and `locals.scm`. A file that is not there counts as an empty one; one that
/// cannot be read stops the language, and is named.
pub proof fn lemma_files_of_a_language(
    registry: RegistryView,
    id: Seq<char>,
    grammar: Result<Grammar, GrammarErrorView>,
    config: LanguageConfig,
)
    ensures
        ({
            let highlights = registry.optional_query_of(id, "highlights.scm"@);
            let injections = registry.optional_query_of(id, "injections.scm"@);
            let locals = registry.optional_query_of(id, "locals.scm"@);
            let problem = config_problem(registry, id, grammar);
            &&& is_config_in(registry, id, grammar, config) <==> {
                &&& grammar is Ok && highlights is Ok && injections is Ok && locals is Ok
                &&& is_config_of(
                    config,
                    grammar->Ok_0,
                    text_or_none(highlights->Ok_0),
                    text_or_none(injections->Ok_0),
                    text_or_none(locals->Ok_0),
                )
            }
            &&& problem is None ==> grammar is Ok && highlights is Ok && injections is Ok
                && locals is Ok && config_refusal(
                grammar->Ok_0,
                text_or_none(highlights->Ok_0),
                text_or_none(injections->Ok_0),
                text_or_none(locals->Ok_0),
            ) is None
            &&& grammar is Err <==> problem is Some && problem->0 is Grammar
            &&& (problem matches Some(error) ==> match error {
                LoaderErrorView::Grammar { language, source } => language == id && grammar == Err::<
                    Grammar,
                    GrammarErrorView,
                >(source),
                LoaderErrorView::Query { language, filename, source } => {
                    &&& language == id
                    &&& registry.optional_query_of(id, filename) == Err::<
                        Option<Seq<char>>,
                        QueryReadErrorView,
                    >(source)
                    &&& seq!["highlights.scm"@, "injections.scm"@, "locals.scm"@].contains(filename)
                },
                LoaderErrorView::Parse { language, source } => language == id && highlights is Ok
                    && injections is Ok && locals is Ok && config_refusal(
                    grammar->Ok_0,
                    text_or_none(highlights->Ok_0),
                    text_or_none(injections->Ok_0),
                    text_or_none(locals->Ok_0),
                ) == Some(source),
                _ => false,
            })
        }),
{
    let files = seq!["highlights.scm"@, "injections.scm"@, "locals.scm"@];
    assert(files[0] == "highlights.scm"@);
    assert(files[1] == "injections.scm"@);
    assert(files[2] == "locals.scm"@);
}

/// A text that may be missing, as an empty one if it is.
pub open spec fn text_or_none(text: Option<Seq<char>>) -> Seq<char> {
    if text is Some {
        text->0
    } else {
        Seq::empty()
    }
}

} // verus!
