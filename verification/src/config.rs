//! Languages: their grammars and queries, and how the engine finds them.
use crate::highlight_query::{are_highlights_of, HighlightQuery};
use crate::injections_query::{is_configured, InjectionLanguageMarker, InjectionsQuery, MarkerView};
use crate::query_rules::{query_outcome, QueryError, QueryErrorView, QueryRules};
use crate::treesitter::captures_of;
use crate::types::{Highlight, Language};
use tree_house_bindings::Grammar;
use vstd::prelude::*;

verus! {

/// The grammar and the queries of one language.
#[derive(Debug)]
pub struct LanguageConfig {
    pub grammar: Grammar,
    pub highlight_query: HighlightQuery,
    pub injection_query: InjectionsQuery,
}

/// Why the query texts of a language are refused. The injection query is read first, then the
/// locals query on its own, so that its own errors are the ones to be told.
pub open spec fn config_refusal(
    grammar: Grammar,
    highlights: Seq<char>,
    injections: Seq<char>,
    locals: Seq<char>,
) -> Option<QueryErrorView> {
    match query_outcome(QueryRules::Injections, grammar, injections) {
        Err(refusal) => Some(refusal),
        Ok(_) => match query_outcome(QueryRules::Locals, grammar, locals) {
            Err(refusal) => Some(refusal),
            Ok(_) => match query_outcome(QueryRules::Highlights, grammar, highlights + locals) {
                Err(refusal) => Some(refusal),
                Ok(_) => None,
            },
        },
    }
}

/// Whether a configuration is what query texts say under a grammar.
pub open spec fn is_config_of(
    config: LanguageConfig,
    grammar: Grammar,
    highlights: Seq<char>,
    injections: Seq<char>,
    locals: Seq<char>,
) -> bool {
    &&& config.grammar == grammar
    &&& query_outcome(QueryRules::Injections, grammar, injections) matches Ok(injections)
    &&& query_outcome(QueryRules::Highlights, grammar, highlights + locals) matches Ok(highlights)
    &&& query_outcome(QueryRules::Locals, grammar, locals) matches Ok(locals)
    &&& crate::injections_query::stands_for(config.injection_query, injections, locals)
    &&& crate::highlight_query::stands_for(config.highlight_query, highlights)
}

/// Whether a configuration came of another by asking `f` for highlights: of each capture of the
/// highlight query, and of each kind of local definition.
pub open spec fn is_configured_by<F>(before: LanguageConfig, after: LanguageConfig, f: &F) -> bool where
    F: Fn(&str) -> Option<Highlight>,
 {
    let local_query = before.injection_query.local_query;
    &&& after.grammar == before.grammar
    &&& after.highlight_query == (HighlightQuery {
        highlight_indices: after.highlight_query.highlight_indices,
        ..before.highlight_query
    })
    &&& are_highlights_of(
        f,
        captures_of(before.highlight_query.query),
        after.highlight_query.highlight_indices@,
    )
    &&& after.injection_query == (InjectionsQuery {
        local_definition_captures: after.injection_query.local_definition_captures,
        ..before.injection_query
    })
    &&& after.injection_query.local_definition_captures.len() == captures_of(local_query).len()
    &&& forall|i: int|
        0 <= i < captures_of(local_query).len() ==> is_configured(
            f,
            captures_of(local_query)[i],
            "local.definition."@,
            #[trigger] after.injection_query.local_definition_captures@[i],
        )
}

impl LanguageConfig {
    /// Reads the queries of a language.
    pub fn new(
        grammar: Grammar,
        highlight_query_text: &str,
        injection_query_text: &str,
        local_query_text: &str,
    ) -> (res: Result<Self, QueryError>)
        ensures
            match res {
                Ok(config) => {
                    &&& config_refusal(
                        grammar,
                        highlight_query_text@,
                        injection_query_text@,
                        local_query_text@,
                    ) is None
                    &&& is_config_of(
                        config,
                        grammar,
                        highlight_query_text@,
                        injection_query_text@,
                        local_query_text@,
                    )
                },
                Err(error) => config_refusal(
                    grammar,
                    highlight_query_text@,
                    injection_query_text@,
                    local_query_text@,
                ) == Some(error@),
            },
    {
        let injection_query = match InjectionsQuery::new(
            grammar,
            injection_query_text,
            local_query_text,
        ) {
            Ok(query) => query,
            Err(error) => return Err(error),
        };
        let highlight_query = match HighlightQuery::new(
            grammar,
            highlight_query_text,
            local_query_text,
        ) {
            Ok(query) => query,
            Err(error) => return Err(error),
        };
        Ok(LanguageConfig { grammar, highlight_query, injection_query })
    }

    /// Asks `f` for the highlight of each capture and of each kind of local definition.
    pub fn configure<F>(&mut self, f: &F) where F: Fn(&str) -> Option<Highlight>
        requires
            forall|name: &str| #[trigger] call_requires(f, (name,)),
        ensures
            is_configured_by(*old(self), *final(self), f),
    {
        self.highlight_query.configure(f);
        self.injection_query.configure(f);
    }
}

/// Finds the configuration of languages, and the languages that markers name.
pub trait LanguageLoader {
    /// The language that a marker names.
    spec fn marker_language(&self, marker: MarkerView) -> Option<Language>;

    /// The configuration of a language.
    spec fn config_of(&self, language: Language) -> Option<LanguageConfig>;

    /// Finds the language that a marker names.
    fn language_for_marker(&self, marker: InjectionLanguageMarker<'_>) -> (language: Option<Language>)
        ensures
            language == self.marker_language(marker@),
    ;

    /// Finds the configuration of a language.
    fn get_config(&self, lang: Language) -> (config: Option<&LanguageConfig>)
        ensures
            match config {
                Some(config) => self.config_of(lang) == Some(*config),
                None => self.config_of(lang) is None,
            },
    ;
}

impl<T: LanguageLoader> LanguageLoader for &T {
    open spec fn marker_language(&self, marker: MarkerView) -> Option<Language> {
        (**self).marker_language(marker)
    }

    open spec fn config_of(&self, language: Language) -> Option<LanguageConfig> {
        (**self).config_of(language)
    }

    fn language_for_marker(&self, marker: InjectionLanguageMarker<'_>) -> (language: Option<
        Language,
    >) {
        (**self).language_for_marker(marker)
    }

    fn get_config(&self, lang: Language) -> (config: Option<&LanguageConfig>) {
        (**self).get_config(lang)
    }
}

/// A loader that knows one language, which all markers name.
#[derive(Debug)]
pub struct SingleLanguageLoader {
    pub language: Language,
    pub config: LanguageConfig,
}

impl SingleLanguageLoader {
    /// A loader for one language.
    pub fn new(language: Language, config: LanguageConfig) -> (loader: Self)
        ensures
            loader.language == language,
            loader.config == config,
    {
        SingleLanguageLoader { language, config }
    }

    /// A loader for the language of a grammar and of query texts.
    pub fn from_queries(
        language: Language,
        grammar: Grammar,
        highlight_query_text: &str,
        injection_query_text: &str,
        local_query_text: &str,
    ) -> (res: Result<Self, QueryError>)
        ensures
            match res {
                Ok(loader) => {
                    &&& loader.language == language
                    &&& config_refusal(
                        grammar,
                        highlight_query_text@,
                        injection_query_text@,
                        local_query_text@,
                    ) is None
                    &&& is_config_of(
                        loader.config,
                        grammar,
                        highlight_query_text@,
                        injection_query_text@,
                        local_query_text@,
                    )
                },
                Err(error) => config_refusal(
                    grammar,
                    highlight_query_text@,
                    injection_query_text@,
                    local_query_text@,
                ) == Some(error@),
            },
    {
        match LanguageConfig::new(
            grammar,
            highlight_query_text,
            injection_query_text,
            local_query_text,
        ) {
            Ok(config) => Ok(SingleLanguageLoader::new(language, config)),
            Err(error) => Err(error),
        }
    }

    /// A loader for the language of a grammar and of query texts, with highlights.
    pub fn with_highlights<F>(
        language: Language,
        grammar: Grammar,
        highlight_query_text: &str,
        injection_query_text: &str,
        local_query_text: &str,
        configure: F,
    ) -> (res: Result<Self, QueryError>) where F: Fn(&str) -> Option<Highlight>
        requires
            forall|name: &str| #[trigger] call_requires(configure, (name,)),
        ensures
            match res {
                Ok(loader) => {
                    &&& loader.language == language
                    &&& config_refusal(
                        grammar,
                        highlight_query_text@,
                        injection_query_text@,
                        local_query_text@,
                    ) is None
                    &&& exists|plain: LanguageConfig| #[trigger]
                        is_config_of(
                            plain,
                            grammar,
                            highlight_query_text@,
                            injection_query_text@,
                            local_query_text@,
                        ) && is_configured_by(plain, loader.config, &configure)
                },
                Err(error) => config_refusal(
                    grammar,
                    highlight_query_text@,
                    injection_query_text@,
                    local_query_text@,
                ) == Some(error@),
            },
    {
        let mut loader = match SingleLanguageLoader::from_queries(
            language,
            grammar,
            highlight_query_text,
            injection_query_text,
            local_query_text,
        ) {
            Ok(loader) => loader,
            Err(error) => return Err(error),
        };
        let ghost plain = loader.config;
        loader.configure(&configure);
        assert(is_config_of(
            plain,
            grammar,
            highlight_query_text@,
            injection_query_text@,
            local_query_text@,
        ));
        Ok(loader)
    }

    /// The language.
    pub fn language(&self) -> (language: Language)
        ensures
            language == self.language,
    {
        self.language
    }

    /// The grammar of the language.
    pub fn grammar(&self) -> (grammar: Grammar)
        ensures
            grammar == self.config.grammar,
    {
        self.config.grammar
    }

    /// The configuration of the language.
    pub fn config(&self) -> (config: &LanguageConfig)
        ensures
            *config == self.config,
    {
        &self.config
    }

    /// Asks `f` for highlights.
    pub fn configure<F>(&mut self, f: &F) where F: Fn(&str) -> Option<Highlight>
        requires
            forall|name: &str| #[trigger] call_requires(f, (name,)),
        ensures
            final(self).language == old(self).language,
            is_configured_by(old(self).config, final(self).config, f),
    {
        self.config.configure(f);
    }
}

impl LanguageLoader for SingleLanguageLoader {
    open spec fn marker_language(&self, marker: MarkerView) -> Option<Language> {
        Some(self.language)
    }

    open spec fn config_of(&self, language: Language) -> Option<LanguageConfig> {
        if language == self.language {
            Some(self.config)
        } else {
            None
        }
    }

    fn language_for_marker(&self, marker: InjectionLanguageMarker<'_>) -> (language: Option<
        Language,
    >) {
        Some(self.language)
    }

    fn get_config(&self, lang: Language) -> (config: Option<&LanguageConfig>) {
        if lang == self.language {
            Some(&self.config)
        } else {
            None
        }
    }
}

/// Whether the query texts of a language are refused, and which of them: the injection query for
/// its own sake, the local query for its own sake, and the highlight query with the local query
/// behind it.
pub proof fn lemma_why_a_config_is_refused(
    grammar: Grammar,
    highlights: Seq<char>,
    injections: Seq<char>,
    locals: Seq<char>,
)
    ensures
        ({
            let injected = query_outcome(QueryRules::Injections, grammar, injections);
            let local = query_outcome(QueryRules::Locals, grammar, locals);
            let shown = query_outcome(QueryRules::Highlights, grammar, highlights + locals);
            let refusal = config_refusal(grammar, highlights, injections, locals);
            &&& refusal is None <==> injected is Ok && local is Ok && shown is Ok
            &&& injected is Err ==> refusal == Some(injected->Err_0)
            &&& injected is Ok && local is Err ==> refusal == Some(local->Err_0)
            &&& injected is Ok && local is Ok && shown is Err ==> refusal == Some(shown->Err_0)
            &&& refusal is Some ==> forall|config: LanguageConfig|
                !#[trigger] is_config_of(config, grammar, highlights, injections, locals)
        }),
{
}

} // verus!
