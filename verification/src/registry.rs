//! What is known of languages: where their grammars and queries are, and how injections name them.
use crate::bundle::{
    is_loaded, load_query_bundle, load_raw_query_bundle, raw_under, QueryBundle, QueryBundleError,
    QueryBundleErrorView,
};
use crate::grammar_build::Platform;
use crate::grammar_files::{
    library_path, locate_grammar_library, GrammarDir, GrammarError, GrammarErrorView,
};
use crate::language_id::LanguageId;
use crate::query_files::{
    optional_query, read_optional_query_from_paths, read_query_from_paths, required_query,
    QueryReadError, QueryReadErrorView, QueryRoot,
};
use crate::text_map::{lists, TextMap};
use vstd::prelude::*;

verus! {

/// A language cannot be added a second time.
#[derive(Debug, PartialEq, Eq)]
pub struct DuplicateLanguageIdError {
    pub id: LanguageId,
}

/// What is known of a language.
#[derive(Debug, PartialEq, Eq)]
pub struct LanguageSpec {
    pub id: LanguageId,
    pub grammar_name: String,
    /// Where the grammar is looked for; in the usual places if there are none.
    pub grammar_paths: Vec<GrammarDir>,
    /// Where the queries are looked for; in the usual places if there are none.
    pub query_roots: Vec<QueryRoot>,
    /// The names by which injections may call the language, besides its own.
    pub injection_names: Vec<String>,
    /// Patterns that are found in the text of such an injection.
    pub content_regexes: Vec<String>,
    /// Patterns that are found in the file name of such an injection.
    pub filename_regexes: Vec<String>,
    /// Patterns that are found in the interpreter line of such an injection.
    pub shebang_regexes: Vec<String>,
}

impl LanguageSpec {
    /// A language of which nothing but its grammar is known.
    pub fn new(id: &str, grammar_name: &str) -> (spec: Self)
        ensures
            spec.id@ == id@,
            spec.grammar_name@ == grammar_name@,
            spec.grammar_paths.len() == 0,
            spec.query_roots.len() == 0,
            spec.injection_names.len() == 0,
            spec.content_regexes.len() == 0,
            spec.filename_regexes.len() == 0,
            spec.shebang_regexes.len() == 0,
    {
        LanguageSpec {
            id: LanguageId::new(id),
            grammar_name: grammar_name.to_owned(),
            grammar_paths: Vec::new(),
            query_roots: Vec::new(),
            injection_names: Vec::new(),
            content_regexes: Vec::new(),
            filename_regexes: Vec::new(),
            shebang_regexes: Vec::new(),
        }
    }
}

/// Where grammars are looked for.
#[derive(Debug, PartialEq, Eq)]
pub struct GrammarLocator {
    search_paths: Vec<GrammarDir>,
}

impl View for GrammarLocator {
    type V = Seq<GrammarDir>;

    closed spec fn view(&self) -> Seq<GrammarDir> {
        self.search_paths@
    }
}

impl Default for GrammarLocator {
    fn default() -> (locator: Self)
        ensures
            locator@ == Seq::<GrammarDir>::empty(),
    {
        GrammarLocator { search_paths: Vec::new() }
    }
}

impl GrammarLocator {
    /// A locator that looks in some directories.
    pub fn new(search_paths: Vec<GrammarDir>) -> (locator: Self)
        ensures
            locator@ == search_paths@,
    {
        GrammarLocator { search_paths }
    }

    /// The directories in which grammars are looked for.
    pub fn search_paths(&self) -> (paths: &[GrammarDir])
        ensures
            paths@ == self@,
    {
        self.search_paths.as_slice()
    }

    /// Finds the library that holds a grammar on some platform.
    pub fn locate(&self, grammar_name: &str, platform: Platform) -> (path: Option<String>)
        ensures
            match path {
                Some(path) => library_path(self@, grammar_name@, platform) == Some(path@),
                None => library_path(self@, grammar_name@, platform) is None,
            },
    {
        locate_grammar_library(grammar_name, platform, self.search_paths.as_slice())
    }
}

/// Where queries are looked for.
#[derive(Debug, PartialEq, Eq)]
pub struct QueryLocator {
    roots: Vec<QueryRoot>,
}

impl View for QueryLocator {
    type V = Seq<QueryRoot>;

    closed spec fn view(&self) -> Seq<QueryRoot> {
        self.roots@
    }
}

impl Default for QueryLocator {
    fn default() -> (locator: Self)
        ensures
            locator@ == Seq::<QueryRoot>::empty(),
    {
        QueryLocator { roots: Vec::new() }
    }
}

/// Whether a result is the text that is asked for, or the error.
pub open spec fn reads(
    res: Result<String, QueryReadError>,
    expected: Result<Seq<char>, QueryReadErrorView>,
) -> bool {
    match res {
        Ok(text) => expected == Ok::<Seq<char>, QueryReadErrorView>(text@),
        Err(error) => expected == Err::<Seq<char>, QueryReadErrorView>(error@),
    }
}

/// Whether a result is the text that is asked for, if there is one, or the error.
pub open spec fn reads_optional(
    res: Result<Option<String>, QueryReadError>,
    expected: Result<Option<Seq<char>>, QueryReadErrorView>,
) -> bool {
    match res {
        Ok(Some(text)) => expected == Ok::<Option<Seq<char>>, QueryReadErrorView>(Some(text@)),
        Ok(None) => expected == Ok::<Option<Seq<char>>, QueryReadErrorView>(None),
        Err(error) => expected == Err::<Option<Seq<char>>, QueryReadErrorView>(error@),
    }
}

/// Whether this is what comes of loading the queries of a language as they stand in the files.
pub open spec fn is_loaded_raw(
    roots: Seq<QueryRoot>,
    language: Seq<char>,
    res: Result<QueryBundle, QueryBundleError>,
) -> bool {
    match res {
        Ok(bundle) => bundle@.language == language && raw_under(roots, language) == Ok::<
            Map<Seq<char>, Seq<char>>,
            QueryBundleErrorView,
        >(bundle@.queries),
        Err(error) => raw_under(roots, language) == Err::<
            Map<Seq<char>, Seq<char>>,
            QueryBundleErrorView,
        >(error@),
    }
}

impl QueryLocator {
    /// A locator that looks under some roots.
    pub fn new(roots: Vec<QueryRoot>) -> (locator: Self)
        ensures
            locator@ == roots@,
    {
        QueryLocator { roots }
    }

    /// The roots under which queries are looked for.
    pub fn roots(&self) -> (roots: &[QueryRoot])
        ensures
            roots@ == self@,
    {
        self.roots.as_slice()
    }

    /// Reads a query file with all that it inherits.
    pub fn read_query(&self, language: &LanguageId, filename: &str) -> (res: Result<
        String,
        QueryReadError,
    >)
        ensures
            reads(res, required_query(self@, language@, filename@)),
    {
        read_query_from_paths(language.as_str(), filename, self.roots.as_slice())
    }

    /// Reads a query file with all that it inherits, if it is there.
    pub fn read_optional_query(&self, language: &LanguageId, filename: &str) -> (res: Result<
        Option<String>,
        QueryReadError,
    >)
        ensures
            reads_optional(res, optional_query(self@, language@, filename@)),
    {
        read_optional_query_from_paths(language.as_str(), filename, self.roots.as_slice())
    }

    /// Loads the queries of a language with all that they inherit.
    pub fn bundle(&self, language: &LanguageId) -> (res: Result<QueryBundle, QueryBundleError>)
        ensures
            is_loaded(self@, language@, res),
    {
        load_query_bundle(language.as_str(), self.roots.as_slice())
    }

    /// Loads the queries of a language as they stand in the files.
    pub fn raw_bundle(&self, language: &LanguageId) -> (res: Result<QueryBundle, QueryBundleError>)
        ensures
            is_loaded_raw(self@, language@, res),
    {
        load_raw_query_bundle(language.as_str(), self.roots.as_slice())
    }
}

/// All languages that are known.
#[derive(Debug)]
pub struct LanguageRegistry {
    specs: TextMap<LanguageSpec>,
    default_grammar_locator: GrammarLocator,
    default_query_locator: QueryLocator,
}

/// What a registry holds.
#[verifier::ext_equal]
pub struct RegistryView {
    pub specs: Map<Seq<char>, LanguageSpec>,
    pub grammar_dirs: Seq<GrammarDir>,
    pub query_roots: Seq<QueryRoot>,
}

impl RegistryView {
    /// Whether each language is registered under its own name.
    pub open spec fn names_agree(self) -> bool {
        forall|id: Seq<char>| #[trigger]
            self.specs.dom().contains(id) ==> self.specs[id].id@ == id
    }

    /// Where the grammar of a language is looked for.
    pub open spec fn dirs_for(self, spec: LanguageSpec) -> Seq<GrammarDir> {
        if spec.grammar_paths.len() == 0 {
            self.grammar_dirs
        } else {
            spec.grammar_paths@
        }
    }

    /// Where the queries of a language are looked for.
    pub open spec fn roots_for(self, spec: LanguageSpec) -> Seq<QueryRoot> {
        if spec.query_roots.len() == 0 {
            self.query_roots
        } else {
            spec.query_roots@
        }
    }

    /// What the query file of a language says, with all that it inherits.
    pub open spec fn query_of(self, id: Seq<char>, filename: Seq<char>) -> Result<
        Seq<char>,
        QueryReadErrorView,
    > {
        if self.specs.dom().contains(id) {
            required_query(self.roots_for(self.specs[id]), id, filename)
        } else {
            Err(QueryReadErrorView::RootNotFound { language: id, filename })
        }
    }

    /// What the query file of a language says, with all that it inherits, if it is there.
    pub open spec fn optional_query_of(self, id: Seq<char>, filename: Seq<char>) -> Result<
        Option<Seq<char>>,
        QueryReadErrorView,
    > {
        if self.specs.dom().contains(id) {
            optional_query(self.roots_for(self.specs[id]), id, filename)
        } else {
            Err(QueryReadErrorView::RootNotFound { language: id, filename })
        }
    }

    /// The path of the library that holds the grammar of a language.
    pub open spec fn grammar_path_of(self, id: Seq<char>, platform: Platform) -> Result<
        Seq<char>,
        GrammarErrorView,
    > {
        if self.specs.dom().contains(id) {
            let spec = self.specs[id];
            match library_path(self.dirs_for(spec), spec.grammar_name@, platform) {
                Some(path) => Ok(path),
                None => Err(GrammarErrorView::NotFound(spec.grammar_name@)),
            }
        } else {
            Err(GrammarErrorView::NotFound(id))
        }
    }
}

impl View for LanguageRegistry {
    type V = RegistryView;

    closed spec fn view(&self) -> RegistryView {
        RegistryView {
            specs: self.specs@,
            grammar_dirs: self.default_grammar_locator@,
            query_roots: self.default_query_locator@,
        }
    }
}

impl Default for LanguageRegistry {
    fn default() -> (registry: Self)
        ensures
            registry@ == (RegistryView {
                specs: Map::empty(),
                grammar_dirs: Seq::empty(),
                query_roots: Seq::empty(),
            }),
            registry@.names_agree(),
    {
        LanguageRegistry::new(GrammarLocator::default(), QueryLocator::default())
    }
}

impl LanguageRegistry {
    /// A registry without languages.
    pub fn new(default_grammar_locator: GrammarLocator, default_query_locator: QueryLocator) -> (registry:
        Self)
        ensures
            registry@ == (RegistryView {
                specs: Map::empty(),
                grammar_dirs: default_grammar_locator@,
                query_roots: default_query_locator@,
            }),
            registry@.names_agree(),
    {
        LanguageRegistry { specs: TextMap::new(), default_grammar_locator, default_query_locator }
    }

    /// Adds a language, unless there is one of that name.
    pub fn insert(&mut self, spec: LanguageSpec) -> (res: Result<(), DuplicateLanguageIdError>)
        ensures
            match res {
                Ok(()) => {
                    &&& !old(self)@.specs.dom().contains(spec.id@)
                    &&& final(self)@ == (RegistryView {
                        specs: old(self)@.specs.insert(spec.id@, spec),
                        ..old(self)@
                    })
                },
                Err(error) => {
                    &&& old(self)@.specs.dom().contains(spec.id@)
                    &&& error.id@ == spec.id@
                    &&& final(self)@ == old(self)@
                },
            },
            old(self)@.names_agree() ==> final(self)@.names_agree(),
    {
        if self.specs.contains_key(spec.id.as_str()) {
            return Err(DuplicateLanguageIdError { id: spec.id });
        }
        let replaced = self.specs.insert(spec.id.as_str().to_owned(), spec);
        Ok(())
    }

    /// Adds a language, in place of one of that name, which is returned.
    pub fn replace(&mut self, spec: LanguageSpec) -> (replaced: Option<LanguageSpec>)
        ensures
            final(self)@ == (RegistryView {
                specs: old(self)@.specs.insert(spec.id@, spec),
                ..old(self)@
            }),
            match replaced {
                Some(replaced) => old(self)@.specs.dom().contains(spec.id@) && old(
                    self,
                )@.specs[spec.id@] == replaced,
                None => !old(self)@.specs.dom().contains(spec.id@),
            },
            old(self)@.names_agree() ==> final(self)@.names_agree(),
    {
        let ghost before = self@;
        let ghost given = spec;
        let replaced = self.specs.insert(spec.id.as_str().to_owned(), spec);
        proof {
            if before.names_agree() {
                lemma_names_agree(before, given);
                assert(self@.specs == before.specs.insert(given.id@, given));
            }
        }
        replaced
    }

    /// Finds a language.
    pub fn language(&self, id: &LanguageId) -> (spec: Option<&LanguageSpec>)
        ensures
            match spec {
                Some(spec) => self@.specs.dom().contains(id@) && self@.specs[id@] == *spec,
                None => !self@.specs.dom().contains(id@),
            },
    {
        self.specs.get(id.as_str())
    }

    /// The languages in the order of their names.
    pub fn iter(&self) -> (entries: &Vec<(String, LanguageSpec)>)
        ensures
            lists(entries@, self@.specs),
    {
        self.specs.entries()
    }

    /// Finds the library that holds the grammar of a language on some platform.
    pub fn locate_grammar(&self, id: &LanguageId, platform: Platform) -> (res: Result<
        String,
        GrammarError,
    >)
        ensures
            match res {
                Ok(path) => self@.grammar_path_of(id@, platform) == Ok::<
                    Seq<char>,
                    GrammarErrorView,
                >(path@),
                Err(error) => self@.grammar_path_of(id@, platform) == Err::<
                    Seq<char>,
                    GrammarErrorView,
                >(error@),
            },
    {
        let spec = match self.language(id) {
            Some(spec) => spec,
            None => return Err(GrammarError::NotFound(id.as_str().to_owned())),
        };
        let path = if spec.grammar_paths.len() == 0 {
            self.default_grammar_locator.locate(&spec.grammar_name, platform)
        } else {
            locate_grammar_library(&spec.grammar_name, platform, spec.grammar_paths.as_slice())
        };
        match path {
            Some(path) => Ok(path),
            None => Err(GrammarError::NotFound(spec.grammar_name.clone())),
        }
    }

    /// Loads the queries of a language with all that they inherit.
    pub fn query_bundle(&self, id: &LanguageId) -> (res: Result<QueryBundle, QueryBundleError>)
        ensures
            if self@.specs.dom().contains(id@) {
                is_loaded(self@.roots_for(self@.specs[id@]), id@, res)
            } else {
                res matches Err(error) && error@ == (QueryBundleErrorView::LanguageNotFound {
                    language: id@,
                })
            },
    {
        let spec = match self.language(id) {
            Some(spec) => spec,
            None => return Err(QueryBundleError::LanguageNotFound { language: id.clone() }),
        };
        if spec.query_roots.len() == 0 {
            self.default_query_locator.bundle(id)
        } else {
            load_query_bundle(id.as_str(), spec.query_roots.as_slice())
        }
    }

    /// Loads the queries of a language as they stand in the files.
    pub fn raw_query_bundle(&self, id: &LanguageId) -> (res: Result<QueryBundle, QueryBundleError>)
        ensures
            if self@.specs.dom().contains(id@) {
                is_loaded_raw(self@.roots_for(self@.specs[id@]), id@, res)
            } else {
                res matches Err(error) && error@ == (QueryBundleErrorView::LanguageNotFound {
                    language: id@,
                })
            },
    {
        let spec = match self.language(id) {
            Some(spec) => spec,
            None => return Err(QueryBundleError::LanguageNotFound { language: id.clone() }),
        };
        if spec.query_roots.len() == 0 {
            self.default_query_locator.raw_bundle(id)
        } else {
            load_raw_query_bundle(id.as_str(), spec.query_roots.as_slice())
        }
    }

    /// Reads a query file of a language with all that it inherits.
    pub fn read_query(&self, id: &LanguageId, filename: &str) -> (res: Result<
        String,
        QueryReadError,
    >)
        ensures
            reads(res, self@.query_of(id@, filename@)),
    {
        let spec = match self.language(id) {
            Some(spec) => spec,
            None => return Err(
                QueryReadError::RootNotFound {
                    language: id.as_str().to_owned(),
                    filename: filename.to_owned(),
                },
            ),
        };
        if spec.query_roots.len() == 0 {
            self.default_query_locator.read_query(id, filename)
        } else {
            read_query_from_paths(id.as_str(), filename, spec.query_roots.as_slice())
        }
    }

    /// Reads a query file of a language with all that it inherits, if it is there.
    pub fn read_optional_query(&self, id: &LanguageId, filename: &str) -> (res: Result<
        Option<String>,
        QueryReadError,
    >)
        ensures
            reads_optional(res, self@.optional_query_of(id@, filename@)),
    {
        let spec = match self.language(id) {
            Some(spec) => spec,
            None => return Err(
                QueryReadError::RootNotFound {
                    language: id.as_str().to_owned(),
                    filename: filename.to_owned(),
                },
            ),
        };
        if spec.query_roots.len() == 0 {
            self.default_query_locator.read_optional_query(id, filename)
        } else {
            read_optional_query_from_paths(id.as_str(), filename, spec.query_roots.as_slice())
        }
    }
}

/// Each language of a registry is registered under its own name: a new registry has none, and
/// adding or replacing one keeps it so.
pub proof fn lemma_names_agree(before: RegistryView, spec: LanguageSpec)
    requires
        before.names_agree(),
    ensures
        (RegistryView { specs: before.specs.insert(spec.id@, spec), ..before }).names_agree(),
        (RegistryView { specs: Map::empty(), ..before }).names_agree(),
{
}

/// A language that was added is found under its name, and no other language is touched.
pub proof fn lemma_added_language_is_found(
    specs: Map<Seq<char>, LanguageSpec>,
    spec: LanguageSpec,
    id: Seq<char>,
)
    ensures
        specs.insert(spec.id@, spec)[spec.id@] == spec,
        id != spec.id@ ==> specs.insert(spec.id@, spec).dom().contains(id) == specs.dom().contains(
            id,
        ) && specs.insert(spec.id@, spec)[id] == specs[id],
{
}

/// The places of a language's own are the only ones that count for it; the places of the registry
/// are for the languages without any.
pub proof fn lemma_places_of_a_language(registry: RegistryView, spec: LanguageSpec)
    ensures
        spec.grammar_paths@.len() > 0 ==> registry.dirs_for(spec) == spec.grammar_paths@,
        spec.grammar_paths@.len() == 0 ==> registry.dirs_for(spec) == registry.grammar_dirs,
        spec.query_roots@.len() > 0 ==> registry.roots_for(spec) == spec.query_roots@,
        spec.query_roots@.len() == 0 ==> registry.roots_for(spec) == registry.query_roots,
{
}

/// The queries and the grammar of a language are those that its places hold: the queries by the
/// name of the language, the grammar by its own name. A language that is not there has none, and
/// is named.
pub proof fn lemma_files_of_a_language(
    registry: RegistryView,
    id: Seq<char>,
    filename: Seq<char>,
    platform: Platform,
)
    ensures
        ({
            let spec = registry.specs[id];
            &&& registry.specs.dom().contains(id) ==> {
                &&& registry.query_of(id, filename) == required_query(
                    registry.roots_for(spec),
                    id,
                    filename,
                )
                &&& registry.optional_query_of(id, filename) == optional_query(
                    registry.roots_for(spec),
                    id,
                    filename,
                )
                &&& registry.grammar_path_of(id, platform) is Ok <==> library_path(
                    registry.dirs_for(spec),
                    spec.grammar_name@,
                    platform,
                ) is Some
                &&& registry.grammar_path_of(id, platform) is Ok ==> library_path(
                    registry.dirs_for(spec),
                    spec.grammar_name@,
                    platform,
                ) == Some(registry.grammar_path_of(id, platform)->Ok_0)
                &&& registry.grammar_path_of(id, platform) is Err ==> registry.grammar_path_of(
                    id,
                    platform,
                )->Err_0 == GrammarErrorView::NotFound(spec.grammar_name@)
            }
            &&& !registry.specs.dom().contains(id) ==> {
                &&& registry.query_of(id, filename) is Err && registry.query_of(
                    id,
                    filename,
                )->Err_0 == (QueryReadErrorView::RootNotFound { language: id, filename })
                &&& registry.optional_query_of(id, filename) is Err
                    && registry.optional_query_of(id, filename)->Err_0 == (
                QueryReadErrorView::RootNotFound { language: id, filename })
                &&& registry.grammar_path_of(id, platform) is Err && registry.grammar_path_of(
                    id,
                    platform,
                )->Err_0 == GrammarErrorView::NotFound(id)
            }
        }),
{
}

/// What is read is what the files say: a text where there is one, nothing where there may be none,
/// and the error where there is one.
pub proof fn lemma_what_is_read(
    text: String,
    error: QueryReadError,
    required: Result<Seq<char>, QueryReadErrorView>,
    optional: Result<Option<Seq<char>>, QueryReadErrorView>,
)
    ensures
        reads(Ok(text), required) <==> required is Ok && required->Ok_0 == text@,
        reads(Err(error), required) <==> required is Err && required->Err_0 == error@,
        reads_optional(Ok(Some(text)), optional) <==> optional is Ok && optional->Ok_0 == Some(
            text@,
        ),
        reads_optional(Ok(None), optional) <==> optional is Ok && optional->Ok_0 is None,
        reads_optional(Err(error), optional) <==> optional is Err && optional->Err_0 == error@,
{
}

/// A loaded bundle is of the language, and has just the texts of the files; where one of these
/// cannot be taken, the error tells of it.
pub proof fn lemma_what_is_loaded_raw(
    roots: Seq<QueryRoot>,
    language: Seq<char>,
    res: Result<QueryBundle, QueryBundleError>,
)
    requires
        is_loaded_raw(roots, language, res),
    ensures
        res is Ok <==> raw_under(roots, language) is Ok,
        res matches Ok(bundle) ==> bundle@.language == language && bundle@.queries == raw_under(
            roots,
            language,
        )->Ok_0,
        res matches Err(error) ==> error@ == raw_under(roots, language)->Err_0,
{
}

} // verus!
