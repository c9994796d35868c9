//! All queries of a language.
use crate::byte_text::same_text;
use crate::language_id::LanguageId;
use crate::query_files::{
    dir_of, find_dir, is_named, read_query_from_paths, required_query, FileName, QueryFile,
    QueryReadError, QueryReadErrorView, QueryRoot,
};
use crate::text_map::{lists, text_before, text_order, TextMap, TextOrder};
use vstd::prelude::*;

verus! {

/// The query texts of a language by their kinds. A file `highlights.scm` holds the kind
/// `highlights`.
#[derive(Debug, PartialEq, Eq)]
pub struct QueryBundle {
    language: LanguageId,
    queries: TextMap<String>,
}

/// What a bundle holds.
#[verifier::ext_equal]
pub struct BundleView {
    pub language: Seq<char>,
    pub queries: Map<Seq<char>, Seq<char>>,
}

/// A map of strings as a map of texts.
pub open spec fn as_texts(map: Map<Seq<char>, String>) -> Map<Seq<char>, Seq<char>> {
    map.map_values(|text: String| text@)
}

impl View for QueryBundle {
    type V = BundleView;

    closed spec fn view(&self) -> BundleView {
        BundleView { language: self.language@, queries: as_texts(self.queries@) }
    }
}

impl Clone for QueryBundle {
    fn clone(&self) -> (copy: Self)
        ensures
            copy@ == self@,
    {
        let copy = QueryBundle { language: self.language.clone(), queries: self.queries.clone() };
        assert(as_texts(copy.queries@) =~= as_texts(self.queries@));
        copy
    }
}

impl Default for QueryBundle {
    fn default() -> (bundle: Self)
        ensures
            bundle@.language == Seq::<char>::empty(),
            bundle@.queries == Map::<Seq<char>, Seq<char>>::empty(),
    {
        QueryBundle::of(LanguageId::default())
    }
}

impl QueryBundle {
    /// A bundle without queries.
    fn of(language: LanguageId) -> (bundle: Self)
        ensures
            bundle@.language == language@,
            bundle@.queries == Map::<Seq<char>, Seq<char>>::empty(),
    {
        let bundle = QueryBundle { language, queries: TextMap::new() };
        assert(bundle@.queries =~= Map::<Seq<char>, Seq<char>>::empty());
        bundle
    }

    /// A bundle without queries.
    pub fn new(language: &str) -> (bundle: Self)
        ensures
            bundle@.language == language@,
            bundle@.queries == Map::<Seq<char>, Seq<char>>::empty(),
    {
        QueryBundle::of(LanguageId::new(language))
    }

    /// The language of the queries.
    pub fn language(&self) -> (language: &LanguageId)
        ensures
            language@ == self@.language,
    {
        &self.language
    }

    /// The query text of a kind.
    pub fn get(&self, kind: &str) -> (text: Option<&str>)
        ensures
            match text {
                Some(text) => self@.queries.dom().contains(kind@) && self@.queries[kind@] == text@,
                None => !self@.queries.dom().contains(kind@),
            },
    {
        match self.queries.get(kind) {
            Some(text) => Some(text.as_str()),
            None => None,
        }
    }

    /// The kinds and their texts in the order of the kinds.
    pub fn iter(&self) -> (entries: &Vec<(String, String)>)
        ensures
            exists|map: Map<Seq<char>, String>| #[trigger]
                lists(entries@, map) && self@.queries == as_texts(map),
    {
        let entries = self.queries.entries();
        assert(lists(entries@, self.queries@));
        entries
    }

    /// Puts in a query text, in place of one of the same kind.
    pub fn insert(&mut self, kind: String, text: String)
        ensures
            final(self)@ == (BundleView {
                queries: old(self)@.queries.insert(kind@, text@),
                ..old(self)@
            }),
    {
        let replaced = self.queries.insert(kind, text);
        assert(self@.queries =~= old(self)@.queries.insert(kind@, text@));
    }

    /// Takes over the query texts of another bundle, in place of those of the same kinds.
    pub fn merge(&mut self, other: QueryBundle)
        ensures
            final(self)@ == (BundleView {
                queries: old(self)@.queries.union_prefer_right(other@.queries),
                ..old(self)@
            }),
    {
        let entries = other.queries.entries();
        let ghost given = other.queries@;
        let ghost start = self@.queries;
        assert(self@.queries =~= start.union_prefer_right(as_texts(entries_until(entries@, 0))));
        for i in 0..entries.len()
            invariant
                self@.language == old(self)@.language,
                self@.queries == start.union_prefer_right(
                    as_texts(entries_until(entries@, i as int)),
                ),
        {
            self.insert(entries[i].0.clone(), entries[i].1.clone());
            proof {
                let (kind, text) = entries@[i as int];
                assert(entries_until(entries@, i + 1) =~= entries_until(entries@, i as int).insert(
                    kind@,
                    text,
                ));
                assert(self@.queries =~= start.union_prefer_right(
                    as_texts(entries_until(entries@, i + 1)),
                ));
            }
        }
        proof {
            lemma_entries_make_the_map(entries@, given);
        }
    }

    /// The query texts by their kinds.
    pub fn into_queries(self) -> (queries: TextMap<String>)
        ensures
            as_texts(queries@) == self@.queries,
    {
        self.queries
    }
}

/// The map that is made by putting in the first `count` entries one after the other.
spec fn entries_until(entries: Seq<(String, String)>, count: int) -> Map<Seq<char>, String>
    decreases count,
{
    if count <= 0 {
        Map::empty()
    } else {
        entries_until(entries, count - 1).insert(entries[count - 1].0@, entries[count - 1].1)
    }
}

proof fn lemma_entries_until(entries: Seq<(String, String)>, count: int)
    requires
        0 <= count <= entries.len(),
        crate::text_map::in_text_order(entries),
    ensures
        forall|kind: Seq<char>| #[trigger]
            entries_until(entries, count).dom().contains(kind) <==> exists|i: int|
                0 <= i < count && (#[trigger] entries[i]).0@ == kind,
        forall|i: int|
            0 <= i < count ==> entries_until(entries, count)[(#[trigger] entries[i]).0@]
                == entries[i].1,
    decreases count,
{
    if count > 0 {
        lemma_entries_until(entries, count - 1);
        let last = entries[count - 1];
        let before = entries_until(entries, count - 1);
        let map = entries_until(entries, count);
        assert forall|kind: Seq<char>| #[trigger] map.dom().contains(kind) <==> exists|i: int|
            0 <= i < count && (#[trigger] entries[i]).0@ == kind by {
            if map.dom().contains(kind) {
                if kind == last.0@ {
                    assert(entries[count - 1].0@ == kind);
                } else {
                    assert(before.dom().contains(kind));
                    let i = choose|i: int| 0 <= i < count - 1 && (#[trigger] entries[i]).0@ == kind;
                    assert(entries[i].0@ == kind);
                }
            }
            if exists|i: int| 0 <= i < count && (#[trigger] entries[i]).0@ == kind {
                let i = choose|i: int| 0 <= i < count && (#[trigger] entries[i]).0@ == kind;
                if i < count - 1 {
                    assert(before.dom().contains(kind));
                }
            }
        }
        assert forall|i: int| 0 <= i < count implies map[(#[trigger] entries[i]).0@]
            == entries[i].1 by {
            if i < count - 1 {
                assert(text_before(entries[i].0@, entries[count - 1].0@));
                crate::text_map::lemma_text_order(entries[i].0@, last.0@);
            }
        }
    }
}

proof fn lemma_entries_make_the_map(entries: Seq<(String, String)>, map: Map<Seq<char>, String>)
    requires
        lists(entries, map),
    ensures
        entries_until(entries, entries.len() as int) == map,
{
    lemma_entries_until(entries, entries.len() as int);
    let made = entries_until(entries, entries.len() as int);
    assert forall|kind: Seq<char>| made.dom().contains(kind) == map.dom().contains(kind) by {
        assert(map.dom().contains(kind) == crate::text_map::has_key(entries, kind));
    }
    assert forall|kind: Seq<char>| made.dom().contains(kind) implies made[kind] == map[kind] by {
        let i = choose|i: int| 0 <= i < entries.len() && (#[trigger] entries[i]).0@ == kind;
        crate::text_map::lemma_value_at(entries, i);
    }
    assert(made =~= map);
}

/// The place of the last dot of a name, or one before its beginning.
pub open spec fn last_dot(name: Seq<char>) -> int
    decreases name.len(),
{
    if name.len() == 0 {
        -1
    } else if name.last() == '.' {
        name.len() - 1
    } else {
        last_dot(name.drop_last())
    }
}

/// The part of a file name behind its last dot, unless the name begins with that.
pub open spec fn extension(name: Seq<char>) -> Option<Seq<char>> {
    if last_dot(name) > 0 {
        Some(name.skip(last_dot(name) + 1))
    } else {
        None
    }
}

/// The part of a file name before its extension.
pub open spec fn stem(name: Seq<char>) -> Seq<char> {
    if last_dot(name) > 0 {
        name.take(last_dot(name))
    } else {
        name
    }
}

/// The kind of query that a file holds, if it is a query file. There is no answer where the name of
/// a query file is not text.
pub open spec fn query_kind(name: FileName) -> Option<Option<Seq<char>>> {
    match name {
        FileName::Text(name) => if extension(name@) == Some("scm"@) {
            Some(Some(stem(name@)))
        } else {
            Some(None)
        },
        FileName::NotText { extension } => match extension {
            Some(extension) => if extension@ == "scm"@ {
                None
            } else {
                Some(None)
            },
            None => Some(None),
        },
    }
}

/// Splits a file name at its extension.
pub fn split_name(name: &str) -> (parts: (&str, Option<&str>))
    ensures
        parts.0@ == stem(name@),
        match parts.1 {
            Some(found) => extension(name@) == Some(found@),
            None => extension(name@) is None,
        },
{
    let ghost whole = name@;
    let len: usize = name.unicode_len();
    let mut left: usize = len;
    assert(whole.take(len as int) =~= whole);
    while left > 0
        invariant
            left <= len,
            len == whole.len(),
            whole == name@,
            last_dot(whole) == last_dot(whole.take(left as int)),
        decreases left,
    {
        assert(whole.take(left as int).drop_last() =~= whole.take(left - 1));
        assert(whole.take(left as int).last() == whole[left - 1]);
        left = left - 1;
        if name.get_char(left) == '.' {
            if left == 0 {
                return (name, None);
            }
            assert(whole.subrange(0, left as int) =~= whole.take(left as int));
            assert(whole.subrange(left + 1, len as int) =~= whole.skip(left + 1));
            return (name.substring_char(0, left), Some(name.substring_char(left + 1, len)));
        }
    }
    (name, None)
}

/// Finds the kind of query that a file holds.
pub fn find_kind(name: &FileName) -> (kind: Option<Option<String>>)
    ensures
        match kind {
            Some(Some(kind)) => query_kind(*name) == Some(Some(kind@)),
            Some(None) => query_kind(*name) == Some(None::<Seq<char>>),
            None => query_kind(*name) is None,
        },
{
    match name {
        FileName::Text(name) => {
            let (stem, extension) = split_name(name);
            match extension {
                Some(extension) => if same_text(extension, "scm") {
                    Some(Some(stem.to_owned()))
                } else {
                    Some(None)
                },
                None => Some(None),
            }
        },
        FileName::NotText { extension } => match extension {
            Some(extension) => if same_text(extension, "scm") {
                None
            } else {
                Some(None)
            },
            None => Some(None),
        },
    }
}

/// Why the queries of a language cannot be loaded.
#[derive(Debug, PartialEq, Eq)]
#[allow(inconsistent_fields)]
pub enum QueryBundleError {
    /// The registry does not know the language.
    LanguageNotFound { language: LanguageId },
    /// A directory or a file cannot be read.
    Io { language: LanguageId, path: String, source: String },
    /// The name of a query file is not text.
    InvalidFilename { language: LanguageId, path: String },
    /// The query of a kind cannot be put together.
    Read { language: LanguageId, kind: String, source: QueryReadError },
}

/// Why the queries of a language cannot be loaded, with strings as sequences of characters.
#[verifier::ext_equal]
#[allow(inconsistent_fields)]
pub enum QueryBundleErrorView {
    LanguageNotFound { language: Seq<char> },
    Io { language: Seq<char>, path: Seq<char>, source: Seq<char> },
    InvalidFilename { language: Seq<char>, path: Seq<char> },
    Read { language: Seq<char>, kind: Seq<char>, source: QueryReadErrorView },
}

impl View for QueryBundleError {
    type V = QueryBundleErrorView;

    open spec fn view(&self) -> QueryBundleErrorView {
        match *self {
            QueryBundleError::LanguageNotFound { language } => {
                QueryBundleErrorView::LanguageNotFound { language: language@ }
            },
            QueryBundleError::Io { language, path, source } => QueryBundleErrorView::Io {
                language: language@,
                path: path@,
                source: source@,
            },
            QueryBundleError::InvalidFilename { language, path } => {
                QueryBundleErrorView::InvalidFilename { language: language@, path: path@ }
            },
            QueryBundleError::Read { language, kind, source } => QueryBundleErrorView::Read {
                language: language@,
                kind: kind@,
                source: source@,
            },
        }
    }
}

/// The kinds of the query files among some files.
pub open spec fn kinds_in(files: Seq<QueryFile>, language: Seq<char>) -> Result<
    Set<Seq<char>>,
    QueryBundleErrorView,
>
    decreases files.len(),
{
    if files.len() == 0 {
        Ok(Set::empty())
    } else {
        match kinds_in(files.drop_last(), language) {
            Err(error) => Err(error),
            Ok(kinds) => match query_kind(files.last().name) {
                None => Err(
                    QueryBundleErrorView::InvalidFilename { language, path: files.last().path@ },
                ),
                Some(None) => Ok(kinds),
                Some(Some(kind)) => Ok(kinds.insert(kind)),
            },
        }
    }
}

/// The kinds of the query files of a language under some roots.
pub open spec fn kinds_under(roots: Seq<QueryRoot>, language: Seq<char>) -> Result<
    Set<Seq<char>>,
    QueryBundleErrorView,
>
    decreases roots.len(),
{
    if roots.len() == 0 {
        Ok(Set::empty())
    } else {
        match kinds_under(roots.drop_last(), language) {
            Err(error) => Err(error),
            Ok(kinds) => match dir_of(roots.last().languages@, language, 0) {
                None => Ok(kinds),
                Some(at) => {
                    let dir = roots.last().languages@[at];
                    match dir.unlisted {
                        Some(source) => Err(
                            QueryBundleErrorView::Io {
                                language,
                                path: dir.path@,
                                source: source@,
                            },
                        ),
                        None => match kinds_in(dir.files@, language) {
                            Err(error) => Err(error),
                            Ok(more) => Ok(kinds.union(more)),
                        },
                    }
                },
            },
        }
    }
}

/// Adds the kinds of the query files among some files.
fn add_kinds(kinds: &mut TextMap<()>, files: &Vec<QueryFile>, language: &LanguageId) -> (res: Result<
    (),
    QueryBundleError,
>)
    ensures
        match res {
            Ok(()) => kinds_in(files@, language@) matches Ok(more) && final(kinds)@.dom() == old(
                kinds,
            )@.dom().union(more),
            Err(error) => kinds_in(files@, language@) == Err::<
                Set<Seq<char>>,
                QueryBundleErrorView,
            >(error@),
        },
{
    let ghost start = kinds@.dom();
    assert(files@.take(0) =~= Seq::empty());
    assert(kinds@.dom() =~= start.union(Set::empty()));
    for i in 0..files.len()
        invariant
            kinds_in(files@.take(i as int), language@) matches Ok(more) && kinds@.dom()
                == start.union(more),
    {
        proof {
            assert(files@.take(i + 1).drop_last() =~= files@.take(i as int));
            assert(files@.take(i + 1).last() == files@[i as int]);
        }
        match find_kind(&files[i].name) {
            None => {
                proof {
                    lemma_kinds_in_prefix(files@, language@, i + 1);
                }
                return Err(
                    QueryBundleError::InvalidFilename {
                        language: language.clone(),
                        path: files[i].path.clone(),
                    },
                );
            },
            Some(None) => {},
            Some(Some(kind)) => {
                let ghost more = kinds_in(files@.take(i as int), language@)->Ok_0;
                let known = kinds.insert(kind, ());
                assert(kinds@.dom() =~= start.union(more.insert(kind@)));
            },
        }
    }
    assert(files@.take(files.len() as int) =~= files@);
    Ok(())
}

/// What goes wrong with the first files goes wrong with all.
proof fn lemma_kinds_in_prefix(files: Seq<QueryFile>, language: Seq<char>, count: int)
    requires
        0 <= count <= files.len(),
        kinds_in(files.take(count), language) is Err,
    ensures
        kinds_in(files, language) == kinds_in(files.take(count), language),
    decreases files.len(),
{
    if count < files.len() {
        assert(files.drop_last().take(count) =~= files.take(count));
        lemma_kinds_in_prefix(files.drop_last(), language, count);
    } else {
        assert(files.take(count) =~= files);
    }
}

/// What goes wrong under the first roots goes wrong under all.
proof fn lemma_kinds_under_prefix(roots: Seq<QueryRoot>, language: Seq<char>, count: int)
    requires
        0 <= count <= roots.len(),
        kinds_under(roots.take(count), language) is Err,
    ensures
        kinds_under(roots, language) == kinds_under(roots.take(count), language),
    decreases roots.len(),
{
    if count < roots.len() {
        assert(roots.drop_last().take(count) =~= roots.take(count));
        lemma_kinds_under_prefix(roots.drop_last(), language, count);
    } else {
        assert(roots.take(count) =~= roots);
    }
}

/// Collects the kinds of the query files of a language under some roots.
pub fn collect_query_kinds(language: &LanguageId, roots: &[QueryRoot]) -> (res: Result<
    TextMap<()>,
    QueryBundleError,
>)
    ensures
        match res {
            Ok(kinds) => kinds_under(roots@, language@) == Ok::<
                Set<Seq<char>>,
                QueryBundleErrorView,
            >(kinds@.dom()),
            Err(error) => kinds_under(roots@, language@) == Err::<
                Set<Seq<char>>,
                QueryBundleErrorView,
            >(error@),
        },
{
    let mut kinds: TextMap<()> = TextMap::new();
    assert(roots@.take(0) =~= Seq::empty());
    assert(kinds@.dom() =~= Set::empty());
    for i in 0..roots.len()
        invariant
            kinds_under(roots@.take(i as int), language@) == Ok::<
                Set<Seq<char>>,
                QueryBundleErrorView,
            >(kinds@.dom()),
    {
        proof {
            assert(roots@.take(i + 1).drop_last() =~= roots@.take(i as int));
            assert(roots@.take(i + 1).last() == roots@[i as int]);
        }
        if let Some(at) = find_dir(&roots[i].languages, language.as_str()) {
            let dir = &roots[i].languages[at];
            if let Some(source) = &dir.unlisted {
                proof {
                    lemma_kinds_under_prefix(roots@, language@, i + 1);
                }
                return Err(
                    QueryBundleError::Io {
                        language: language.clone(),
                        path: dir.path.clone(),
                        source: source.clone(),
                    },
                );
            }
            match add_kinds(&mut kinds, &dir.files, language) {
                Ok(()) => {},
                Err(error) => {
                    proof {
                        lemma_kinds_under_prefix(roots@, language@, i + 1);
                    }
                    return Err(error);
                },
            }
        }
    }
    assert(roots@.take(roots@.len() as int) =~= roots@);
    Ok(kinds)
}

/// What the query file of a kind says with all that it inherits.
pub open spec fn query_of_kind(roots: Seq<QueryRoot>, language: Seq<char>, kind: Seq<char>) -> Result<
    Seq<char>,
    QueryReadErrorView,
> {
    required_query(roots, language, kind + ".scm"@)
}

/// Whether this is what comes of loading the queries of a language.
pub open spec fn is_loaded(
    roots: Seq<QueryRoot>,
    language: Seq<char>,
    res: Result<QueryBundle, QueryBundleError>,
) -> bool {
    match kinds_under(roots, language) {
        Err(error) => res matches Err(found) && found@ == error,
        Ok(kinds) => match res {
            Ok(bundle) => {
                &&& bundle@.language == language
                &&& bundle@.queries.dom() == kinds
                &&& forall|kind: Seq<char>| #[trigger]
                    kinds.contains(kind) ==> query_of_kind(roots, language, kind) == Ok::<
                        Seq<char>,
                        QueryReadErrorView,
                    >(bundle@.queries[kind])
            },
            // The first kind that cannot be put together is the one to be told.
            Err(error) => error@ matches QueryBundleErrorView::Read {
                language: named,
                kind,
                source,
            } && {
                &&& named == language
                &&& kinds.contains(kind)
                &&& query_of_kind(roots, language, kind) == Err::<Seq<char>, QueryReadErrorView>(
                    source,
                )
                &&& forall|other: Seq<char>| #[trigger]
                    kinds.contains(other) && text_before(other, kind) ==> query_of_kind(
                        roots,
                        language,
                        other,
                    ) is Ok
            },
        },
    }
}

/// Loads the queries of a language with all that they inherit.
pub fn load_query_bundle(language: &str, roots: &[QueryRoot]) -> (res: Result<
    QueryBundle,
    QueryBundleError,
>)
    ensures
        is_loaded(roots@, language@, res),
{
    let id = LanguageId::new(language);
    let kinds = match collect_query_kinds(&id, roots) {
        Ok(kinds) => kinds,
        Err(error) => return Err(error),
    };
    let entries = kinds.entries();
    let ghost all = kinds@;
    let mut bundle = QueryBundle::of(id.clone());
    for i in 0..entries.len()
        invariant
            id@ == language@,
            all == kinds@,
            kinds_under(roots@, language@) == Ok::<Set<Seq<char>>, QueryBundleErrorView>(
                all.dom(),
            ),
            lists(entries@, all),
            bundle@.language == language@,
            forall|kind: Seq<char>| #[trigger]
                bundle@.queries.dom().contains(kind) <==> exists|k: int|
                    0 <= k < i && (#[trigger] entries@[k]).0@ == kind,
            forall|kind: Seq<char>| #[trigger]
                bundle@.queries.dom().contains(kind) ==> query_of_kind(roots@, language@, kind)
                    == Ok::<Seq<char>, QueryReadErrorView>(bundle@.queries[kind]),
    {
        let kind = &entries[i].0;
        let ghost before = bundle@.queries;
        let mut filename = kind.clone();
        filename.append(".scm");
        match read_query_from_paths(language, &filename, roots) {
            Ok(text) => {
                bundle.insert(kind.clone(), text);
                proof {
                    let after = bundle@.queries;
                    assert forall|other: Seq<char>| #[trigger]
                        after.dom().contains(other) <==> exists|k: int|
                            0 <= k < i + 1 && (#[trigger] entries@[k]).0@ == other by {
                        if after.dom().contains(other) {
                            if other == kind@ {
                                assert(entries@[i as int].0@ == other);
                            } else {
                                assert(before.dom().contains(other));
                                let k = choose|k: int|
                                    0 <= k < i && (#[trigger] entries@[k]).0@ == other;
                                assert(entries@[k].0@ == other);
                            }
                        }
                        if exists|k: int| 0 <= k < i + 1 && (#[trigger] entries@[k]).0@ == other {
                            let k = choose|k: int|
                                0 <= k < i + 1 && (#[trigger] entries@[k]).0@ == other;
                            if k < i {
                                assert(before.dom().contains(other));
                            }
                        }
                    }
                    assert forall|other: Seq<char>| #[trigger]
                        after.dom().contains(other) implies query_of_kind(
                        roots@,
                        language@,
                        other,
                    ) == Ok::<Seq<char>, QueryReadErrorView>(after[other]) by {
                        if other != kind@ {
                            assert(before.dom().contains(other));
                        }
                    }
                }
            },
            Err(source) => {
                proof {
                    crate::text_map::lemma_value_at(entries@, i as int);
                    assert forall|other: Seq<char>| #[trigger]
                        all.dom().contains(other) && text_before(
                            other,
                            kind@,
                        ) implies query_of_kind(roots@, language@, other) is Ok by {
                        let k = choose|k: int|
                            0 <= k < entries@.len() && (#[trigger] entries@[k]).0@ == other;
                        crate::text_map::lemma_text_order(other, kind@);
                        if k > i {
                            assert(text_before(entries@[i as int].0@, entries@[k].0@));
                        }
                        assert(before.dom().contains(other));
                    }
                }
                return Err(
                    QueryBundleError::Read { language: id.clone(), kind: kind.clone(), source },
                );
            },
        }
    }
    proof {
        assert(bundle@.queries.dom() =~= all.dom()) by {
            assert forall|kind: Seq<char>| bundle@.queries.dom().contains(kind)
                == all.dom().contains(kind) by {
                assert(all.dom().contains(kind) == crate::text_map::has_key(entries@, kind));
            }
        }
        assert forall|kind: Seq<char>| #[trigger] all.dom().contains(kind) implies query_of_kind(
            roots@,
            language@,
            kind,
        ) == Ok::<Seq<char>, QueryReadErrorView>(bundle@.queries[kind]) by {
            assert(bundle@.queries.dom().contains(kind));
        }
    }
    Ok(bundle)
}

/// Whether a root has a file of a language.
pub open spec fn has_file(root: QueryRoot, language: Seq<char>, filename: Seq<char>) -> bool {
    dir_of(root.languages@, language, 0) matches Some(at) && exists|i: int|
        0 <= i < root.languages@[at].files.len() && is_named(
            #[trigger] root.languages@[at].files@[i],
            filename,
        )
}

proof fn lemma_last_dot(name: Seq<char>)
    ensures
        -1 <= last_dot(name) < name.len(),
        last_dot(name) >= 0 ==> name[last_dot(name)] == '.',
    decreases name.len(),
{
    if name.len() > 0 && name.last() != '.' {
        lemma_last_dot(name.drop_last());
    }
}

/// A query file is of a kind if it is named like it.
proof fn lemma_kind_names_file(name: Seq<char>, kind: Seq<char>)
    requires
        kind.len() > 0,
    ensures
        (extension(name) == Some("scm"@) && stem(name) == kind) <==> name == kind + ".scm"@,
{
    reveal_strlit("scm");
    reveal_strlit(".scm");
    lemma_last_dot(name);
    let at = last_dot(name);
    if extension(name) == Some("scm"@) && stem(name) == kind {
        assert(name =~= name.take(at) + seq!['.'] + name.skip(at + 1));
        assert(name =~= kind + ".scm"@);
    }
    if name == kind + ".scm"@ {
        let len = kind.len() as int;
        assert(name.len() == len + 4);
        let a = name.drop_last();
        let b = a.drop_last();
        let c = b.drop_last();
        assert(c.last() == '.');
        assert(last_dot(c) == len);
        assert(b.last() == 's' && last_dot(b) == len);
        assert(a.last() == 'c' && last_dot(a) == len);
        assert(name.last() == 'm' && last_dot(name) == len);
        assert(name.take(len) =~= kind);
        assert(name.skip(len + 1) =~= "scm"@);
    }
}

proof fn lemma_kinds_in(files: Seq<QueryFile>, language: Seq<char>, kind: Seq<char>)
    requires
        kinds_in(files, language) is Ok,
        kind.len() > 0,
    ensures
        kinds_in(files, language)->Ok_0.contains(kind) <==> exists|i: int|
            0 <= i < files.len() && is_named(#[trigger] files[i], kind + ".scm"@),
    decreases files.len(),
{
    if files.len() > 0 {
        let front = files.drop_last();
        lemma_kinds_in(front, language, kind);
        if let FileName::Text(name) = files.last().name {
            lemma_kind_names_file(name@, kind);
        }
        let filename = kind + ".scm"@;
        if exists|i: int| 0 <= i < files.len() && is_named(#[trigger] files[i], filename) {
            let i = choose|i: int| 0 <= i < files.len() && is_named(#[trigger] files[i], filename);
            if i < front.len() {
                assert(is_named(front[i], filename));
            }
        }
        if exists|i: int| 0 <= i < front.len() && is_named(#[trigger] front[i], filename) {
            let i = choose|i: int| 0 <= i < front.len() && is_named(#[trigger] front[i], filename);
            assert(is_named(files[i], filename));
        }
        if is_named(files.last(), filename) {
            assert(is_named(files[files.len() - 1], filename));
        }
    }
}

proof fn lemma_kinds_under(roots: Seq<QueryRoot>, language: Seq<char>, kind: Seq<char>)
    requires
        kinds_under(roots, language) is Ok,
        kind.len() > 0,
    ensures
        kinds_under(roots, language)->Ok_0.contains(kind) <==> exists|r: int|
            0 <= r < roots.len() && has_file(#[trigger] roots[r], language, kind + ".scm"@),
    decreases roots.len(),
{
    if roots.len() > 0 {
        let front = roots.drop_last();
        let filename = kind + ".scm"@;
        lemma_kinds_under(front, language, kind);
        if let Some(at) = dir_of(roots.last().languages@, language, 0) {
            lemma_kinds_in(roots.last().languages@[at].files@, language, kind);
        }
        assert(kinds_under(roots, language)->Ok_0.contains(kind) <==> kinds_under(
            front,
            language,
        )->Ok_0.contains(kind) || has_file(roots.last(), language, filename));
        if exists|r: int| 0 <= r < roots.len() && has_file(#[trigger] roots[r], language, filename) {
            let r = choose|r: int|
                0 <= r < roots.len() && has_file(#[trigger] roots[r], language, filename);
            if r < front.len() {
                assert(has_file(front[r], language, filename));
            }
        }
        if exists|r: int| 0 <= r < front.len() && has_file(#[trigger] front[r], language, filename) {
            let r = choose|r: int|
                0 <= r < front.len() && has_file(#[trigger] front[r], language, filename);
            assert(has_file(roots[r], language, filename));
        }
        if has_file(roots.last(), language, filename) {
            assert(has_file(roots[roots.len() - 1], language, filename));
        }
    }
}

/// A bundle has a query of a kind exactly where some root has the file of that kind for the
/// language, and it is what the file says, with all that it inherits. (A file without a name before
/// its extension is of no kind.)
pub proof fn lemma_bundle_has_what_there_is(
    roots: Seq<QueryRoot>,
    language: Seq<char>,
    bundle: QueryBundle,
    kind: Seq<char>,
)
    requires
        is_loaded(roots, language, Ok(bundle)),
        kind.len() > 0,
    ensures
        bundle@.language == language,
        bundle@.queries.dom().contains(kind) <==> exists|r: int|
            0 <= r < roots.len() && has_file(#[trigger] roots[r], language, kind + ".scm"@),
        bundle@.queries.dom().contains(kind) ==> query_of_kind(roots, language, kind) == Ok::<
            Seq<char>,
            QueryReadErrorView,
        >(bundle@.queries[kind]),
{
    lemma_kinds_under(roots, language, kind);
}

/// How many of some places, which are ordered by the paths of their files, come before a path or
/// have the same.
pub open spec fn place_after_path(files: Seq<QueryFile>, order: Seq<usize>, path: Seq<char>) -> int
    decreases order.len(),
{
    if order.len() == 0 {
        0
    } else if text_before(path, files[order.last() as int].path@) {
        place_after_path(files, order.drop_last(), path)
    } else {
        order.len() as int
    }
}

/// The places of some files in the order of their paths.
pub open spec fn path_order(files: Seq<QueryFile>) -> Seq<usize>
    decreases files.len(),
{
    if files.len() == 0 {
        Seq::empty()
    } else {
        let front = path_order(files.drop_last());
        front.insert(
            place_after_path(files, front, files.last().path@),
            (files.len() - 1) as usize,
        )
    }
}

/// Whether files come in the order of their paths.
pub open spec fn in_path_order(files: Seq<QueryFile>, order: Seq<usize>) -> bool {
    forall|i: int, j: int|
        0 <= i < j < order.len() ==> !text_before(
            files[(#[trigger] order[j]) as int].path@,
            files[(#[trigger] order[i]) as int].path@,
        )
}

proof fn lemma_place_after_path(files: Seq<QueryFile>, order: Seq<usize>, path: Seq<char>)
    requires
        in_path_order(files, order),
    ensures
        0 <= place_after_path(files, order, path) <= order.len(),
        forall|i: int|
            0 <= i < place_after_path(files, order, path) ==> !text_before(
                path,
                files[(#[trigger] order[i]) as int].path@,
            ),
        forall|i: int|
            place_after_path(files, order, path) <= i < order.len() ==> text_before(
                path,
                files[(#[trigger] order[i]) as int].path@,
            ),
    decreases order.len(),
{
    if order.len() > 0 {
        let last = order.last();
        if text_before(path, files[last as int].path@) {
            let front = order.drop_last();
            assert forall|i: int, j: int| 0 <= i < j < front.len() implies !text_before(
                files[(#[trigger] front[j]) as int].path@,
                files[(#[trigger] front[i]) as int].path@,
            ) by {
                assert(order[i] == front[i] && order[j] == front[j]);
            }
            lemma_place_after_path(files, front, path);
            assert forall|i: int|
                0 <= i < place_after_path(files, order, path) implies !text_before(
                path,
                files[(#[trigger] order[i]) as int].path@,
            ) by {
                assert(order[i] == front[i]);
            }
            assert forall|i: int|
                place_after_path(files, order, path) <= i < order.len() implies text_before(
                path,
                files[(#[trigger] order[i]) as int].path@,
            ) by {
                if i < front.len() {
                    assert(order[i] == front[i]);
                }
            }
        } else {
            assert forall|i: int| 0 <= i < order.len() implies !text_before(
                path,
                files[(#[trigger] order[i]) as int].path@,
            ) by {
                if i < order.len() - 1 {
                    let here = files[order[i] as int].path@;
                    assert(!text_before(files[order[order.len() - 1] as int].path@, here));
                    if text_before(path, here) {
                        crate::text_map::lemma_text_order(files[last as int].path@, here);
                        if files[last as int].path@ != here {
                            crate::text_map::lemma_before_transitive(
                                vstd::utf8::encode_utf8(path),
                                vstd::utf8::encode_utf8(here),
                                vstd::utf8::encode_utf8(files[last as int].path@),
                            );
                        }
                    }
                }
            }
        }
    }
}

/// The places of files in the order of their paths are in that order, and each is there once.
pub proof fn lemma_path_order(files: Seq<QueryFile>)
    requires
        files.len() <= usize::MAX,
    ensures
        path_order(files).len() == files.len(),
        in_path_order(files, path_order(files)),
        forall|i: int|
            0 <= i < files.len() ==> (#[trigger] path_order(files)[i]) < files.len(),
        forall|k: usize| k < files.len() ==> #[trigger] path_order(files).contains(k),
    decreases files.len(),
{
    if files.len() > 0 {
        let fewer = files.drop_last();
        let front = path_order(fewer);
        let path = files.last().path@;
        lemma_path_order(fewer);
        assert(in_path_order(files, front)) by {
            assert forall|i: int, j: int| 0 <= i < j < front.len() implies !text_before(
                files[(#[trigger] front[j]) as int].path@,
                files[(#[trigger] front[i]) as int].path@,
            ) by {
                assert(files[front[i] as int] == fewer[front[i] as int]);
                assert(files[front[j] as int] == fewer[front[j] as int]);
            }
        }
        lemma_place_after_path(files, front, path);
        let at = place_after_path(files, front, path);
        let order = path_order(files);
        let new = (files.len() - 1) as usize;
        assert(order == front.insert(at, new));
        assert forall|i: int| 0 <= i < files.len() implies (#[trigger] order[i])
            < files.len() by {
            if i < at {
                assert(order[i] == front[i]);
            } else if i > at {
                assert(order[i] == front[i - 1]);
            }
        }
        assert forall|i: int, j: int| 0 <= i < j < order.len() implies !text_before(
            files[(#[trigger] order[j]) as int].path@,
            files[(#[trigger] order[i]) as int].path@,
        ) by {
            if j == at {
                assert(order[i] == front[i]);
            } else if i == at {
                assert(order[j] == front[j - 1]);
                crate::text_map::lemma_text_order(path, files[order[j] as int].path@);
            } else {
                let a = if i < at { i } else { i - 1 };
                let b = if j < at { j } else { j - 1 };
                assert(order[i] == front[a] && order[j] == front[b]);
                assert(!text_before(files[front[b] as int].path@, files[front[a] as int].path@));
            }
        }
        assert forall|k: usize| k < files.len() implies #[trigger] order.contains(k) by {
            if k == new {
                assert(order[at] == k);
            } else {
                assert(front.contains(k));
                let i = choose|i: int| 0 <= i < front.len() && front[i] == k;
                let j = if i < at { i } else { i + 1 };
                assert(order[j] == k);
            }
        }
    }
}

/// Brings the places of files into the order of their paths.
pub fn order_by_path(files: &Vec<QueryFile>) -> (order: Vec<usize>)
    ensures
        order@ == path_order(files@),
{
    let mut order: Vec<usize> = Vec::new();
    assert(files@.take(0) =~= Seq::empty());
    for i in 0..files.len()
        invariant
            order@ == path_order(files@.take(i as int)),
    {
        let ghost some = files@.take(i + 1);
        proof {
            assert(some.drop_last() =~= files@.take(i as int));
            assert(some.last() == files@[i as int]);
            lemma_path_order(files@.take(i as int));
        }
        let mut at: usize = order.len();
        assert(order@.take(at as int) =~= order@);
        while at > 0 && text_order(&files[i].path, &files[order[at - 1]].path) == TextOrder::Before
            invariant
                i < files.len(),
                at <= order.len(),
                some == files@.take(i + 1),
                order@ == path_order(files@.take(i as int)),
                forall|k: int| 0 <= k < order.len() ==> (#[trigger] order@[k]) < i,
                place_after_path(some, order@, files@[i as int].path@) == place_after_path(
                    some,
                    order@.take(at as int),
                    files@[i as int].path@,
                ),
            decreases at,
        {
            assert(order@.take(at as int).drop_last() =~= order@.take(at - 1));
            assert(order@.take(at as int).last() == order@[at - 1]);
            assert(some[order@[at - 1] as int] == files@[order@[at - 1] as int]);
            at = at - 1;
        }
        proof {
            if at > 0 {
                assert(order@.take(at as int).last() == order@[at - 1]);
                assert(some[order@[at - 1] as int] == files@[order@[at - 1] as int]);
            }
        }
        order.insert(at, i);
    }
    assert(files@.take(files.len() as int) =~= files@);
    order
}

/// The query texts of some files, put over those that are there.
pub open spec fn raw_in(
    files: Seq<QueryFile>,
    language: Seq<char>,
    queries: Map<Seq<char>, Seq<char>>,
) -> Result<Map<Seq<char>, Seq<char>>, QueryBundleErrorView>
    decreases files.len(),
{
    if files.len() == 0 {
        Ok(queries)
    } else {
        let file = files.last();
        match raw_in(files.drop_last(), language, queries) {
            Err(error) => Err(error),
            Ok(queries) => match query_kind(file.name) {
                None => Err(QueryBundleErrorView::InvalidFilename { language, path: file.path@ }),
                Some(None) => Ok(queries),
                Some(Some(kind)) => match file.text {
                    Ok(text) => Ok(queries.insert(kind, text@)),
                    Err(source) => Err(
                        QueryBundleErrorView::Io {
                            language,
                            path: file.path@,
                            source: source@,
                        },
                    ),
                },
            },
        }
    }
}

/// Files in the order of their paths.
pub open spec fn by_path(files: Seq<QueryFile>) -> Seq<QueryFile> {
    Seq::new(path_order(files).len(), |i: int| files[path_order(files)[i] as int])
}

/// The query texts of a language under some roots, as they stand in the files. Later roots override
/// earlier ones.
pub open spec fn raw_under(roots: Seq<QueryRoot>, language: Seq<char>) -> Result<
    Map<Seq<char>, Seq<char>>,
    QueryBundleErrorView,
>
    decreases roots.len(),
{
    if roots.len() == 0 {
        Ok(Map::empty())
    } else {
        match raw_under(roots.drop_last(), language) {
            Err(error) => Err(error),
            Ok(queries) => match dir_of(roots.last().languages@, language, 0) {
                None => Ok(queries),
                Some(at) => {
                    let dir = roots.last().languages@[at];
                    match dir.unlisted {
                        Some(source) => Err(
                            QueryBundleErrorView::Io {
                                language,
                                path: dir.path@,
                                source: source@,
                            },
                        ),
                        None => raw_in(by_path(dir.files@), language, queries),
                    }
                },
            },
        }
    }
}

proof fn lemma_raw_in_prefix(
    files: Seq<QueryFile>,
    language: Seq<char>,
    queries: Map<Seq<char>, Seq<char>>,
    count: int,
)
    requires
        0 <= count <= files.len(),
        raw_in(files.take(count), language, queries) is Err,
    ensures
        raw_in(files, language, queries) == raw_in(files.take(count), language, queries),
    decreases files.len(),
{
    if count < files.len() {
        assert(files.drop_last().take(count) =~= files.take(count));
        lemma_raw_in_prefix(files.drop_last(), language, queries, count);
    } else {
        assert(files.take(count) =~= files);
    }
}

proof fn lemma_raw_under_prefix(roots: Seq<QueryRoot>, language: Seq<char>, count: int)
    requires
        0 <= count <= roots.len(),
        raw_under(roots.take(count), language) is Err,
    ensures
        raw_under(roots, language) == raw_under(roots.take(count), language),
    decreases roots.len(),
{
    if count < roots.len() {
        assert(roots.drop_last().take(count) =~= roots.take(count));
        lemma_raw_under_prefix(roots.drop_last(), language, count);
    } else {
        assert(roots.take(count) =~= roots);
    }
}

impl QueryBundle {
    /// Takes over the query texts of some files, as they stand there.
    fn take_over(&mut self, files: &Vec<QueryFile>) -> (res: Result<(), QueryBundleError>)
        ensures
            final(self)@.language == old(self)@.language,
            match res {
                Ok(()) => raw_in(by_path(files@), old(self)@.language, old(self)@.queries) == Ok::<
                    Map<Seq<char>, Seq<char>>,
                    QueryBundleErrorView,
                >(final(self)@.queries),
                Err(error) => raw_in(by_path(files@), old(self)@.language, old(self)@.queries)
                    == Err::<Map<Seq<char>, Seq<char>>, QueryBundleErrorView>(error@),
            },
    {
        let order = order_by_path(files);
        let ghost sorted = by_path(files@);
        let ghost language = self@.language;
        let ghost start = self@.queries;
        proof {
            assert(files.len() == files@.len());
            lemma_path_order(files@);
            assert(sorted.take(0) =~= Seq::empty());
        }
        for i in 0..order.len()
            invariant
                order@ == path_order(files@),
                sorted == by_path(files@),
                order.len() == sorted.len(),
                forall|k: int| 0 <= k < order.len() ==> (#[trigger] order@[k]) < files.len(),
                self@.language == language,
                language == old(self)@.language,
                start == old(self)@.queries,
                raw_in(sorted.take(i as int), language, start) == Ok::<
                    Map<Seq<char>, Seq<char>>,
                    QueryBundleErrorView,
                >(self@.queries),
        {
            let file = &files[order[i]];
            proof {
                assert(sorted.take(i + 1).drop_last() =~= sorted.take(i as int));
                assert(sorted.take(i + 1).last() == files@[order@[i as int] as int]);
            }
            match find_kind(&file.name) {
                None => {
                    proof {
                        lemma_raw_in_prefix(sorted, language, start, i + 1);
                    }
                    return Err(
                        QueryBundleError::InvalidFilename {
                            language: self.language.clone(),
                            path: file.path.clone(),
                        },
                    );
                },
                Some(None) => {},
                Some(Some(kind)) => {
                    match &file.text {
                        Ok(text) => {
                            self.insert(kind, text.clone());
                        },
                        Err(source) => {
                            proof {
                                lemma_raw_in_prefix(sorted, language, start, i + 1);
                            }
                            return Err(
                                QueryBundleError::Io {
                                    language: self.language.clone(),
                                    path: file.path.clone(),
                                    source: source.clone(),
                                },
                            );
                        },
                    }
                },
            }
        }
        assert(sorted.take(order.len() as int) =~= sorted);
        Ok(())
    }
}

/// Loads the queries of a language as they stand in the files.
pub fn load_raw_query_bundle(language: &str, roots: &[QueryRoot]) -> (res: Result<
    QueryBundle,
    QueryBundleError,
>)
    ensures
        match res {
            Ok(bundle) => {
                &&& bundle@.language == language@
                &&& raw_under(roots@, language@) == Ok::<
                    Map<Seq<char>, Seq<char>>,
                    QueryBundleErrorView,
                >(bundle@.queries)
            },
            Err(error) => raw_under(roots@, language@) == Err::<
                Map<Seq<char>, Seq<char>>,
                QueryBundleErrorView,
            >(error@),
        },
{
    let mut bundle = QueryBundle::new(language);
    assert(roots@.take(0) =~= Seq::empty());
    for i in 0..roots.len()
        invariant
            bundle@.language == language@,
            raw_under(roots@.take(i as int), language@) == Ok::<
                Map<Seq<char>, Seq<char>>,
                QueryBundleErrorView,
            >(bundle@.queries),
    {
        proof {
            assert(roots@.take(i + 1).drop_last() =~= roots@.take(i as int));
            assert(roots@.take(i + 1).last() == roots@[i as int]);
        }
        if let Some(at) = find_dir(&roots[i].languages, language) {
            let dir = &roots[i].languages[at];
            if let Some(source) = &dir.unlisted {
                proof {
                    lemma_raw_under_prefix(roots@, language@, i + 1);
                }
                return Err(
                    QueryBundleError::Io {
                        language: LanguageId::new(language),
                        path: dir.path.clone(),
                        source: source.clone(),
                    },
                );
            }
            match bundle.take_over(&dir.files) {
                Ok(()) => {},
                Err(error) => {
                    proof {
                        lemma_raw_under_prefix(roots@, language@, i + 1);
                    }
                    return Err(error);
                },
            }
        }
    }
    assert(roots@.take(roots@.len() as int) =~= roots@);
    Ok(bundle)
}

/// Reads the query files of a language as they stand, kind by kind. Later roots override earlier
/// ones.
pub fn merge_language_queries(language: &str, roots: &[QueryRoot]) -> (res: Result<
    TextMap<String>,
    QueryBundleError,
>)
    ensures
        match res {
            Ok(queries) => raw_under(roots@, language@) == Ok::<
                Map<Seq<char>, Seq<char>>,
                QueryBundleErrorView,
            >(as_texts(queries@)),
            Err(error) => raw_under(roots@, language@) == Err::<
                Map<Seq<char>, Seq<char>>,
                QueryBundleErrorView,
            >(error@),
        },
{
    match load_raw_query_bundle(language, roots) {
        Ok(bundle) => Ok(bundle.into_queries()),
        Err(error) => Err(error),
    }
}

proof fn lemma_raw_in_overrides(
    files: Seq<QueryFile>,
    language: Seq<char>,
    queries: Map<Seq<char>, Seq<char>>,
)
    ensures
        match raw_in(files, language, Map::empty()) {
            Ok(more) => raw_in(files, language, queries) == Ok::<
                Map<Seq<char>, Seq<char>>,
                QueryBundleErrorView,
            >(queries.union_prefer_right(more)),
            Err(error) => raw_in(files, language, queries) == Err::<
                Map<Seq<char>, Seq<char>>,
                QueryBundleErrorView,
            >(error),
        },
    decreases files.len(),
{
    if files.len() == 0 {
        assert(queries.union_prefer_right(Map::empty()) =~= queries);
    } else {
        lemma_raw_in_overrides(files.drop_last(), language, queries);
        if let Ok(more) = raw_in(files.drop_last(), language, Map::empty()) {
            if let Some(Some(kind)) = query_kind(files.last().name) {
                if let Ok(text) = files.last().text {
                    assert(queries.union_prefer_right(more).insert(kind, text@)
                        =~= queries.union_prefer_right(more.insert(kind, text@)));
                }
            }
        }
    }
}

/// The query files of a root override those of the roots before it, kind by kind.
pub proof fn lemma_later_roots_override_kinds(
    roots: Seq<QueryRoot>,
    root: QueryRoot,
    language: Seq<char>,
)
    requires
        raw_under(roots, language) is Ok,
        raw_under(seq![root], language) is Ok,
    ensures
        raw_under(roots.push(root), language) == Ok::<
            Map<Seq<char>, Seq<char>>,
            QueryBundleErrorView,
        >(
            raw_under(roots, language)->Ok_0.union_prefer_right(
                raw_under(seq![root], language)->Ok_0,
            ),
        ),
{
    let queries = raw_under(roots, language)->Ok_0;
    assert(roots.push(root).drop_last() =~= roots);
    assert(seq![root].drop_last() =~= Seq::empty());
    assert(raw_under(seq![root].drop_last(), language) == Ok::<
        Map<Seq<char>, Seq<char>>,
        QueryBundleErrorView,
    >(Map::empty()));
    match dir_of(root.languages@, language, 0) {
        Some(at) => {
            lemma_raw_in_overrides(by_path(root.languages@[at].files@), language, queries);
        },
        None => {
            assert(queries.union_prefer_right(Map::empty()) =~= queries);
        },
    }
}

/// A file name is its stem, a dot and its extension, in which there is no dot, if it has one. If
/// not, the stem is the whole name, and no dot stands in it but at its beginning.
pub proof fn lemma_stem_and_extension(name: Seq<char>)
    ensures
        match extension(name) {
            Some(found) => {
                &&& stem(name).len() > 0
                &&& name == stem(name) + seq!['.'] + found
                &&& !found.contains('.')
            },
            None => stem(name) == name && forall|i: int|
                0 < i < name.len() ==> #[trigger] name[i] != '.',
        },
{
    lemma_last_dot_is_last(name);
    lemma_last_dot(name);
    let at = last_dot(name);
    if at > 0 {
        assert(name =~= stem(name) + seq!['.'] + name.skip(at + 1));
        if name.skip(at + 1).contains('.') {
            let i = name.skip(at + 1).index_of('.');
            assert(name[at + 1 + i] == '.');
        }
    }
}

proof fn lemma_last_dot_is_last(name: Seq<char>)
    ensures
        forall|i: int| last_dot(name) < i < name.len() ==> #[trigger] name[i] != '.',
    decreases name.len(),
{
    if name.len() > 0 && name.last() != '.' {
        lemma_last_dot(name);
        lemma_last_dot_is_last(name.drop_last());
        assert forall|i: int| last_dot(name) < i < name.len() implies #[trigger] name[i] != '.' by {
            if i < name.len() - 1 {
                assert(name.drop_last()[i] == name[i]);
            }
        }
    }
}

/// The query files are those with the ending `.scm` and something before it, which is the kind. Of
/// a name that is not text nothing but the extension is known: it cannot be taken if that is the
/// one of query files.
pub proof fn lemma_which_files_are_queries(name: FileName, kind: Seq<char>)
    ensures
        query_kind(name) == Some(Some(kind)) <==> kind.len() > 0 && name is Text && (
        name->Text_0)@ == kind + ".scm"@,
        query_kind(name) is None <==> name is NotText && name->extension is Some && (
        name->extension->0)@ == "scm"@,
{
    if let FileName::Text(text) = name {
        lemma_stem_and_extension(text@);
        if kind.len() > 0 {
            lemma_kind_names_file(text@, kind);
        }
        if query_kind(name) == Some(Some(kind)) {
            assert(kind == stem(text@));
        }
    }
}

/// Whether a file can be taken into a bundle as it stands: it is no query file, or a query file
/// that can be read.
pub open spec fn can_be_taken(file: QueryFile) -> bool {
    match query_kind(file.name) {
        None => false,
        Some(None) => true,
        Some(Some(_)) => file.text is Ok,
    }
}

/// Files can be taken if each of them can. Then the last file of a kind says what the query of
/// that kind is, and a kind without a file stays as it was. The first file that cannot be taken is
/// named.
pub proof fn lemma_raw_texts(
    files: Seq<QueryFile>,
    language: Seq<char>,
    queries: Map<Seq<char>, Seq<char>>,
)
    ensures
        ({
            let res = raw_in(files, language, queries);
            &&& res is Ok <==> forall|i: int|
                0 <= i < files.len() ==> can_be_taken(#[trigger] files[i])
            &&& (res matches Ok(after) ==> {
                &&& forall|i: int|
                    #![trigger files[i]]
                    0 <= i < files.len() && query_kind(files[i].name) is Some && query_kind(
                        files[i].name,
                    )->0 is Some && (forall|j: int|
                        i < j < files.len() ==> query_kind((#[trigger] files[j]).name)
                            != query_kind(files[i].name)) ==> {
                        let kind = query_kind(files[i].name)->0->0;
                        after.dom().contains(kind) && after[kind] == (files[i].text->Ok_0)@
                    }
                &&& forall|kind: Seq<char>|
                    #![trigger after.dom().contains(kind)]
                    (forall|i: int|
                        0 <= i < files.len() ==> query_kind((#[trigger] files[i]).name) != Some(
                            Some(kind),
                        )) ==> after.dom().contains(kind) == queries.dom().contains(kind)
                        && after[kind] == queries[kind]
            })
            &&& forall|i: int|
                #![trigger files[i]]
                0 <= i < files.len() && !can_be_taken(files[i]) && (forall|j: int|
                    0 <= j < i ==> can_be_taken(#[trigger] files[j])) ==> {
                    &&& res is Err
                    &&& query_kind(files[i].name) is None ==> res->Err_0 == (
                    QueryBundleErrorView::InvalidFilename { language, path: files[i].path@ })
                    &&& query_kind(files[i].name) is Some ==> res->Err_0 == (
                    QueryBundleErrorView::Io {
                        language,
                        path: files[i].path@,
                        source: (files[i].text->Err_0)@,
                    })
                }
        }),
    decreases files.len(),
{
    if files.len() > 0 {
        let front = files.drop_last();
        let last = files.len() - 1;
        lemma_raw_texts(front, language, queries);
        let before = raw_in(front, language, queries);
        let res = raw_in(files, language, queries);
        assert forall|i: int| 0 <= i < last implies #[trigger] files[i] == front[i] by {}
        assert(files[last] == files.last());
        if res is Ok {
            assert forall|i: int| 0 <= i < files.len() implies can_be_taken(#[trigger] files[i]) by {
                if i < last {
                    assert(can_be_taken(front[i]));
                }
            }
            let after = res->Ok_0;
            assert forall|i: int|
                #![trigger files[i]]
                0 <= i < files.len() && query_kind(files[i].name) is Some && query_kind(
                    files[i].name,
                )->0 is Some && (forall|j: int|
                    i < j < files.len() ==> query_kind((#[trigger] files[j]).name) != query_kind(
                        files[i].name,
                    )) implies {
                let kind = query_kind(files[i].name)->0->0;
                after.dom().contains(kind) && after[kind] == (files[i].text->Ok_0)@
            } by {
                if i < last {
                    assert forall|j: int| i < j < front.len() implies query_kind(
                        (#[trigger] front[j]).name,
                    ) != query_kind(front[i].name) by {
                        assert(files[j] == front[j]);
                    }
                    assert(query_kind(files[last].name) != query_kind(files[i].name));
                    assert(front[i] == files[i]);
                }
            }
            assert forall|kind: Seq<char>|
                #![trigger after.dom().contains(kind)]
                (forall|i: int|
                    0 <= i < files.len() ==> query_kind((#[trigger] files[i]).name) != Some(
                        Some(kind),
                    )) implies after.dom().contains(kind) == queries.dom().contains(kind)
                && after[kind] == queries[kind] by {
                assert forall|i: int| 0 <= i < front.len() implies query_kind(
                    (#[trigger] front[i]).name,
                ) != Some(Some(kind)) by {
                    assert(files[i] == front[i]);
                }
                assert(query_kind(files[last].name) != Some(Some(kind)));
                assert(before->Ok_0.dom().contains(kind) == queries.dom().contains(kind));
            }
        }
        if forall|i: int| 0 <= i < files.len() ==> can_be_taken(#[trigger] files[i]) {
            assert forall|i: int| 0 <= i < front.len() implies can_be_taken(#[trigger] front[i]) by {
                assert(can_be_taken(files[i]));
            }
            assert(can_be_taken(files[last]));
        }
        assert forall|i: int|
            #![trigger files[i]]
            0 <= i < files.len() && !can_be_taken(files[i]) && (forall|j: int|
                0 <= j < i ==> can_be_taken(#[trigger] files[j])) implies {
            &&& res is Err
            &&& query_kind(files[i].name) is None ==> res->Err_0 == (
            QueryBundleErrorView::InvalidFilename { language, path: files[i].path@ })
            &&& query_kind(files[i].name) is Some ==> res->Err_0 == (QueryBundleErrorView::Io {
                language,
                path: files[i].path@,
                source: (files[i].text->Err_0)@,
            })
        } by {
            assert forall|j: int| 0 <= j < i implies can_be_taken(#[trigger] front[j]) by {
                assert(can_be_taken(files[j]));
            }
            if i < last {
                assert(front[i] == files[i]);
            } else {
                assert forall|j: int| 0 <= j < front.len() implies can_be_taken(
                    #[trigger] front[j],
                ) by {
                    assert(can_be_taken(files[j]));
                }
            }
        }
    }
}

/// The kinds of files can be told unless the name of a query file is not text; the first such file
/// is named. They are the kinds of the query files, whether these can be read or not.
pub proof fn lemma_kinds_of_files(files: Seq<QueryFile>, language: Seq<char>)
    ensures
        ({
            let res = kinds_in(files, language);
            &&& res is Ok <==> forall|i: int|
                0 <= i < files.len() ==> query_kind((#[trigger] files[i]).name) is Some
            &&& (res matches Ok(kinds) ==> forall|kind: Seq<char>| #[trigger]
                kinds.contains(kind) <==> exists|i: int|
                    0 <= i < files.len() && query_kind((#[trigger] files[i]).name) == Some(
                        Some(kind),
                    ))
            &&& forall|i: int|
                #![trigger files[i]]
                0 <= i < files.len() && query_kind(files[i].name) is None && (forall|j: int|
                    0 <= j < i ==> query_kind((#[trigger] files[j]).name) is Some) ==> res is Err
                    && res->Err_0 == (QueryBundleErrorView::InvalidFilename {
                    language,
                    path: files[i].path@,
                })
        }),
    decreases files.len(),
{
    if files.len() > 0 {
        let front = files.drop_last();
        let last = files.len() - 1;
        lemma_kinds_of_files(front, language);
        let before = kinds_in(front, language);
        let res = kinds_in(files, language);
        assert forall|i: int| 0 <= i < last implies #[trigger] files[i] == front[i] by {}
        assert(files[last] == files.last());
        if res is Ok {
            assert forall|i: int| 0 <= i < files.len() implies query_kind(
                (#[trigger] files[i]).name,
            ) is Some by {
                if i < last {
                    assert(query_kind(front[i].name) is Some);
                }
            }
            let kinds = res->Ok_0;
            assert forall|kind: Seq<char>| #[trigger] kinds.contains(kind) <==> exists|i: int|
                0 <= i < files.len() && query_kind((#[trigger] files[i]).name) == Some(
                    Some(kind),
                ) by {
                if kinds.contains(kind) {
                    if before->Ok_0.contains(kind) {
                        let i = choose|i: int|
                            0 <= i < front.len() && query_kind((#[trigger] front[i]).name) == Some(
                                Some(kind),
                            );
                        assert(files[i] == front[i]);
                    } else {
                        assert(query_kind(files[last].name) == Some(Some(kind)));
                    }
                }
                if exists|i: int|
                    0 <= i < files.len() && query_kind((#[trigger] files[i]).name) == Some(
                        Some(kind),
                    ) {
                    let i = choose|i: int|
                        0 <= i < files.len() && query_kind((#[trigger] files[i]).name) == Some(
                            Some(kind),
                        );
                    if i < last {
                        assert(front[i] == files[i]);
                        assert(before->Ok_0.contains(kind));
                    }
                }
            }
        }
        if forall|i: int| 0 <= i < files.len() ==> query_kind((#[trigger] files[i]).name) is Some {
            assert forall|i: int| 0 <= i < front.len() implies query_kind(
                (#[trigger] front[i]).name,
            ) is Some by {
                assert(files[i] == front[i]);
            }
            assert(query_kind(files[last].name) is Some);
        }
        assert forall|i: int|
            #![trigger files[i]]
            0 <= i < files.len() && query_kind(files[i].name) is None && (forall|j: int|
                0 <= j < i ==> query_kind((#[trigger] files[j]).name) is Some) implies res is Err
            && res->Err_0 == (QueryBundleErrorView::InvalidFilename {
            language,
            path: files[i].path@,
        }) by {
            assert forall|j: int| 0 <= j < i implies query_kind((#[trigger] front[j]).name) is Some by {
                assert(files[j] == front[j]);
            }
            if i < last {
                assert(front[i] == files[i]);
            }
        }
    }
}

/// A root without a directory for a language adds nothing to it. A directory that cannot be listed
/// stops the language, and is named; of one that can be listed the files decide.
pub proof fn lemma_directory_of_a_root(
    roots: Seq<QueryRoot>,
    root: QueryRoot,
    language: Seq<char>,
)
    requires
        kinds_under(roots, language) is Ok,
        raw_under(roots, language) is Ok,
    ensures
        ({
            let kinds = kinds_under(roots.push(root), language);
            let texts = raw_under(roots.push(root), language);
            match dir_of(root.languages@, language, 0) {
                None => kinds == kinds_under(roots, language) && texts == raw_under(roots, language),
                Some(at) => {
                    let dir = root.languages@[at];
                    match dir.unlisted {
                        Some(source) => {
                            let error = QueryBundleErrorView::Io {
                                language,
                                path: dir.path@,
                                source: source@,
                            };
                            kinds is Err && kinds->Err_0 == error && texts is Err && texts->Err_0
                                == error
                        },
                        None => {
                            &&& kinds is Ok <==> kinds_in(dir.files@, language) is Ok
                            &&& kinds is Ok ==> kinds->Ok_0 == kinds_under(
                                roots,
                                language,
                            )->Ok_0.union(kinds_in(dir.files@, language)->Ok_0)
                            &&& kinds is Err ==> kinds->Err_0 == kinds_in(
                                dir.files@,
                                language,
                            )->Err_0
                            &&& texts == raw_in(
                                by_path(dir.files@),
                                language,
                                raw_under(roots, language)->Ok_0,
                            )
                        },
                    }
                },
            }
        }),
{
    assert(roots.push(root).drop_last() =~= roots);
}

} // verus!
