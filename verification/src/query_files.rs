//! Query files: where they are found, and what they say with all that they inherit.
use crate::byte_text::same_text;
use crate::inherits::{
    answers_by, expanded, lemma_cycles_close, lemma_read_errors_tell, read_query, INHERIT_DEPTH,
    ReadQueryError, ReadQueryErrorView,
};
use crate::parts::texts_of;
use vstd::prelude::*;

verus! {

/// The name of a file.
#[derive(Debug, PartialEq, Eq)]
pub enum FileName {
    Text(String),
    /// A name that is not text, although its extension may be.
    NotText { extension: Option<String> },
}

/// A file of a directory.
#[derive(Debug, PartialEq, Eq)]
pub struct QueryFile {
    pub name: FileName,
    pub path: String,
    /// What the file holds, or why it cannot be read.
    pub text: Result<String, String>,
}

/// The query files of a language under one root.
#[derive(Debug, PartialEq, Eq)]
pub struct LanguageDir {
    pub language: String,
    pub path: String,
    pub files: Vec<QueryFile>,
    /// Why the directory cannot be listed, if it cannot.
    pub unlisted: Option<String>,
}

/// A directory with one directory of query files for each language.
#[derive(Debug, PartialEq, Eq)]
pub struct QueryRoot {
    pub path: String,
    pub languages: Vec<LanguageDir>,
}

/// A place of a file.
#[derive(Debug, Clone, Copy, PartialEq, Eq, Structural)]
pub struct FilePlace {
    pub root: usize,
    pub dir: usize,
    pub file: usize,
}

/// Whether a file has a name.
pub open spec fn is_named(file: QueryFile, name: Seq<char>) -> bool {
    file.name matches FileName::Text(text) && text@ == name
}

/// The first of some files that has a name, from the place `from` on.
pub open spec fn file_named(files: Seq<QueryFile>, name: Seq<char>, from: int) -> Option<int>
    decreases files.len() - from,
{
    if from < 0 || from >= files.len() {
        None
    } else if is_named(files[from], name) {
        Some(from)
    } else {
        file_named(files, name, from + 1)
    }
}

/// The directory of a language, from the place `from` on.
pub open spec fn dir_of(dirs: Seq<LanguageDir>, language: Seq<char>, from: int) -> Option<int>
    decreases dirs.len() - from,
{
    if from < 0 || from >= dirs.len() {
        None
    } else if dirs[from].language@ == language {
        Some(from)
    } else {
        dir_of(dirs, language, from + 1)
    }
}

/// The place of a file in the last root that has it. Later roots override earlier ones.
pub open spec fn place_of(
    roots: Seq<QueryRoot>,
    language: Seq<char>,
    filename: Seq<char>,
) -> Option<FilePlace>
    decreases roots.len(),
{
    if roots.len() == 0 {
        None
    } else {
        let dirs = roots.last().languages@;
        match dir_of(dirs, language, 0) {
            Some(dir) => match file_named(dirs[dir].files@, filename, 0) {
                Some(file) => Some(
                    FilePlace {
                        root: (roots.len() - 1) as usize,
                        dir: dir as usize,
                        file: file as usize,
                    },
                ),
                None => place_of(roots.drop_last(), language, filename),
            },
            None => place_of(roots.drop_last(), language, filename),
        }
    }
}

/// The file at a place.
pub open spec fn file_at(roots: Seq<QueryRoot>, place: FilePlace) -> QueryFile {
    roots[place.root as int].languages@[place.dir as int].files@[place.file as int]
}

/// Whether there is a file at a place.
pub open spec fn is_place(roots: Seq<QueryRoot>, place: FilePlace) -> bool {
    &&& place.root < roots.len()
    &&& place.dir < roots[place.root as int].languages.len()
    &&& place.file < roots[place.root as int].languages@[place.dir as int].files.len()
}

/// Why a query file cannot be read.
#[derive(Debug, Clone, Copy, PartialEq, Eq, Structural)]
pub enum FileProblem {
    NotFound,
    Unreadable(FilePlace),
}

/// What the query file of a language says.
pub open spec fn file_answer(
    roots: Seq<QueryRoot>,
    language: Seq<char>,
    filename: Seq<char>,
) -> Result<Seq<char>, FileProblem> {
    match place_of(roots, language, filename) {
        Some(place) => match file_at(roots, place).text {
            Ok(text) => Ok(text@),
            Err(_) => Err(FileProblem::Unreadable(place)),
        },
        None => Err(FileProblem::NotFound),
    }
}

/// Why a query cannot be read.
#[derive(Debug, PartialEq, Eq)]
pub enum QueryReadError {
    /// The language has no such query file.
    RootNotFound { language: String, filename: String },
    /// A language that is inherited from has no such query file.
    InheritedNotFound { language: String, filename: String },
    /// A query file cannot be read.
    Io { path: String, source: String },
    /// A language inherits from itself.
    InheritCycle { chain: Vec<String> },
    /// Languages inherit from ever new languages.
    InheritEndless { language: String },
}

/// Why a query cannot be read, with strings as sequences of characters.
#[verifier::ext_equal]
pub enum QueryReadErrorView {
    RootNotFound { language: Seq<char>, filename: Seq<char> },
    InheritedNotFound { language: Seq<char>, filename: Seq<char> },
    Io { path: Seq<char>, source: Seq<char> },
    InheritCycle { chain: Seq<Seq<char>> },
    InheritEndless { language: Seq<char> },
}

impl View for QueryReadError {
    type V = QueryReadErrorView;

    open spec fn view(&self) -> QueryReadErrorView {
        match *self {
            QueryReadError::RootNotFound { language, filename } => {
                QueryReadErrorView::RootNotFound { language: language@, filename: filename@ }
            },
            QueryReadError::InheritedNotFound { language, filename } => {
                QueryReadErrorView::InheritedNotFound { language: language@, filename: filename@ }
            },
            QueryReadError::Io { path, source } => QueryReadErrorView::Io {
                path: path@,
                source: source@,
            },
            QueryReadError::InheritCycle { chain } => QueryReadErrorView::InheritCycle {
                chain: texts_of(chain@),
            },
            QueryReadError::InheritEndless { language } => QueryReadErrorView::InheritEndless {
                language: language@,
            },
        }
    }
}

/// The error of a file that cannot be read.
pub open spec fn unreadable(file: QueryFile) -> QueryReadErrorView {
    QueryReadErrorView::Io { path: file.path@, source: file.text->Err_0@ }
}

/// The query texts under some roots.
pub open spec fn texts_under(
    roots: Seq<QueryRoot>,
    filename: Seq<char>,
) -> spec_fn(Seq<char>) -> Result<Seq<char>, FileProblem> {
    |language: Seq<char>| file_answer(roots, language, filename)
}

/// What a query file of a language says with all that it inherits, if it is there.
pub open spec fn optional_query(
    roots: Seq<QueryRoot>,
    language: Seq<char>,
    filename: Seq<char>,
) -> Result<Option<Seq<char>>, QueryReadErrorView> {
    match expanded(
        texts_under(roots, filename),
        language,
        Seq::empty(),
        INHERIT_DEPTH as nat,
    ) {
        Ok(text) => Ok(Some(text)),
        // That the file of the language itself is missing is no error.
        Err(ReadQueryErrorView::Read { language: missing, source: FileProblem::NotFound }) => if missing
            == language {
            Ok(None)
        } else {
            Err(QueryReadErrorView::InheritedNotFound { language: missing, filename })
        },
        Err(ReadQueryErrorView::Read { language: _, source: FileProblem::Unreadable(place) }) => Err(
            unreadable(file_at(roots, place)),
        ),
        Err(ReadQueryErrorView::Cycle { chain }) => Err(QueryReadErrorView::InheritCycle { chain }),
        Err(ReadQueryErrorView::Endless { language }) => Err(
            QueryReadErrorView::InheritEndless { language },
        ),
    }
}

/// What a query file of a language says with all that it inherits.
pub open spec fn required_query(
    roots: Seq<QueryRoot>,
    language: Seq<char>,
    filename: Seq<char>,
) -> Result<Seq<char>, QueryReadErrorView> {
    match optional_query(roots, language, filename) {
        Ok(Some(text)) => Ok(text),
        Ok(None) => Err(QueryReadErrorView::RootNotFound { language, filename }),
        Err(error) => Err(error),
    }
}

/// Finds the first of some files that has a name.
pub fn find_file(files: &Vec<QueryFile>, name: &str) -> (at: Option<usize>)
    ensures
        match at {
            Some(at) => file_named(files@, name@, 0) == Some(at as int) && at < files.len(),
            None => file_named(files@, name@, 0) is None,
        },
{
    for i in 0..files.len()
        invariant
            file_named(files@, name@, 0) == file_named(files@, name@, i as int),
    {
        if let FileName::Text(text) = &files[i].name {
            if same_text(text, name) {
                return Some(i);
            }
        }
    }
    None
}

/// Finds the directory of a language.
pub fn find_dir(dirs: &Vec<LanguageDir>, language: &str) -> (at: Option<usize>)
    ensures
        match at {
            Some(at) => dir_of(dirs@, language@, 0) == Some(at as int) && at < dirs.len(),
            None => dir_of(dirs@, language@, 0) is None,
        },
{
    for i in 0..dirs.len()
        invariant
            dir_of(dirs@, language@, 0) == dir_of(dirs@, language@, i as int),
    {
        if same_text(&dirs[i].language, language) {
            return Some(i);
        }
    }
    None
}

/// Finds the place of a file in the last root that has it.
pub fn find_place(roots: &[QueryRoot], language: &str, filename: &str) -> (place: Option<FilePlace>)
    ensures
        place == place_of(roots@, language@, filename@),
        place matches Some(place) ==> is_place(roots@, place),
{
    let mut left: usize = roots.len();
    assert(roots@.take(left as int) =~= roots@);
    while left > 0
        invariant
            left <= roots.len(),
            place_of(roots@, language@, filename@) == place_of(
                roots@.take(left as int),
                language@,
                filename@,
            ),
        decreases left,
    {
        assert(roots@.take(left as int).drop_last() =~= roots@.take(left - 1));
        assert(roots@.take(left as int).last() == roots@[left - 1]);
        left = left - 1;
        let dirs = &roots[left].languages;
        if let Some(dir) = find_dir(dirs, language) {
            if let Some(file) = find_file(&dirs[dir].files, filename) {
                return Some(FilePlace { root: left, dir, file });
            }
        }
    }
    None
}

/// Reads the query file of a language.
pub fn read_query_text(roots: &[QueryRoot], language: &str, filename: &str) -> (res: Result<
    String,
    FileProblem,
>)
    ensures
        file_answer(roots@, language@, filename@) == match res {
            Ok(text) => Ok::<Seq<char>, FileProblem>(text@),
            Err(problem) => Err::<Seq<char>, FileProblem>(problem),
        },
        res matches Err(FileProblem::Unreadable(place)) ==> is_place(roots@, place),
{
    match find_place(roots, language, filename) {
        Some(place) => match &roots[place.root].languages[place.dir].files[place.file].text {
            Ok(text) => Ok(text.clone()),
            Err(_) => Err(FileProblem::Unreadable(place)),
        },
        None => Err(FileProblem::NotFound),
    }
}

/// The place of an unreadable file is a place of a file.
proof fn lemma_place(roots: Seq<QueryRoot>, language: Seq<char>, filename: Seq<char>)
    requires
        roots.len() <= usize::MAX,
    ensures
        place_of(roots, language, filename) matches Some(place) ==> is_place(roots, place),
    decreases roots.len(),
{
    if roots.len() > 0 {
        let dirs = roots.last().languages@;
        lemma_dir_in(dirs, language, 0);
        if let Some(dir) = dir_of(dirs, language, 0) {
            lemma_file_in(dirs[dir].files@, filename, 0);
        }
        lemma_place(roots.drop_last(), language, filename);
        if let Some(place) = place_of(roots.drop_last(), language, filename) {
            assert(roots.drop_last()[place.root as int] == roots[place.root as int]);
        }
    }
}

proof fn lemma_dir_in(dirs: Seq<LanguageDir>, language: Seq<char>, from: int)
    ensures
        dir_of(dirs, language, from) matches Some(at) ==> 0 <= at < dirs.len(),
    decreases dirs.len() - from,
{
    if 0 <= from < dirs.len() {
        lemma_dir_in(dirs, language, from + 1);
    }
}

proof fn lemma_file_in(files: Seq<QueryFile>, name: Seq<char>, from: int)
    ensures
        file_named(files, name, from) matches Some(at) ==> 0 <= at < files.len(),
    decreases files.len() - from,
{
    if 0 <= from < files.len() {
        lemma_file_in(files, name, from + 1);
    }
}

/// Reads a query file with all that it inherits, if it is there.
pub fn read_optional_query_from_paths(lang: &str, filename: &str, roots: &[QueryRoot]) -> (res:
    Result<Option<String>, QueryReadError>)
    ensures
        match res {
            Ok(Some(text)) => optional_query(roots@, lang@, filename@) == Ok::<
                Option<Seq<char>>,
                QueryReadErrorView,
            >(Some(text@)),
            Ok(None) => optional_query(roots@, lang@, filename@) == Ok::<
                Option<Seq<char>>,
                QueryReadErrorView,
            >(None),
            Err(error) => optional_query(roots@, lang@, filename@) == Err::<
                Option<Seq<char>>,
                QueryReadErrorView,
            >(error@),
        },
{
    let reader = |query_lang: &str| -> (res: Result<String, FileProblem>)
        ensures
            file_answer(roots@, query_lang@, filename@) == match res {
                Ok(text) => Ok::<Seq<char>, FileProblem>(text@),
                Err(problem) => Err::<Seq<char>, FileProblem>(problem),
            },
        { read_query_text(roots, query_lang, filename) };
    let ghost texts = texts_under(roots@, filename@);
    assert(answers_by(&reader, texts));
    proof {
        lemma_read_errors_tell(texts, lang@, Seq::empty(), INHERIT_DEPTH as nat);
    }
    match read_query(lang, reader) {
        Ok(query) => Ok(Some(query)),
        Err(ReadQueryError::Read { language, source: FileProblem::NotFound }) => {
            if same_text(&language, lang) {
                Ok(None)
            } else {
                Err(QueryReadError::InheritedNotFound { language, filename: filename.to_owned() })
            }
        },
        Err(ReadQueryError::Read { language, source: FileProblem::Unreadable(place) }) => {
            let count: usize = roots.len();
            proof {
                assert(roots@.len() == count);
                lemma_place(roots@, language@, filename@);
                assert(texts(language@) == file_answer(roots@, language@, filename@));
            }
            let file = &roots[place.root].languages[place.dir].files[place.file];
            let source = match &file.text {
                Ok(_) => String::new(),
                Err(source) => source.clone(),
            };
            Err(QueryReadError::Io { path: file.path.clone(), source })
        },
        Err(ReadQueryError::Cycle { chain }) => Err(QueryReadError::InheritCycle { chain }),
        Err(ReadQueryError::Endless { language }) => Err(
            QueryReadError::InheritEndless { language },
        ),
    }
}

/// Reads a query file with all that it inherits.
pub fn read_query_from_paths(lang: &str, filename: &str, roots: &[QueryRoot]) -> (res: Result<
    String,
    QueryReadError,
>)
    ensures
        match res {
            Ok(text) => required_query(roots@, lang@, filename@) == Ok::<
                Seq<char>,
                QueryReadErrorView,
            >(text@),
            Err(error) => required_query(roots@, lang@, filename@) == Err::<
                Seq<char>,
                QueryReadErrorView,
            >(error@),
        },
{
    match read_optional_query_from_paths(lang, filename, roots) {
        Ok(Some(text)) => Ok(text),
        Ok(None) => Err(
            QueryReadError::RootNotFound {
                language: lang.to_owned(),
                filename: filename.to_owned(),
            },
        ),
        Err(error) => Err(error),
    }
}

/// A root that holds a query file overrides all roots before it.
pub proof fn lemma_later_roots_override(
    roots: Seq<QueryRoot>,
    language: Seq<char>,
    filename: Seq<char>,
)
    requires
        0 < roots.len() <= usize::MAX,
        place_of(seq![roots.last()], language, filename) is Some,
    ensures
        file_answer(roots, language, filename) is Ok == file_answer(
            seq![roots.last()],
            language,
            filename,
        ) is Ok,
        file_answer(roots, language, filename) matches Ok(text) ==> file_answer(
            seq![roots.last()],
            language,
            filename,
        ) == Ok::<Seq<char>, FileProblem>(text),
{
    let last = seq![roots.last()];
    assert(last.drop_last() =~= Seq::empty());
    assert(place_of(last.drop_last(), language, filename) is None);
    let dirs = roots.last().languages@;
    lemma_dir_in(dirs, language, 0);
    if let Some(dir) = dir_of(dirs, language, 0) {
        lemma_file_in(dirs[dir].files@, filename, 0);
    }
}

/// Whether a root has a file of a language, and where: in the first directory of the language, the
/// first file of that name.
pub open spec fn has_at(
    root: QueryRoot,
    language: Seq<char>,
    filename: Seq<char>,
    dir: int,
    file: int,
) -> bool {
    let files = root.languages@[dir].files@;
    &&& 0 <= dir < root.languages@.len()
    &&& root.languages@[dir].language@ == language
    &&& forall|d: int| 0 <= d < dir ==> (#[trigger] root.languages@[d]).language@ != language
    &&& 0 <= file < files.len()
    &&& files[file].name matches FileName::Text(text) && text@ == filename
    &&& forall|f: int|
        0 <= f < file ==> !((#[trigger] files[f]).name matches FileName::Text(text) && text@
            == filename)
}

proof fn lemma_dir_of(dirs: Seq<LanguageDir>, language: Seq<char>, from: int)
    requires
        0 <= from <= dirs.len(),
    ensures
        match dir_of(dirs, language, from) {
            Some(at) => {
                &&& from <= at < dirs.len()
                &&& dirs[at].language@ == language
                &&& forall|d: int| from <= d < at ==> (#[trigger] dirs[d]).language@ != language
            },
            None => forall|d: int|
                from <= d < dirs.len() ==> (#[trigger] dirs[d]).language@ != language,
        },
    decreases dirs.len() - from,
{
    if from < dirs.len() && dirs[from].language@ != language {
        lemma_dir_of(dirs, language, from + 1);
    }
}

proof fn lemma_file_named(files: Seq<QueryFile>, name: Seq<char>, from: int)
    requires
        0 <= from <= files.len(),
    ensures
        match file_named(files, name, from) {
            Some(at) => {
                &&& from <= at < files.len()
                &&& is_named(files[at], name)
                &&& forall|f: int| from <= f < at ==> !is_named(#[trigger] files[f], name)
            },
            None => forall|f: int|
                from <= f < files.len() ==> !is_named(#[trigger] files[f], name),
        },
    decreases files.len() - from,
{
    if from < files.len() && !is_named(files[from], name) {
        lemma_file_named(files, name, from + 1);
    }
}

/// A file is taken from the last root that has it, and there is none if no root has it.
pub proof fn lemma_where_a_file_is(
    roots: Seq<QueryRoot>,
    language: Seq<char>,
    filename: Seq<char>,
)
    requires
        roots.len() <= usize::MAX,
    ensures
        match place_of(roots, language, filename) {
            Some(place) => {
                &&& place.root < roots.len()
                &&& has_at(
                    roots[place.root as int],
                    language,
                    filename,
                    place.dir as int,
                    place.file as int,
                )
                &&& forall|r: int, d: int, f: int|
                    place.root < r < roots.len() ==> !#[trigger] has_at(
                        roots[r],
                        language,
                        filename,
                        d,
                        f,
                    )
            },
            None => forall|r: int, d: int, f: int|
                0 <= r < roots.len() ==> !#[trigger] has_at(roots[r], language, filename, d, f),
        },
    decreases roots.len(),
{
    if roots.len() > 0 {
        let front = roots.drop_last();
        let last = roots.len() - 1;
        let dirs = roots[last].languages@;
        lemma_where_a_file_is(front, language, filename);
        lemma_dir_of(dirs, language, 0);
        let found = dir_of(dirs, language, 0);
        if let Some(dir) = found {
            let files = dirs[dir].files@;
            lemma_file_named(files, filename, 0);
            if let Some(file) = file_named(files, filename, 0) {
                assert forall|f: int| 0 <= f < file implies !((#[trigger] files[f]).name matches FileName::Text(
                    text,
                ) && text@ == filename) by {
                    assert(!is_named(files[f], filename));
                }
                assert(has_at(roots[last], language, filename, dir, file));
                assert(dir < roots[last].languages.len());
                assert(file < dirs[dir].files.len());
            }
        }
        if found is None || file_named(dirs[found->0].files@, filename, 0) is None {
            assert forall|d: int, f: int| !#[trigger] has_at(
                roots[last],
                language,
                filename,
                d,
                f,
            ) by {
                if has_at(roots[last], language, filename, d, f) {
                    assert(dirs[d].language@ == language);
                    assert(found is Some);
                    if d < found->0 {
                        assert(dirs[d].language@ != language);
                    } else if d > found->0 {
                        assert(dirs[found->0].language@ != language);
                    }
                    assert(is_named(dirs[d].files@[f], filename));
                }
            }
            assert forall|r: int| 0 <= r < last implies #[trigger] roots[r] == front[r] by {}
            if let Some(place) = place_of(front, language, filename) {
                assert(roots[place.root as int] == front[place.root as int]);
                assert forall|r: int, d: int, f: int| place.root < r < roots.len() implies !#[trigger] has_at(
                    roots[r],
                    language,
                    filename,
                    d,
                    f,
                ) by {
                    if r < last {
                        assert(!has_at(front[r], language, filename, d, f));
                    }
                }
            } else {
                assert forall|r: int, d: int, f: int| 0 <= r < roots.len() implies !#[trigger] has_at(
                    roots[r],
                    language,
                    filename,
                    d,
                    f,
                ) by {
                    if r < last {
                        assert(!has_at(front[r], language, filename, d, f));
                    }
                }
            }
        }
    }
}

/// Only that the file of the language itself is missing is no error for an optional query, and an
/// error of its own for a required one. Besides that the two are the same.
pub proof fn lemma_missing_files(roots: Seq<QueryRoot>, language: Seq<char>, filename: Seq<char>)
    ensures
        ({
            let optional = optional_query(roots, language, filename);
            let required = required_query(roots, language, filename);
            let missing = place_of(roots, language, filename) is None;
            &&& missing <==> optional is Ok && optional->Ok_0 is None
            &&& missing ==> required is Err && required->Err_0 == (
            QueryReadErrorView::RootNotFound { language, filename })
            &&& !missing && optional is Ok ==> required is Ok && optional->Ok_0 == Some(
                required->Ok_0,
            )
            &&& !missing && optional is Err ==> required is Err && required->Err_0
                == optional->Err_0
            &&& (optional matches Err(error) ==> match error {
                QueryReadErrorView::RootNotFound { .. } => false,
                QueryReadErrorView::InheritedNotFound { language: other, filename: name } => {
                    &&& other != language
                    &&& name == filename
                    &&& place_of(roots, other, filename) is None
                },
                QueryReadErrorView::Io { path, source } => exists|other: Seq<char>|
                    (#[trigger] place_of(roots, other, filename) matches Some(place) && {
                        let file = file_at(roots, place);
                        file.path@ == path && file.text is Err && file.text->Err_0@ == source
                    }),
                QueryReadErrorView::InheritCycle { chain } => chain.len() >= 2 && chain.first()
                    == chain.last(),
                QueryReadErrorView::InheritEndless { .. } => true,
            })
        }),
{
    let texts = texts_under(roots, filename);
    let none = Seq::<Seq<char>>::empty();
    lemma_read_errors_tell(texts, language, none, INHERIT_DEPTH as nat);
    lemma_cycles_close(texts, language, none, INHERIT_DEPTH as nat);
    assert(texts(language) == file_answer(roots, language, filename));
    if let Err(ReadQueryErrorView::Read { language: other, source }) = expanded(
        texts,
        language,
        none,
        INHERIT_DEPTH as nat,
    ) {
        assert(texts(other) == file_answer(roots, other, filename));
        assert(place_of(roots, other, filename) is None || place_of(
            roots,
            other,
            filename,
        ) is Some);
    }
}

} // verus!
