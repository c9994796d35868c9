//! Grammar libraries: how they are named, and where they are found.
use crate::byte_text::same_text;
use crate::grammar_build::{extension_on, family_on, library_extension, system_family, Platform};
use crate::paths::{join_on, joined_on, SystemFamily};
use vstd::prelude::*;

verus! {

/// Why a grammar cannot be had.
#[derive(Debug, PartialEq, Eq)]
pub enum GrammarError {
    /// No library holds the grammar, or no language has that name.
    NotFound(String),
    /// A library cannot be loaded.
    Load { path: String, source: String },
}

/// Why a grammar cannot be had, with strings as sequences of characters.
pub enum GrammarErrorView {
    NotFound(Seq<char>),
    Load { path: Seq<char>, source: Seq<char> },
}

impl View for GrammarError {
    type V = GrammarErrorView;

    open spec fn view(&self) -> GrammarErrorView {
        match *self {
            GrammarError::NotFound(name) => GrammarErrorView::NotFound(name@),
            GrammarError::Load { path, source } => GrammarErrorView::Load {
                path: path@,
                source: source@,
            },
        }
    }
}

impl Clone for GrammarError {
    fn clone(&self) -> (copy: Self)
        ensures
            copy == *self,
    {
        match self {
            GrammarError::NotFound(name) => GrammarError::NotFound(name.clone()),
            GrammarError::Load { path, source } => GrammarError::Load {
                path: path.clone(),
                source: source.clone(),
            },
        }
    }
}

/// A directory with libraries.
#[derive(Debug, PartialEq, Eq)]
pub struct GrammarDir {
    pub path: String,
    /// The names of the files in the directory.
    pub files: Vec<String>,
}

/// A name with its hyphens turned into underscores.
pub open spec fn underscored(name: Seq<char>) -> Seq<char> {
    Seq::new(
        name.len(),
        |i: int|
            if name[i] == '-' {
                '_'
            } else {
                name[i]
            },
    )
}

/// The file name of the library that holds a grammar.
pub open spec fn library_name(grammar: Seq<char>, extension: Seq<char>) -> Seq<char> {
    "lib"@ + underscored(grammar) + "."@ + extension
}

/// Turns the hyphens of a name into underscores.
pub fn underscore(name: &str) -> (turned: String)
    ensures
        turned@ == underscored(name@),
{
    let len: usize = name.unicode_len();
    let mut turned = String::new();
    assert(turned@ =~= underscored(name@).take(0));
    for i in 0..len
        invariant
            len == name@.len(),
            turned@ == underscored(name@).take(i as int),
    {
        proof {
            reveal_strlit("_");
        }
        if name.get_char(i) == '-' {
            turned.append("_");
        } else {
            turned.append(name.substring_char(i, i + 1));
        }
        assert(turned@ =~= underscored(name@).take(i + 1));
    }
    assert(underscored(name@).take(len as int) =~= underscored(name@));
    turned
}

/// Builds the file name of the library that holds a grammar.
pub fn library_file_name(grammar: &str, extension: &str) -> (name: String)
    ensures
        name@ == library_name(grammar@, extension@),
{
    let mut name = "lib".to_owned();
    name.append(&underscore(grammar));
    name.append(".");
    name.append(extension);
    name
}

/// Whether a directory has a file of a name.
pub open spec fn holds(dir: GrammarDir, name: Seq<char>) -> bool {
    exists|i: int| 0 <= i < dir.files.len() && (#[trigger] dir.files@[i])@ == name
}

/// The first directory that has a file of a name, from the place `from` on.
pub open spec fn first_holding(dirs: Seq<GrammarDir>, name: Seq<char>, from: int) -> Option<int>
    decreases dirs.len() - from,
{
    if from < 0 || from >= dirs.len() {
        None
    } else if holds(dirs[from], name) {
        Some(from)
    } else {
        first_holding(dirs, name, from + 1)
    }
}

/// The path of the library that holds a grammar.
pub open spec fn library_path(
    dirs: Seq<GrammarDir>,
    grammar: Seq<char>,
    platform: Platform,
) -> Option<Seq<char>> {
    let name = library_name(grammar, extension_on(platform));
    match first_holding(dirs, name, 0) {
        Some(at) => Some(joined_on(family_on(platform), dirs[at].path@, name)),
        None => None,
    }
}

/// Tells whether a directory has a file of a name.
fn has_file(dir: &GrammarDir, name: &str) -> (found: bool)
    ensures
        found == holds(*dir, name@),
{
    for i in 0..dir.files.len()
        invariant
            forall|k: int| 0 <= k < i ==> (#[trigger] dir.files@[k])@ != name@,
    {
        if same_text(&dir.files[i], name) {
            return true;
        }
    }
    false
}

/// Finds the library that holds a grammar. Earlier directories come first.
pub fn locate_grammar_library(grammar_name: &str, platform: Platform, dirs: &[GrammarDir]) -> (path:
    Option<String>)
    ensures
        match path {
            Some(path) => library_path(dirs@, grammar_name@, platform) == Some(path@),
            None => library_path(dirs@, grammar_name@, platform) is None,
        },
{
    let name = library_file_name(grammar_name, library_extension(platform));
    for i in 0..dirs.len()
        invariant
            name@ == library_name(grammar_name@, extension_on(platform)),
            first_holding(dirs@, name@, 0) == first_holding(dirs@, name@, i as int),
    {
        if has_file(&dirs[i], &name) {
            return Some(join_on(system_family(platform), &dirs[i].path, &name));
        }
    }
    None
}

/// The file of a grammar begins with `lib` and ends with the extension of the platform behind a
/// dot. Between them stands the name of the grammar, in which nothing but the hyphens is changed.
pub proof fn lemma_library_name(grammar: Seq<char>, extension: Seq<char>)
    ensures
        ({
            let name = library_name(grammar, extension);
            &&& name.len() == grammar.len() + extension.len() + 4
            &&& name.take(3) == seq!['l', 'i', 'b']
            &&& forall|i: int|
                0 <= i < grammar.len() ==> #[trigger] name[i + 3] == if grammar[i] == '-' {
                    '_'
                } else {
                    grammar[i]
                }
            &&& name.skip(grammar.len() as int + 3) == seq!['.'] + extension
        }),
{
    reveal_strlit("lib");
    reveal_strlit(".");
    let name = library_name(grammar, extension);
    assert(name.take(3) =~= seq!['l', 'i', 'b']);
    assert(name.skip(grammar.len() as int + 3) =~= seq!['.'] + extension);
}

proof fn lemma_first_holding(dirs: Seq<GrammarDir>, name: Seq<char>, from: int)
    requires
        0 <= from <= dirs.len(),
    ensures
        match first_holding(dirs, name, from) {
            Some(at) => {
                &&& from <= at < dirs.len()
                &&& holds(dirs[at], name)
                &&& forall|d: int| from <= d < at ==> !holds(#[trigger] dirs[d], name)
            },
            None => forall|d: int| from <= d < dirs.len() ==> !holds(#[trigger] dirs[d], name),
        },
    decreases dirs.len() - from,
{
    if from < dirs.len() && !holds(dirs[from], name) {
        lemma_first_holding(dirs, name, from + 1);
    }
}

/// A grammar is found if one of the directories has a file of its name, in the first of these. The
/// files of Linux and of other kinds of Unix end with `so`, those of macOS with `dylib`, and those
/// of Windows with `dll`.
pub proof fn lemma_where_a_grammar_is(
    dirs: Seq<GrammarDir>,
    grammar: Seq<char>,
    platform: Platform,
) -> (at: int)
    ensures
        ({
            let ending = match platform {
                Platform::Linux => seq!['s', 'o'],
                Platform::OtherUnix => seq!['s', 'o'],
                Platform::MacOs => seq!['d', 'y', 'l', 'i', 'b'],
                Platform::Windows => seq!['d', 'l', 'l'],
            };
            let family = if platform is Windows {
                SystemFamily::Windows
            } else {
                SystemFamily::Unix
            };
            let name = library_name(grammar, ending);
            &&& 0 <= at <= dirs.len()
            &&& forall|d: int, i: int|
                0 <= d < at && 0 <= i < dirs[d].files@.len() ==> (#[trigger] dirs[d].files@[i])@
                    != name
            &&& at < dirs.len() ==> (exists|i: int|
                0 <= i < dirs[at].files@.len() && (#[trigger] dirs[at].files@[i])@ == name)
                && library_path(dirs, grammar, platform) == Some(
                joined_on(family, dirs[at].path@, name),
            )
            &&& at == dirs.len() ==> library_path(dirs, grammar, platform) is None
        }),
{
    reveal_strlit("so");
    reveal_strlit("dylib");
    reveal_strlit("dll");
    assert("so"@ =~= seq!['s', 'o']);
    assert("dylib"@ =~= seq!['d', 'y', 'l', 'i', 'b']);
    assert("dll"@ =~= seq!['d', 'l', 'l']);
    let name = library_name(grammar, extension_on(platform));
    lemma_first_holding(dirs, name, 0);
    let at = match first_holding(dirs, name, 0) {
        Some(at) => at,
        None => dirs.len() as int,
    };
    assert forall|d: int, i: int|
        0 <= d < at && 0 <= i < dirs[d].files@.len() implies (#[trigger] dirs[d].files@[i])@
        != name by {
        assert(!holds(dirs[d], name));
    }
    at
}

} // verus!
