//! How the sources of a grammar are fetched and built: every decision, but none of the commands.
use crate::byte_text::{strip_prefix, stripped};
use crate::grammar_files::{library_file_name, library_name};
use crate::parts::texts_of;
use crate::paths::{join_on, joined_on, parent_on, take_parent, SystemFamily};
use crate::runtime_paths::{
    cache_dir, has_path, lemma_grammar_places, path_at, runtime_dir, workspace_dir, Environment,
};
use vstd::prelude::*;

verus! {

/// A grammar and where its sources come from.
#[derive(Debug, Clone, PartialEq, Eq)]
pub struct GrammarConfig {
    pub grammar_id: String,
    pub source: GrammarSource,
}

/// Where the sources of a grammar come from.
#[derive(Debug, Clone, PartialEq, Eq)]
pub enum GrammarSource {
    /// A directory.
    Local { path: String },
    /// A revision of a repository, and the directory of the grammar in it.
    Git { remote: String, revision: String, subpath: Option<String> },
}

/// What came of a fetch.
#[derive(Debug, Clone, Copy, PartialEq, Eq, Structural)]
pub enum FetchStatus {
    /// The revision was there.
    UpToDate,
    /// The revision is there now.
    Updated,
    /// There is nothing to fetch.
    Local,
}

/// What came of a build.
#[derive(Debug, Clone, Copy, PartialEq, Eq, Structural)]
pub enum BuildStatus {
    /// The library was there, and no source is newer.
    AlreadyBuilt,
    /// The library is there now.
    Built,
}

/// Why a grammar cannot be fetched or built.
#[derive(Debug, Clone, PartialEq, Eq)]
pub enum GrammarBuildError {
    GitNotAvailable,
    GitCommand(String),
    Compilation(String),
    NoParserSource(String),
    Io(String),
}

/// Why a grammar cannot be fetched or built, with strings as sequences of characters.
pub enum BuildErrorView {
    GitNotAvailable,
    GitCommand(Seq<char>),
    Compilation(Seq<char>),
    NoParserSource(Seq<char>),
    Io(Seq<char>),
}

impl View for GrammarBuildError {
    type V = BuildErrorView;

    open spec fn view(&self) -> BuildErrorView {
        match *self {
            GrammarBuildError::GitNotAvailable => BuildErrorView::GitNotAvailable,
            GrammarBuildError::GitCommand(text) => BuildErrorView::GitCommand(text@),
            GrammarBuildError::Compilation(text) => BuildErrorView::Compilation(text@),
            GrammarBuildError::NoParserSource(path) => BuildErrorView::NoParserSource(path@),
            GrammarBuildError::Io(text) => BuildErrorView::Io(text@),
        }
    }
}

/// The system that libraries are built for.
#[derive(Debug, Clone, Copy, PartialEq, Eq, Structural)]
pub enum Platform {
    Linux,
    MacOs,
    OtherUnix,
    Windows,
}

/// The directory of the sources that were fetched.
pub open spec fn sources_dir(env: Environment) -> Seq<char> {
    joined_on(
        env.family,
        joined_on(
            env.family,
            match env.cache() {
                Some(dir) => dir,
                None => env.runtime_files(),
            },
            "grammars"@,
        ),
        "sources"@,
    )
}

/// The directory of the libraries that were built.
pub open spec fn lib_dir(env: Environment) -> Seq<char> {
    match env.workspace() {
        Some(dir) => joined_on(env.family, joined_on(env.family, dir, "target"@), "grammars"@),
        None => joined_on(
            env.family,
            match env.cache() {
                Some(dir) => dir,
                None => env.runtime_files(),
            },
            "grammars"@,
        ),
    }
}

/// The directory of the sources of a grammar.
pub open spec fn src_dir(env: Environment, grammar: GrammarConfig) -> Seq<char> {
    match grammar.source {
        GrammarSource::Local { path } => joined_on(env.family, path@, "src"@),
        GrammarSource::Git { subpath, .. } => {
            let base = joined_on(env.family, sources_dir(env), grammar.grammar_id@);
            match subpath {
                Some(subpath) => {
                    joined_on(env.family, joined_on(env.family, base, subpath@), "src"@)
                },
                None => joined_on(env.family, base, "src"@),
            }
        },
    }
}

/// Finds the directory for what can be made anew, or else that of the runtime files.
fn kept_dir(env: &Environment) -> (dir: String)
    ensures
        dir@ == match env.cache() {
            Some(dir) => dir,
            None => env.runtime_files(),
        },
{
    match cache_dir(env) {
        Some(dir) => dir,
        None => runtime_dir(env),
    }
}

/// Finds the directory of the sources that were fetched.
pub fn grammar_sources_dir(env: &Environment) -> (dir: String)
    ensures
        dir@ == sources_dir(*env),
{
    join_on(env.family, &join_on(env.family, &kept_dir(env), "grammars"), "sources")
}

/// Finds the directory of the libraries that were built.
pub fn grammar_lib_dir(env: &Environment) -> (dir: String)
    ensures
        dir@ == lib_dir(*env),
{
    match workspace_dir(env) {
        Some(dir) => join_on(env.family, &join_on(env.family, &dir, "target"), "grammars"),
        None => join_on(env.family, &kept_dir(env), "grammars"),
    }
}

/// Finds the directory of the sources of a grammar.
pub fn get_grammar_src_dir(env: &Environment, grammar: &GrammarConfig) -> (dir: String)
    ensures
        dir@ == src_dir(*env, *grammar),
{
    match &grammar.source {
        GrammarSource::Local { path } => join_on(env.family, path, "src"),
        GrammarSource::Git { subpath, .. } => {
            let base = join_on(env.family, &grammar_sources_dir(env), &grammar.grammar_id);
            match subpath {
                Some(subpath) => join_on(env.family, &join_on(env.family, &base, subpath), "src"),
                None => join_on(env.family, &base, "src"),
            }
        },
    }
}

/// The extension of the file names of libraries.
pub open spec fn extension_on(platform: Platform) -> Seq<char> {
    match platform {
        Platform::Windows => "dll"@,
        Platform::MacOs => "dylib"@,
        Platform::Linux | Platform::OtherUnix => "so"@,
    }
}

/// Finds the extension of the file names of libraries.
pub fn library_extension(platform: Platform) -> (extension: &'static str)
    ensures
        extension@ == extension_on(platform),
{
    match platform {
        Platform::Windows => "dll",
        Platform::MacOs => "dylib",
        Platform::Linux | Platform::OtherUnix => "so",
    }
}

/// The kind of system that a platform is.
pub open spec fn family_on(platform: Platform) -> SystemFamily {
    match platform {
        Platform::Windows => SystemFamily::Windows,
        Platform::Linux | Platform::MacOs | Platform::OtherUnix => SystemFamily::Unix,
    }
}

/// Finds the kind of system that a platform is.
pub fn system_family(platform: Platform) -> (family: SystemFamily)
    ensures
        family == family_on(platform),
{
    match platform {
        Platform::Windows => SystemFamily::Windows,
        Platform::Linux | Platform::MacOs | Platform::OtherUnix => SystemFamily::Unix,
    }
}

/// The path of the library that is built of a grammar.
pub open spec fn built_library(env: Environment, grammar: GrammarConfig, platform: Platform) -> Seq<
    char,
> {
    joined_on(env.family, lib_dir(env), library_name(grammar.grammar_id@, extension_on(platform)))
}

/// Finds the path of the library that is built of a grammar.
pub fn built_library_path(env: &Environment, grammar: &GrammarConfig, platform: Platform) -> (path:
    String)
    ensures
        path@ == built_library(*env, *grammar, platform),
{
    join_on(
        env.family,
        &grammar_lib_dir(env),
        &library_file_name(&grammar.grammar_id, library_extension(platform)),
    )
}

/// Whether a file is newer than a library.
pub open spec fn is_newer(source: Option<i128>, library: i128) -> bool {
    source matches Some(time) && time > library
}

/// Whether a library is to be built: it is not there, or one of its sources is newer. The files are
/// told by the times at which they were changed.
pub open spec fn is_outdated(library: Option<i128>, sources: Seq<Option<i128>>) -> bool {
    match library {
        Some(time) => exists|i: int|
            0 <= i < sources.len() && is_newer(#[trigger] sources[i], time),
        None => true,
    }
}

/// Tells whether a library is to be built.
pub fn needs_recompile(library: Option<i128>, sources: &[Option<i128>]) -> (outdated: bool)
    ensures
        outdated == is_outdated(library, sources@),
{
    let built: i128 = match library {
        Some(time) => time,
        None => return true,
    };
    for i in 0..sources.len()
        invariant
            library == Some(built),
            forall|k: int| 0 <= k < i ==> !is_newer(#[trigger] sources@[k], built),
    {
        if let Some(time) = sources[i] {
            if time > built {
                assert(is_newer(sources@[i as int], built));
                return true;
            }
        }
    }
    false
}

/// What is known of the sources and the library of a grammar. Files are told by the times at which
/// they were changed.
#[derive(Debug, Clone, PartialEq, Eq)]
pub struct BuildFacts {
    /// Whether `scanner.c` is there.
    pub has_scanner_c: bool,
    /// Whether `scanner.cc` is there.
    pub has_scanner_cc: bool,
    pub library: Option<i128>,
    pub parser_c: Option<i128>,
    pub scanner_c: Option<i128>,
    pub scanner_cc: Option<i128>,
    /// The compiler for C.
    pub cc: Option<String>,
    /// The compiler for C++.
    pub cxx: Option<String>,
}

impl BuildFacts {
    /// Whether the library is to be built.
    pub open spec fn is_stale(self) -> bool {
        is_outdated(self.library, seq![self.parser_c, self.scanner_c, self.scanner_cc])
    }
}

/// A command to run.
#[derive(Debug, Clone, PartialEq, Eq)]
pub struct CommandLine {
    pub program: String,
    pub args: Vec<String>,
}

/// The arguments of the command that builds a library.
pub open spec fn compiler_args(
    platform: Platform,
    family: SystemFamily,
    sources: Seq<char>,
    library: Seq<char>,
    facts: BuildFacts,
) -> Seq<Seq<char>> {
    let parser = joined_on(family, sources, "parser.c"@);
    let scanner_c = joined_on(family, sources, "scanner.c"@);
    let scanner_cc = joined_on(family, sources, "scanner.cc"@);
    if platform == Platform::Windows {
        seq!["/nologo"@, "/LD"@, "/O2"@, "/utf-8"@, "/I"@ + sources, "/Fe:"@ + library, parser] + (
        if facts.has_scanner_cc {
            seq!["/std:c++14"@, scanner_cc]
        } else if facts.has_scanner_c {
            seq![scanner_c]
        } else {
            seq![]
        })
    } else {
        seq![
            "-shared"@,
            "-fPIC"@,
            "-O3"@,
            "-fno-exceptions"@,
            "-I"@,
            sources,
            "-o"@,
            library,
            parser,
        ] + (if facts.has_scanner_cc {
            seq!["-std=c++14"@, "-lstdc++"@, scanner_cc]
        } else if facts.has_scanner_c {
            seq![scanner_c]
        } else {
            seq![]
        }) + (if platform == Platform::Linux {
            seq!["-Wl,-z,relro,-z,now"@]
        } else {
            seq![]
        })
    }
}

/// The program that builds a library, if it is known.
pub open spec fn compiler(platform: Platform, facts: BuildFacts) -> Option<Seq<char>> {
    match path_at(
        if facts.has_scanner_cc {
            facts.cxx
        } else {
            facts.cc
        },
    ) {
        Some(program) => Some(
            if platform == Platform::Windows {
                "cl.exe"@
            } else {
                program
            },
        ),
        None => None,
    }
}

/// What to say if there is no compiler.
pub open spec fn no_compiler(grammar: Seq<char>, needs_cxx: bool) -> Seq<char> {
    if needs_cxx {
        "C++ compiler required for "@ + grammar
            + " but none found. Install clang++/g++ or set CXX."@
    } else {
        "C compiler required but none found. Install clang/gcc or set CC."@
    }
}

/// Adds an argument.
fn add_arg(args: &mut Vec<String>, arg: &str)
    ensures
        texts_of(final(args)@) == texts_of(old(args)@).push(arg@),
{
    let ghost before = texts_of(args@);
    args.push(arg.to_owned());
    assert(texts_of(args@) =~= before.push(arg@));
}

/// Puts two texts together.
fn concat(front: &str, back: &str) -> (whole: String)
    ensures
        whole@ == front@ + back@,
{
    let mut whole = front.to_owned();
    whole.append(back);
    whole
}

/// Finds the arguments of the command that builds a library.
fn collect_args(
    platform: Platform,
    family: SystemFamily,
    src_dir: &str,
    lib_path: &str,
    facts: &BuildFacts,
) -> (args: Vec<String>)
    ensures
        texts_of(args@) == compiler_args(platform, family, src_dir@, lib_path@, *facts),
{
    let mut args: Vec<String> = Vec::new();
    assert(texts_of(args@) =~= seq![]);
    if platform == Platform::Windows {
        add_arg(&mut args, "/nologo");
        add_arg(&mut args, "/LD");
        add_arg(&mut args, "/O2");
        add_arg(&mut args, "/utf-8");
        add_arg(&mut args, &concat("/I", src_dir));
        add_arg(&mut args, &concat("/Fe:", lib_path));
    } else {
        add_arg(&mut args, "-shared");
        add_arg(&mut args, "-fPIC");
        add_arg(&mut args, "-O3");
        add_arg(&mut args, "-fno-exceptions");
        add_arg(&mut args, "-I");
        add_arg(&mut args, src_dir);
        add_arg(&mut args, "-o");
        add_arg(&mut args, lib_path);
    }
    add_arg(&mut args, &join_on(family, src_dir, "parser.c"));
    if facts.has_scanner_cc {
        if platform == Platform::Windows {
            add_arg(&mut args, "/std:c++14");
        } else {
            add_arg(&mut args, "-std=c++14");
            add_arg(&mut args, "-lstdc++");
        }
        add_arg(&mut args, &join_on(family, src_dir, "scanner.cc"));
    } else if facts.has_scanner_c {
        add_arg(&mut args, &join_on(family, src_dir, "scanner.c"));
    }
    if platform == Platform::Linux {
        add_arg(&mut args, "-Wl,-z,relro,-z,now");
    }
    assert(texts_of(args@) =~= compiler_args(platform, family, src_dir@, lib_path@, *facts));
    args
}

/// Refuses to build a grammar without a parser.
pub fn require_parser(src_dir: &str, has_parser: bool) -> (res: Result<(), GrammarBuildError>)
    ensures
        match res {
            Ok(()) => has_parser,
            Err(error) => !has_parser && error@ == BuildErrorView::NoParserSource(src_dir@),
        },
{
    if has_parser {
        Ok(())
    } else {
        Err(GrammarBuildError::NoParserSource(src_dir.to_owned()))
    }
}

/// Decides how to build a library of the sources of a grammar: nothing if it is up to date, and
/// else by a command.
pub fn plan_build(
    env: &Environment,
    grammar: &GrammarConfig,
    platform: Platform,
    facts: &BuildFacts,
) -> (res: Result<Option<CommandLine>, GrammarBuildError>)
    ensures
        match res {
            Ok(None) => !facts.is_stale(),
            Ok(Some(command)) => {
                &&& facts.is_stale()
                &&& compiler(platform, *facts) == Some(command.program@)
                &&& texts_of(command.args@) == compiler_args(
                    platform,
                    env.family,
                    src_dir(*env, *grammar),
                    built_library(*env, *grammar, platform),
                    *facts,
                )
            },
            Err(error) => {
                &&& facts.is_stale()
                &&& compiler(platform, *facts) is None
                &&& error@ == BuildErrorView::Compilation(
                    no_compiler(grammar.grammar_id@, facts.has_scanner_cc),
                )
            },
        },
{
    let times = [facts.parser_c, facts.scanner_c, facts.scanner_cc];
    assert(times@ =~= seq![facts.parser_c, facts.scanner_c, facts.scanner_cc]);
    if !needs_recompile(facts.library, &times) {
        return Ok(None);
    }
    let found = if facts.has_scanner_cc {
        &facts.cxx
    } else {
        &facts.cc
    };
    let program = match found {
        Some(program) => if platform == Platform::Windows {
            "cl.exe".to_owned()
        } else {
            program.clone()
        },
        None => {
            let message = if facts.has_scanner_cc {
                concat(
                    &concat("C++ compiler required for ", &grammar.grammar_id),
                    " but none found. Install clang++/g++ or set CXX.",
                )
            } else {
                "C compiler required but none found. Install clang/gcc or set CC.".to_owned()
            };
            return Err(GrammarBuildError::Compilation(message));
        },
    };
    let args = collect_args(
        platform,
        env.family,
        &get_grammar_src_dir(env, grammar),
        &built_library_path(env, grammar, platform),
        facts,
    );
    Ok(Some(CommandLine { program, args }))
}

/// Says what came of a build, once its command has been run without an error.
pub fn finish_build(lib_path: &str, has_library: bool) -> (res: Result<
    BuildStatus,
    GrammarBuildError,
>)
    ensures
        match res {
            Ok(status) => has_library && status == BuildStatus::Built,
            Err(error) => !has_library && error@ == BuildErrorView::Compilation(
                "compilation succeeded but library not found at "@ + lib_path@,
            ),
        },
{
    if has_library {
        Ok(BuildStatus::Built)
    } else {
        Err(
            GrammarBuildError::Compilation(
                concat("compilation succeeded but library not found at ", lib_path),
            ),
        )
    }
}

/// The compilers for C to try.
pub open spec fn c_names(platform: Platform) -> Seq<Seq<char>> {
    if platform == Platform::Windows {
        seq!["cl"@, "clang-cl"@, "clang"@, "gcc"@]
    } else {
        seq!["cc"@, "clang"@, "gcc"@]
    }
}

/// The compilers for C++ to try.
pub open spec fn cxx_names(platform: Platform) -> Seq<Seq<char>> {
    if platform == Platform::Windows {
        seq!["cl"@, "clang-cl"@, "clang++"@, "g++"@]
    } else {
        seq!["c++"@, "clang++"@, "g++"@]
    }
}

/// Lists the compilers for C to try, the first one first.
pub fn c_compilers(platform: Platform) -> (names: Vec<String>)
    ensures
        texts_of(names@) == c_names(platform),
{
    let mut names: Vec<String> = Vec::new();
    assert(texts_of(names@) =~= seq![]);
    if platform == Platform::Windows {
        add_arg(&mut names, "cl");
        add_arg(&mut names, "clang-cl");
    } else {
        add_arg(&mut names, "cc");
    }
    add_arg(&mut names, "clang");
    add_arg(&mut names, "gcc");
    assert(texts_of(names@) =~= c_names(platform));
    names
}

/// Lists the compilers for C++ to try, the first one first.
pub fn cxx_compilers(platform: Platform) -> (names: Vec<String>)
    ensures
        texts_of(names@) == cxx_names(platform),
{
    let mut names: Vec<String> = Vec::new();
    assert(texts_of(names@) =~= seq![]);
    if platform == Platform::Windows {
        add_arg(&mut names, "cl");
        add_arg(&mut names, "clang-cl");
    } else {
        add_arg(&mut names, "c++");
    }
    add_arg(&mut names, "clang++");
    add_arg(&mut names, "g++");
    assert(texts_of(names@) =~= cxx_names(platform));
    names
}

/// Whether two revisions are the same, where one may be shortened.
pub open spec fn same_revision(current: Seq<char>, revision: Seq<char>) -> bool {
    stripped(current, revision) is Some || stripped(revision, current) is Some
}

/// A fetch of a revision of a repository into a directory.
#[derive(Debug, PartialEq, Eq)]
pub struct FetchPlan {
    pub family: SystemFamily,
    pub dir: String,
    pub remote: String,
    pub revision: String,
}

/// How far a fetch is: what was asked for last.
#[derive(Debug, Clone, Copy, PartialEq, Eq, Structural)]
pub enum FetchState {
    CheckingGit,
    LookingForRepository,
    ReadingRevision,
    FetchingUpdate,
    CheckingOutUpdate,
    LookingForDir,
    RemovingDir,
    CreatingParent,
    Cloning,
    FetchingShallow,
    FetchingFull,
    CheckingOutRevision,
    CheckingOutHead,
    Finished,
}

/// What a fetch asks for.
#[derive(Debug, PartialEq, Eq)]
pub enum FetchAction {
    /// Tell whether git can be run.
    CheckGit,
    /// Tell whether there is anything at a path.
    LookFor(String),
    /// Read the revision that a directory is at.
    ReadRevision(String),
    /// Remove a directory and all that is in it.
    RemoveDir(String),
    /// Create a directory and those above it.
    CreateDir(String),
    /// Run git, in a directory if one is given.
    RunGit { dir: Option<String>, args: Vec<String> },
    /// The fetch is over.
    Finish(Result<FetchStatus, GrammarBuildError>),
}

/// What a fetch is told.
#[derive(Debug, Clone, PartialEq, Eq)]
pub enum FetchEvent {
    /// What was asked for is done.
    Done,
    /// What was looked for is there, or is not.
    Found(bool),
    /// The revision that was asked for.
    Revision(String),
    /// What was asked for cannot be done.
    Failed(String),
}

/// What a fetch asks for, with strings as sequences of characters.
pub enum ActionView {
    CheckGit,
    LookFor(Seq<char>),
    ReadRevision(Seq<char>),
    RemoveDir(Seq<char>),
    CreateDir(Seq<char>),
    RunGit { dir: Option<Seq<char>>, args: Seq<Seq<char>> },
    Finish(Result<FetchStatus, BuildErrorView>),
}

impl View for FetchAction {
    type V = ActionView;

    open spec fn view(&self) -> ActionView {
        match *self {
            FetchAction::CheckGit => ActionView::CheckGit,
            FetchAction::LookFor(path) => ActionView::LookFor(path@),
            FetchAction::ReadRevision(path) => ActionView::ReadRevision(path@),
            FetchAction::RemoveDir(path) => ActionView::RemoveDir(path@),
            FetchAction::CreateDir(path) => ActionView::CreateDir(path@),
            FetchAction::RunGit { dir, args } => ActionView::RunGit {
                dir: path_at(dir),
                args: texts_of(args@),
            },
            FetchAction::Finish(Ok(status)) => ActionView::Finish(Ok(status)),
            FetchAction::Finish(Err(error)) => ActionView::Finish(Err(error@)),
        }
    }
}

/// Git, run in the directory of a fetch.
pub open spec fn git_in(plan: FetchPlan, args: Seq<Seq<char>>) -> ActionView {
    ActionView::RunGit { dir: Some(plan.dir@), args }
}

/// The arguments of git that fetch a revision alone.
pub open spec fn shallow_args(revision: Seq<char>) -> Seq<Seq<char>> {
    seq!["fetch"@, "--depth"@, "1"@, "origin"@, revision]
}

/// How a fetch clones the repository.
pub open spec fn clone_step(plan: FetchPlan) -> (FetchState, ActionView) {
    (
        FetchState::Cloning,
        ActionView::RunGit {
            dir: None,
            args: seq![
                "clone"@,
                "--depth"@,
                "1"@,
                "--single-branch"@,
                plan.remote@,
                plan.dir@,
            ],
        },
    )
}

/// How a fetch makes room for a clone.
pub open spec fn parent_step(plan: FetchPlan) -> (FetchState, ActionView) {
    match parent_on(plan.family, plan.dir@) {
        Some(dir) => (FetchState::CreatingParent, ActionView::CreateDir(dir)),
        None => clone_step(plan),
    }
}

/// How a fetch ends.
pub open spec fn end_step(res: Result<FetchStatus, BuildErrorView>) -> (FetchState, ActionView) {
    (FetchState::Finished, ActionView::Finish(res))
}

/// How a fetch goes on when it has failed at what it asked for last.
pub open spec fn failed_step(plan: FetchPlan, state: FetchState, message: Seq<char>) -> (
    FetchState,
    ActionView,
) {
    match state {
        FetchState::CheckingGit => end_step(Err(BuildErrorView::GitNotAvailable)),
        FetchState::RemovingDir | FetchState::CreatingParent => end_step(
            Err(BuildErrorView::Io(message)),
        ),
        FetchState::FetchingShallow => (
            FetchState::FetchingFull,
            git_in(plan, seq!["fetch"@, "origin"@, plan.revision@]),
        ),
        FetchState::CheckingOutRevision => (
            FetchState::CheckingOutHead,
            git_in(plan, seq!["checkout"@, "FETCH_HEAD"@]),
        ),
        _ => end_step(Err(BuildErrorView::GitCommand(message))),
    }
}

/// How a fetch goes on when it has been told what it asked for: `found` is whether something is
/// there, `revision` the one that the directory is at.
pub open spec fn told_step(plan: FetchPlan, state: FetchState, found: bool, revision: Seq<char>) -> (
    FetchState,
    ActionView,
) {
    match state {
        FetchState::CheckingGit => (
            FetchState::LookingForRepository,
            ActionView::LookFor(
                joined_on(plan.family, joined_on(plan.family, plan.dir@, ".git"@), "HEAD"@),
            ),
        ),
        FetchState::LookingForRepository => if found {
            (FetchState::ReadingRevision, ActionView::ReadRevision(plan.dir@))
        } else {
            (FetchState::LookingForDir, ActionView::LookFor(plan.dir@))
        },
        FetchState::ReadingRevision => if same_revision(revision, plan.revision@) {
            end_step(Ok(FetchStatus::UpToDate))
        } else {
            (FetchState::FetchingUpdate, git_in(plan, shallow_args(plan.revision@)))
        },
        FetchState::FetchingUpdate => (
            FetchState::CheckingOutUpdate,
            git_in(plan, seq!["checkout"@, "FETCH_HEAD"@]),
        ),
        FetchState::LookingForDir => if found {
            (FetchState::RemovingDir, ActionView::RemoveDir(plan.dir@))
        } else {
            parent_step(plan)
        },
        FetchState::RemovingDir => parent_step(plan),
        FetchState::CreatingParent => clone_step(plan),
        FetchState::Cloning => (
            FetchState::FetchingShallow,
            git_in(plan, shallow_args(plan.revision@)),
        ),
        FetchState::FetchingShallow | FetchState::FetchingFull => (
            FetchState::CheckingOutRevision,
            git_in(plan, seq!["checkout"@, plan.revision@]),
        ),
        FetchState::CheckingOutUpdate | FetchState::CheckingOutRevision
        | FetchState::CheckingOutHead | FetchState::Finished => end_step(Ok(FetchStatus::Updated)),
    }
}

/// How a fetch goes on when it is told something.
pub open spec fn next_step(plan: FetchPlan, state: FetchState, event: FetchEvent) -> (
    FetchState,
    ActionView,
) {
    match event {
        FetchEvent::Failed(message) => failed_step(plan, state, message@),
        FetchEvent::Found(found) => told_step(plan, state, found, Seq::empty()),
        FetchEvent::Revision(revision) => told_step(plan, state, false, revision@),
        FetchEvent::Done => told_step(plan, state, false, Seq::empty()),
    }
}

impl FetchPlan {
    /// Starts to fetch the sources of a grammar; nothing if they need not be fetched.
    pub fn start(env: &Environment, grammar: &GrammarConfig) -> (res: Option<FetchPlan>)
        ensures
            match grammar.source {
                GrammarSource::Local { .. } => res is None,
                GrammarSource::Git { remote, revision, .. } => {
                    &&& res matches Some(plan)
                    &&& plan.family == env.family
                    &&& plan.dir@ == joined_on(
                        env.family,
                        sources_dir(*env),
                        grammar.grammar_id@,
                    )
                    &&& plan.remote@ == remote@
                    &&& plan.revision@ == revision@
                },
            },
    {
        match &grammar.source {
            GrammarSource::Local { .. } => None,
            GrammarSource::Git { remote, revision, .. } => Some(
                FetchPlan {
                    family: env.family,
                    dir: join_on(env.family, &grammar_sources_dir(env), &grammar.grammar_id),
                    remote: remote.clone(),
                    revision: revision.clone(),
                },
            ),
        }
    }

    /// Git, run in the directory of the fetch.
    fn git(&self, args: Vec<String>) -> (action: FetchAction)
        ensures
            action@ == git_in(*self, texts_of(args@)),
    {
        FetchAction::RunGit { dir: Some(self.dir.clone()), args }
    }

    /// Fetches the revision alone.
    fn fetch_shallow(&self) -> (action: FetchAction)
        ensures
            action@ == git_in(*self, shallow_args(self.revision@)),
    {
        let mut args: Vec<String> = Vec::new();
        assert(texts_of(args@) =~= seq![]);
        add_arg(&mut args, "fetch");
        add_arg(&mut args, "--depth");
        add_arg(&mut args, "1");
        add_arg(&mut args, "origin");
        add_arg(&mut args, &self.revision);
        assert(texts_of(args@) =~= shallow_args(self.revision@));
        self.git(args)
    }

    /// Fetches the revision and what led to it.
    fn fetch_full(&self) -> (action: FetchAction)
        ensures
            action@ == git_in(*self, seq!["fetch"@, "origin"@, self.revision@]),
    {
        let mut args: Vec<String> = Vec::new();
        assert(texts_of(args@) =~= seq![]);
        add_arg(&mut args, "fetch");
        add_arg(&mut args, "origin");
        add_arg(&mut args, &self.revision);
        assert(texts_of(args@) =~= seq!["fetch"@, "origin"@, self.revision@]);
        self.git(args)
    }

    /// Checks out a revision.
    fn checkout(&self, target: &str) -> (action: FetchAction)
        ensures
            action@ == git_in(*self, seq!["checkout"@, target@]),
    {
        let mut args: Vec<String> = Vec::new();
        assert(texts_of(args@) =~= seq![]);
        add_arg(&mut args, "checkout");
        add_arg(&mut args, target);
        assert(texts_of(args@) =~= seq!["checkout"@, target@]);
        self.git(args)
    }

    /// Clones the repository.
    fn clone_fresh(&self) -> (step: (FetchState, FetchAction))
        ensures
            (step.0, step.1@) == clone_step(*self),
    {
        let mut args: Vec<String> = Vec::new();
        assert(texts_of(args@) =~= seq![]);
        add_arg(&mut args, "clone");
        add_arg(&mut args, "--depth");
        add_arg(&mut args, "1");
        add_arg(&mut args, "--single-branch");
        add_arg(&mut args, &self.remote);
        add_arg(&mut args, &self.dir);
        assert(texts_of(args@) =~= seq![
            "clone"@,
            "--depth"@,
            "1"@,
            "--single-branch"@,
            self.remote@,
            self.dir@,
        ]);
        (FetchState::Cloning, FetchAction::RunGit { dir: None, args })
    }

    /// Makes room for a clone.
    fn create_parent(&self) -> (step: (FetchState, FetchAction))
        ensures
            (step.0, step.1@) == parent_step(*self),
    {
        match take_parent(self.family, &self.dir) {
            Some(dir) => (FetchState::CreatingParent, FetchAction::CreateDir(dir)),
            None => self.clone_fresh(),
        }
    }

    /// Goes on after a failure.
    fn after_failure(&self, state: FetchState, message: String) -> (step: (FetchState, FetchAction))
        ensures
            (step.0, step.1@) == failed_step(*self, state, message@),
    {
        let error = match state {
            FetchState::CheckingGit => GrammarBuildError::GitNotAvailable,
            FetchState::RemovingDir | FetchState::CreatingParent => GrammarBuildError::Io(message),
            FetchState::FetchingShallow => {
                return (FetchState::FetchingFull, self.fetch_full());
            },
            FetchState::CheckingOutRevision => {
                return (FetchState::CheckingOutHead, self.checkout("FETCH_HEAD"));
            },
            _ => GrammarBuildError::GitCommand(message),
        };
        (FetchState::Finished, FetchAction::Finish(Err(error)))
    }

    /// Goes on after what was asked for is done.
    fn after_answer(&self, state: FetchState, found: bool, revision: &str) -> (step: (
        FetchState,
        FetchAction,
    ))
        ensures
            (step.0, step.1@) == told_step(*self, state, found, revision@),
    {
        match state {
            FetchState::CheckingGit => (
                FetchState::LookingForRepository,
                FetchAction::LookFor(
                    join_on(self.family, &join_on(self.family, &self.dir, ".git"), "HEAD"),
                ),
            ),
            FetchState::LookingForRepository => if found {
                (FetchState::ReadingRevision, FetchAction::ReadRevision(self.dir.clone()))
            } else {
                (FetchState::LookingForDir, FetchAction::LookFor(self.dir.clone()))
            },
            FetchState::ReadingRevision => if strip_prefix(revision, &self.revision).is_some()
                || strip_prefix(&self.revision, revision).is_some() {
                (FetchState::Finished, FetchAction::Finish(Ok(FetchStatus::UpToDate)))
            } else {
                (FetchState::FetchingUpdate, self.fetch_shallow())
            },
            FetchState::FetchingUpdate => (
                FetchState::CheckingOutUpdate,
                self.checkout("FETCH_HEAD"),
            ),
            FetchState::LookingForDir => if found {
                (FetchState::RemovingDir, FetchAction::RemoveDir(self.dir.clone()))
            } else {
                self.create_parent()
            },
            FetchState::RemovingDir => self.create_parent(),
            FetchState::CreatingParent => self.clone_fresh(),
            FetchState::Cloning => (FetchState::FetchingShallow, self.fetch_shallow()),
            FetchState::FetchingShallow | FetchState::FetchingFull => (
                FetchState::CheckingOutRevision,
                self.checkout(&self.revision),
            ),
            FetchState::CheckingOutUpdate | FetchState::CheckingOutRevision
            | FetchState::CheckingOutHead | FetchState::Finished => (
                FetchState::Finished,
                FetchAction::Finish(Ok(FetchStatus::Updated)),
            ),
        }
    }

    /// Decides what to ask for next. A fetch begins with the question whether git can be run.
    pub fn next(&self, state: FetchState, event: FetchEvent) -> (step: (FetchState, FetchAction))
        ensures
            (step.0, step.1@) == next_step(*self, state, event),
    {
        match event {
            FetchEvent::Failed(message) => self.after_failure(state, message),
            FetchEvent::Found(found) => self.after_answer(state, found, empty_text()),
            FetchEvent::Revision(revision) => self.after_answer(state, false, &revision),
            FetchEvent::Done => self.after_answer(state, false, empty_text()),
        }
    }
}

/// A text without characters.
fn empty_text() -> (text: &'static str)
    ensures
        text@ == Seq::<char>::empty(),
{
    proof {
        reveal_strlit("");
    }
    assert(""@ =~= Seq::<char>::empty());
    ""
}

/// How far a fetch is, as a number.
pub open spec fn rank(state: FetchState) -> int {
    match state {
        FetchState::CheckingGit => 0,
        FetchState::LookingForRepository => 1,
        FetchState::ReadingRevision => 2,
        FetchState::FetchingUpdate => 3,
        FetchState::CheckingOutUpdate => 4,
        FetchState::LookingForDir => 5,
        FetchState::RemovingDir => 6,
        FetchState::CreatingParent => 7,
        FetchState::Cloning => 8,
        FetchState::FetchingShallow => 9,
        FetchState::FetchingFull => 10,
        FetchState::CheckingOutRevision => 11,
        FetchState::CheckingOutHead => 12,
        FetchState::Finished => 13,
    }
}

/// Whatever a fetch is told, it comes closer to its end, and says so when it is there.
pub proof fn lemma_fetch_comes_to_an_end(plan: FetchPlan, state: FetchState, event: FetchEvent)
    requires
        state != FetchState::Finished,
    ensures
        rank(next_step(plan, state, event).0) > rank(state),
        (next_step(plan, state, event).0 == FetchState::Finished) == (next_step(
            plan,
            state,
            event,
        ).1 is Finish),
{
}

/// A fetch says that the revision was there only if it was told so, and that it is there now only
/// if it has been checked out.
pub proof fn lemma_fetch_status_is_true(plan: FetchPlan, state: FetchState, event: FetchEvent)
    requires
        state != FetchState::Finished,
    ensures
        next_step(plan, state, event).1 == ActionView::Finish(Ok(FetchStatus::UpToDate)) ==> state
            == FetchState::ReadingRevision && event !is Failed,
        next_step(plan, state, event).1 == ActionView::Finish(Ok(FetchStatus::Updated)) ==> (state
            == FetchState::CheckingOutUpdate || state == FetchState::CheckingOutRevision || state
            == FetchState::CheckingOutHead) && event !is Failed,
        next_step(plan, state, event).1 != ActionView::Finish(Ok(FetchStatus::Local)),
{
}

/// A library is to be built if it is not there, or if one of its sources was changed after it. A
/// source that is not there does not count, and neither does one of the same time.
pub proof fn lemma_when_a_library_is_built(facts: BuildFacts)
    ensures
        facts.library is None ==> facts.is_stale(),
        facts.library matches Some(built) ==> (facts.is_stale() <==> {
            ||| facts.parser_c is Some && facts.parser_c->0 > built
            ||| facts.scanner_c is Some && facts.scanner_c->0 > built
            ||| facts.scanner_cc is Some && facts.scanner_cc->0 > built
        }),
{
    let sources = seq![facts.parser_c, facts.scanner_c, facts.scanner_cc];
    assert(sources[0] == facts.parser_c);
    assert(sources[1] == facts.scanner_c);
    assert(sources[2] == facts.scanner_cc);
    if let Some(built) = facts.library {
        assert(is_newer(sources[0], built) <==> facts.parser_c is Some && facts.parser_c->0
            > built);
        assert(is_newer(sources[1], built) <==> facts.scanner_c is Some && facts.scanner_c->0
            > built);
        assert(is_newer(sources[2], built) <==> facts.scanner_cc is Some && facts.scanner_cc->0
            > built);
    }
}

/// Two revisions are the same if they agree as far as both of them go, whichever is the shorter
/// one.
pub proof fn lemma_same_revision(a: Seq<char>, b: Seq<char>)
    ensures
        same_revision(a, b) <==> forall|i: int|
            0 <= i < a.len() && i < b.len() ==> #[trigger] a[i] == b[i],
        same_revision(a, b) == same_revision(b, a),
{
    if a.len() <= b.len() {
        if forall|i: int| 0 <= i < a.len() && i < b.len() ==> #[trigger] a[i] == b[i] {
            assert(b.subrange(0, a.len() as int) =~= a);
            assert(a.is_prefix_of(b));
        }
    } else {
        if forall|i: int| 0 <= i < a.len() && i < b.len() ==> #[trigger] a[i] == b[i] {
            assert(a.subrange(0, b.len() as int) =~= b);
            assert(b.is_prefix_of(a));
        }
    }
    if a.is_prefix_of(b) {
        assert(a =~= b.subrange(0, a.len() as int));
        assert forall|i: int| 0 <= i < a.len() && i < b.len() implies #[trigger] a[i] == b[i] by {
            assert(b.subrange(0, a.len() as int)[i] == b[i]);
        }
    }
    if b.is_prefix_of(a) {
        assert(b =~= a.subrange(0, b.len() as int));
        assert forall|i: int| 0 <= i < a.len() && i < b.len() implies #[trigger] a[i] == b[i] by {
            assert(a.subrange(0, b.len() as int)[i] == a[i]);
        }
    }
}

/// A scanner in C++ calls for the compiler of C++, all else for the one of C. Windows has a
/// compiler of its own, once one is known to be there.
pub proof fn lemma_which_compiler(platform: Platform, facts: BuildFacts)
    ensures
        ({
            let known = if facts.has_scanner_cc {
                facts.cxx
            } else {
                facts.cc
            };
            &&& compiler(platform, facts) is Some <==> known is Some
            &&& known is Some && !(platform is Windows) ==> compiler(platform, facts) == Some(
                (known->0)@,
            )
            &&& known is Some && platform is Windows ==> compiler(platform, facts) == Some(
                "cl.exe"@,
            )
        }),
{
}

/// The library is built of the parser and of the scanner, if there is one: the one in C++ before
/// the one in C. On Unix the sources and the library are named behind their options.
pub proof fn lemma_what_is_compiled(
    platform: Platform,
    family: SystemFamily,
    sources: Seq<char>,
    library: Seq<char>,
    facts: BuildFacts,
)
    requires
        !(platform is Windows),
    ensures
        ({
            let args = compiler_args(platform, family, sources, library, facts);
            let extra = if platform is Linux {
                1int
            } else {
                0int
            };
            &&& args[0] == "-shared"@ && args[1] == "-fPIC"@ && args[2] == "-O3"@ && args[3]
                == "-fno-exceptions"@
            &&& args[4] == "-I"@ && args[5] == sources
            &&& args[6] == "-o"@ && args[7] == library
            &&& args[8] == joined_on(family, sources, "parser.c"@)
            &&& facts.has_scanner_cc ==> args.len() == 12 + extra && args[9] == "-std=c++14"@
                && args[10] == "-lstdc++"@ && args[11] == joined_on(family, sources, "scanner.cc"@)
            &&& !facts.has_scanner_cc && facts.has_scanner_c ==> args.len() == 10 + extra && args[9]
                == joined_on(family, sources, "scanner.c"@)
            &&& !facts.has_scanner_cc && !facts.has_scanner_c ==> args.len() == 9 + extra
            &&& platform is Linux ==> args[args.len() - 1] == "-Wl,-z,relro,-z,now"@
        }),
{
}

/// On Windows the sources and the library stand in one argument with their options.
pub proof fn lemma_what_is_compiled_on_windows(
    family: SystemFamily,
    sources: Seq<char>,
    library: Seq<char>,
    facts: BuildFacts,
)
    ensures
        ({
            let args = compiler_args(Platform::Windows, family, sources, library, facts);
            &&& args[0] == "/nologo"@ && args[1] == "/LD"@ && args[2] == "/O2"@ && args[3]
                == "/utf-8"@
            &&& args[4] == "/I"@ + sources
            &&& args[5] == "/Fe:"@ + library
            &&& args[6] == joined_on(family, sources, "parser.c"@)
            &&& facts.has_scanner_cc ==> args.len() == 9 && args[7] == "/std:c++14"@ && args[8]
                == joined_on(family, sources, "scanner.cc"@)
            &&& !facts.has_scanner_cc && facts.has_scanner_c ==> args.len() == 8 && args[7]
                == joined_on(family, sources, "scanner.c"@)
            &&& !facts.has_scanner_cc && !facts.has_scanner_c ==> args.len() == 7
        }),
{
}

/// Where the sources of a grammar lie: those of a local one where it says, those that are fetched
/// under its name, and in both the directory `src`.
pub proof fn lemma_directories_of_a_grammar(env: Environment, grammar: GrammarConfig)
    ensures
        ({
            let kept = if env.cache() is Some {
                env.cache()->0
            } else {
                env.runtime_files()
            };
            let fetched = joined_on(
                env.family,
                joined_on(env.family, joined_on(env.family, kept, "grammars"@), "sources"@),
                grammar.grammar_id@,
            );
            match grammar.source {
                GrammarSource::Local { path } => src_dir(env, grammar) == joined_on(
                    env.family,
                    path@,
                    "src"@,
                ),
                GrammarSource::Git { subpath, .. } => src_dir(env, grammar) == joined_on(
                    env.family,
                    if subpath is Some {
                        joined_on(env.family, fetched, (subpath->0)@)
                    } else {
                        fetched
                    },
                    "src"@,
                ),
            }
        }),
        env.workspace() is Some ==> lib_dir(env) == joined_on(
            env.family,
            joined_on(env.family, env.workspace()->0, "target"@),
            "grammars"@,
        ),
        env.workspace() is None && env.cache() is Some ==> lib_dir(env) == joined_on(
            env.family,
            env.cache()->0,
            "grammars"@,
        ),
        env.workspace() is None && env.cache() is None ==> lib_dir(env) == joined_on(
            env.family,
            env.runtime_files(),
            "grammars"@,
        ),
{
}

/// A built library lies where grammars are looked for.
pub proof fn lemma_built_libraries_are_found(env: Environment)
    ensures
        env.workspace() is Some || env.cache() is Some ==> has_path(
            env.family,
            env.grammar_places(),
            lib_dir(env),
        ),
{
    lemma_grammar_places(env);
}

/// A fetch into a directory that is not there clones the repository into it, and then fetches and
/// checks out the revision.
pub proof fn lemma_new_fetch(plan: FetchPlan)
    ensures
        ({
            let done = FetchEvent::Done;
            let none = FetchEvent::Found(false);
            let look = next_step(plan, FetchState::CheckingGit, done);
            let miss = next_step(plan, look.0, none);
            let room = next_step(plan, miss.0, none);
            let clone = if parent_on(plan.family, plan.dir@) is Some {
                next_step(plan, room.0, done)
            } else {
                room
            };
            let fetch = next_step(plan, clone.0, done);
            let checkout = next_step(plan, fetch.0, done);
            let end = next_step(plan, checkout.0, done);
            &&& look.1 == ActionView::LookFor(
                joined_on(plan.family, joined_on(plan.family, plan.dir@, ".git"@), "HEAD"@),
            )
            &&& miss.1 == ActionView::LookFor(plan.dir@)
            &&& (parent_on(plan.family, plan.dir@) matches Some(above) ==> room.1
                == ActionView::CreateDir(above))
            &&& clone.1 == (ActionView::RunGit {
                dir: None,
                args: seq![
                    "clone"@,
                    "--depth"@,
                    "1"@,
                    "--single-branch"@,
                    plan.remote@,
                    plan.dir@,
                ],
            })
            &&& fetch.1 == (ActionView::RunGit {
                dir: Some(plan.dir@),
                args: seq!["fetch"@, "--depth"@, "1"@, "origin"@, plan.revision@],
            })
            &&& checkout.1 == (ActionView::RunGit {
                dir: Some(plan.dir@),
                args: seq!["checkout"@, plan.revision@],
            })
            &&& end.1 == ActionView::Finish(Ok(FetchStatus::Updated))
        }),
{
}

/// A fetch into a directory that is no repository removes it and goes on as if it had not been
/// there.
pub proof fn lemma_fetch_removes_what_is_no_repository(plan: FetchPlan)
    ensures
        ({
            let remove = next_step(plan, FetchState::LookingForDir, FetchEvent::Found(true));
            &&& remove.1 == ActionView::RemoveDir(plan.dir@)
            &&& next_step(plan, remove.0, FetchEvent::Done) == next_step(
                plan,
                FetchState::LookingForDir,
                FetchEvent::Found(false),
            )
        }),
{
}

/// A fetch into a repository that is at the revision does nothing. One that is at another revision
/// fetches the revision and checks out what was fetched.
pub proof fn lemma_update_of_a_repository(plan: FetchPlan, current: String)
    ensures
        ({
            let read = next_step(
                plan,
                FetchState::LookingForRepository,
                FetchEvent::Found(true),
            );
            let fetch = next_step(plan, read.0, FetchEvent::Revision(current));
            let checkout = next_step(plan, fetch.0, FetchEvent::Done);
            let end = next_step(plan, checkout.0, FetchEvent::Done);
            &&& read.1 == ActionView::ReadRevision(plan.dir@)
            &&& same_revision(current@, plan.revision@) ==> fetch.1 == ActionView::Finish(
                Ok(FetchStatus::UpToDate),
            )
            &&& !same_revision(current@, plan.revision@) ==> {
                &&& fetch.1 == (ActionView::RunGit {
                    dir: Some(plan.dir@),
                    args: seq!["fetch"@, "--depth"@, "1"@, "origin"@, plan.revision@],
                })
                &&& checkout.1 == (ActionView::RunGit {
                    dir: Some(plan.dir@),
                    args: seq!["checkout"@, "FETCH_HEAD"@],
                })
                &&& end.1 == ActionView::Finish(Ok(FetchStatus::Updated))
            }
        }),
{
}

/// Two failures do not end a fetch: if the revision cannot be fetched alone, it is fetched with all
/// before it, and if it cannot be checked out by its name, what was fetched is checked out. All
/// others end it, and are told.
pub proof fn lemma_failed_fetch(plan: FetchPlan, state: FetchState, message: String)
    requires
        state != FetchState::Finished,
    ensures
        ({
            let next = next_step(plan, state, FetchEvent::Failed(message));
            match state {
                FetchState::FetchingShallow => {
                    &&& next.1 == (ActionView::RunGit {
                        dir: Some(plan.dir@),
                        args: seq!["fetch"@, "origin"@, plan.revision@],
                    })
                    &&& next_step(plan, next.0, FetchEvent::Done) == next_step(
                        plan,
                        FetchState::FetchingShallow,
                        FetchEvent::Done,
                    )
                },
                FetchState::CheckingOutRevision => {
                    &&& next.1 == (ActionView::RunGit {
                        dir: Some(plan.dir@),
                        args: seq!["checkout"@, "FETCH_HEAD"@],
                    })
                    &&& next_step(plan, next.0, FetchEvent::Done).1 == ActionView::Finish(
                        Ok(FetchStatus::Updated),
                    )
                },
                FetchState::CheckingGit => next.1 == ActionView::Finish(
                    Err(BuildErrorView::GitNotAvailable),
                ),
                FetchState::RemovingDir => next.1 == ActionView::Finish(
                    Err(BuildErrorView::Io(message@)),
                ),
                FetchState::CreatingParent => next.1 == ActionView::Finish(
                    Err(BuildErrorView::Io(message@)),
                ),
                _ => next.1 == ActionView::Finish(Err(BuildErrorView::GitCommand(message@))),
            }
        }),
{
}

} // verus!
