//! Where grammars and queries are looked for.
use crate::parts::texts_of;
use crate::paths::{
    join_on, joined_on, parent_on, same_path_on, same_steps_on, take_parent, SystemFamily,
};
use vstd::prelude::*;

verus! {

/// What a process knows of its surroundings.
#[derive(Debug, Clone, PartialEq, Eq, Default)]
pub struct Environment {
    /// The kind of system.
    pub family: SystemFamily,
    /// `GLORP_SYNTAX_RUNTIME`.
    pub runtime: Option<String>,
    /// The path of the program.
    pub executable: Option<String>,
    /// `CARGO_MANIFEST_DIR`.
    pub manifest_dir: Option<String>,
    /// `XDG_CACHE_HOME`.
    pub cache_home: Option<String>,
    /// `XDG_DATA_HOME`.
    pub data_home: Option<String>,
    /// `XDG_CONFIG_HOME`.
    pub config_home: Option<String>,
    /// `HOME`.
    pub home: Option<String>,
    /// `LOCALAPPDATA`.
    pub local_app_data: Option<String>,
    /// `HELIX_RUNTIME`.
    pub helix_runtime: Option<String>,
    /// Whether the directory of Helix's runtime files under the configuration is there.
    pub helix_config_is_dir: bool,
    /// Whether the directory of Helix's runtime files under the data is there.
    pub helix_data_is_dir: bool,
}

/// A path, if it is there.
pub open spec fn path_at(path: Option<String>) -> Option<Seq<char>> {
    match path {
        Some(path) => Some(path@),
        None => None,
    }
}

/// The first of two paths that is there.
pub open spec fn or_else(first: Option<Seq<char>>, second: Option<Seq<char>>) -> Option<Seq<char>> {
    match first {
        Some(path) => Some(path),
        None => second,
    }
}

impl Environment {
    /// A path behind another one, if that one is there.
    pub open spec fn under(self, base: Option<Seq<char>>, path: Seq<char>) -> Option<Seq<char>> {
        match base {
            Some(base) => Some(joined_on(self.family, base, path)),
            None => None,
        }
    }

    /// The directory for the data of programs.
    pub open spec fn data(self) -> Option<Seq<char>> {
        match self.family {
            SystemFamily::Unix => or_else(
                path_at(self.data_home),
                self.under(self.under(path_at(self.home), ".local"@), "share"@),
            ),
            SystemFamily::Windows => path_at(self.local_app_data),
            SystemFamily::Other => None,
        }
    }

    /// The directory for what is kept only to be quick.
    pub open spec fn cache(self) -> Option<Seq<char>> {
        match self.family {
            SystemFamily::Unix => self.under(
                or_else(path_at(self.cache_home), self.under(path_at(self.home), ".cache"@)),
                "glorp_syntax"@,
            ),
            SystemFamily::Windows => self.under(
                self.under(path_at(self.local_app_data), "glorp_syntax"@),
                "cache"@,
            ),
            SystemFamily::Other => None,
        }
    }

    /// The directory for the configurations of programs.
    pub open spec fn config(self) -> Option<Seq<char>> {
        match self.family {
            SystemFamily::Unix => or_else(
                path_at(self.config_home),
                self.under(path_at(self.home), ".config"@),
            ),
            SystemFamily::Windows | SystemFamily::Other => None,
        }
    }

    /// The directory of the runtime files.
    pub open spec fn runtime_files(self) -> Seq<char> {
        match self.runtime {
            Some(path) => path@,
            None => match self.under(self.data(), "glorp_syntax"@) {
                Some(dir) => dir,
                None => "."@,
            },
        }
    }

    /// The directory of Helix's runtime files under the configuration.
    pub open spec fn helix_config(self) -> Option<Seq<char>> {
        self.under(self.under(self.config(), "helix"@), "runtime"@)
    }

    /// The directory of Helix's runtime files under the data.
    pub open spec fn helix_data(self) -> Option<Seq<char>> {
        self.under(self.under(self.data(), "helix"@), "runtime"@)
    }

    /// The directory above another one, if that one is there.
    pub open spec fn above(self, path: Option<Seq<char>>) -> Option<Seq<char>> {
        match path {
            Some(path) => parent_on(self.family, path),
            None => None,
        }
    }

    /// The directory two levels above that of the manifest.
    pub open spec fn workspace(self) -> Option<Seq<char>> {
        self.above(self.above(path_at(self.manifest_dir)))
    }

    /// The directory of grammars beside the program.
    pub open spec fn shared_grammars(self) -> Option<Seq<char>> {
        let share = self.under(self.under(self.above(path_at(self.executable)), ".."@), "share"@);
        self.under(self.under(share, "glorp_syntax"@), "grammars"@)
    }

    /// Paths and one more, if it is there and not among them.
    pub open spec fn adding(self, dirs: Seq<Seq<char>>, path: Option<Seq<char>>) -> Seq<Seq<char>> {
        match path {
            Some(path) => pushed(self.family, dirs, path),
            None => dirs,
        }
    }

    /// The directories of Helix's runtime files, the ones to look at first.
    pub open spec fn helix(self) -> Seq<Seq<char>> {
        let first = self.adding(Seq::empty(), path_at(self.helix_runtime));
        let second = if self.helix_config_is_dir {
            self.adding(first, self.helix_config())
        } else {
            first
        };
        if self.helix_data_is_dir {
            self.adding(second, self.helix_data())
        } else {
            second
        }
    }

    /// Where grammars are looked for, the first place first.
    pub open spec fn grammar_places(self) -> Seq<Seq<char>> {
        let runtime = self.under(path_at(self.runtime), "grammars"@);
        let built = self.under(self.under(self.workspace(), "target"@), "grammars"@);
        let cached = self.under(self.cache(), "grammars"@);
        let installed = self.under(self.under(self.data(), "glorp_syntax"@), "grammars"@);
        let first = self.adding(self.adding(Seq::empty(), runtime), self.shared_grammars());
        let own = self.adding(self.adding(self.adding(first, built), cached), installed);
        pushed_all(self.family, own, self.helix(), "grammars"@)
    }

    /// Where queries are looked for, the first place first.
    pub open spec fn query_places(self) -> Seq<Seq<char>> {
        let runtime = self.under(path_at(self.runtime), "queries"@);
        let installed = self.under(self.under(self.data(), "glorp_syntax"@), "queries"@);
        let own = self.adding(self.adding(Seq::empty(), runtime), installed);
        pushed_all(self.family, own, self.helix(), "queries"@)
    }
}

/// Whether one of some paths leads through the same steps as another one.
pub open spec fn has_path(family: SystemFamily, dirs: Seq<Seq<char>>, path: Seq<char>) -> bool {
    exists|i: int| 0 <= i < dirs.len() && same_steps_on(family, #[trigger] dirs[i], path)
}

/// Paths and one more, unless it is among them.
pub open spec fn pushed(family: SystemFamily, dirs: Seq<Seq<char>>, path: Seq<char>) -> Seq<
    Seq<char>,
> {
    if has_path(family, dirs, path) {
        dirs
    } else {
        dirs.push(path)
    }
}

/// Paths and those that lead to `name` behind each of some bases, without those that are among
/// them.
pub open spec fn pushed_all(
    family: SystemFamily,
    dirs: Seq<Seq<char>>,
    bases: Seq<Seq<char>>,
    name: Seq<char>,
) -> Seq<Seq<char>>
    decreases bases.len(),
{
    if bases.len() == 0 {
        dirs
    } else {
        pushed(
            family,
            pushed_all(family, dirs, bases.drop_last(), name),
            joined_on(family, bases.last(), name),
        )
    }
}

/// Adds a path to a list, unless it is there.
pub fn push_unique(family: SystemFamily, dirs: &mut Vec<String>, path: String)
    ensures
        texts_of(final(dirs)@) == pushed(family, texts_of(old(dirs)@), path@),
{
    let ghost before = texts_of(dirs@);
    for i in 0..dirs.len()
        invariant
            before == texts_of(dirs@),
            dirs@ == old(dirs)@,
            forall|k: int| 0 <= k < i ==> !same_steps_on(family, #[trigger] before[k], path@),
    {
        if same_path_on(family, &dirs[i], &path) {
            assert(same_steps_on(family, before[i as int], path@));
            return;
        }
    }
    let ghost text = path@;
    dirs.push(path);
    assert(texts_of(dirs@) =~= before.push(text));
}

/// Adds the paths that lead to `name` behind each of some bases.
fn push_all(family: SystemFamily, dirs: &mut Vec<String>, bases: &Vec<String>, name: &str)
    ensures
        texts_of(final(dirs)@) == pushed_all(family, texts_of(old(dirs)@), texts_of(bases@), name@),
{
    let ghost start = texts_of(dirs@);
    let ghost all = texts_of(bases@);
    assert(all.take(0) =~= Seq::empty());
    for i in 0..bases.len()
        invariant
            all == texts_of(bases@),
            texts_of(dirs@) == pushed_all(family, start, all.take(i as int), name@),
    {
        proof {
            assert(all.take(i + 1).drop_last() =~= all.take(i as int));
            assert(all.take(i + 1).last() == bases@[i as int]@);
        }
        push_unique(family, dirs, join_on(family, &bases[i], name));
    }
    assert(all.take(bases.len() as int) =~= all);
}

/// A copy of a path, if it is there.
fn copy_if(path: &Option<String>) -> (copy: Option<String>)
    ensures
        path_at(copy) == path_at(*path),
{
    match path {
        Some(path) => Some(path.clone()),
        None => None,
    }
}

/// The first of two paths that is there.
fn first_of(first: Option<String>, second: Option<String>) -> (path: Option<String>)
    ensures
        path_at(path) == or_else(path_at(first), path_at(second)),
{
    match first {
        Some(path) => Some(path),
        None => second,
    }
}

impl Environment {
    /// Puts a path behind another one, if that one is there.
    fn join_under(&self, base: Option<String>, path: &str) -> (whole: Option<String>)
        ensures
            path_at(whole) == self.under(path_at(base), path@),
    {
        match base {
            Some(base) => Some(join_on(self.family, &base, path)),
            None => None,
        }
    }

    /// Finds the directory above another one, if that one is there.
    fn go_above(&self, path: Option<String>) -> (shorter: Option<String>)
        ensures
            path_at(shorter) == self.above(path_at(path)),
    {
        match path {
            Some(path) => take_parent(self.family, &path),
            None => None,
        }
    }

    /// Adds a path to a list, if there is one and it is not in the list.
    fn push_if(&self, dirs: &mut Vec<String>, path: Option<String>)
        ensures
            texts_of(final(dirs)@) == self.adding(texts_of(old(dirs)@), path_at(path)),
    {
        if let Some(path) = path {
            push_unique(self.family, dirs, path);
        }
    }
}

/// Finds the directory for the data of programs.
pub fn data_local_dir(env: &Environment) -> (dir: Option<String>)
    ensures
        path_at(dir) == env.data(),
{
    match env.family {
        SystemFamily::Unix => first_of(
            copy_if(&env.data_home),
            env.join_under(env.join_under(copy_if(&env.home), ".local"), "share"),
        ),
        SystemFamily::Windows => copy_if(&env.local_app_data),
        SystemFamily::Other => None,
    }
}

/// Finds the directory for what is kept only to be quick.
pub fn cache_dir(env: &Environment) -> (dir: Option<String>)
    ensures
        path_at(dir) == env.cache(),
{
    match env.family {
        SystemFamily::Unix => env.join_under(
            first_of(copy_if(&env.cache_home), env.join_under(copy_if(&env.home), ".cache")),
            "glorp_syntax",
        ),
        SystemFamily::Windows => env.join_under(
            env.join_under(copy_if(&env.local_app_data), "glorp_syntax"),
            "cache",
        ),
        SystemFamily::Other => None,
    }
}

/// Finds the directory of the runtime files.
pub fn runtime_dir(env: &Environment) -> (dir: String)
    ensures
        dir@ == env.runtime_files(),
{
    match &env.runtime {
        Some(path) => path.clone(),
        None => match env.join_under(data_local_dir(env), "glorp_syntax") {
            Some(dir) => dir,
            None => ".".to_owned(),
        },
    }
}

/// Finds the directory of Helix's runtime files under the configuration.
pub fn helix_config_dir(env: &Environment) -> (dir: Option<String>)
    ensures
        path_at(dir) == env.helix_config(),
{
    let config = match env.family {
        SystemFamily::Unix => first_of(
            copy_if(&env.config_home),
            env.join_under(copy_if(&env.home), ".config"),
        ),
        SystemFamily::Windows | SystemFamily::Other => None,
    };
    env.join_under(env.join_under(config, "helix"), "runtime")
}

/// Finds the directory of Helix's runtime files under the data.
pub fn helix_data_dir(env: &Environment) -> (dir: Option<String>)
    ensures
        path_at(dir) == env.helix_data(),
{
    env.join_under(env.join_under(data_local_dir(env), "helix"), "runtime")
}

/// Finds the directories of Helix's runtime files, the ones to look at first.
pub fn helix_runtime_dirs(env: &Environment) -> (dirs: Vec<String>)
    ensures
        texts_of(dirs@) == env.helix(),
{
    let mut dirs: Vec<String> = Vec::with_capacity(3);
    assert(texts_of(dirs@) =~= Seq::empty());
    env.push_if(&mut dirs, copy_if(&env.helix_runtime));
    if env.helix_config_is_dir {
        env.push_if(&mut dirs, helix_config_dir(env));
    }
    if env.helix_data_is_dir {
        env.push_if(&mut dirs, helix_data_dir(env));
    }
    dirs
}

/// Finds the directory two levels above that of the manifest.
pub fn workspace_dir(env: &Environment) -> (dir: Option<String>)
    ensures
        path_at(dir) == env.workspace(),
{
    env.go_above(env.go_above(copy_if(&env.manifest_dir)))
}

/// Finds the directory of grammars beside the program.
fn shared_grammars_dir(env: &Environment) -> (dir: Option<String>)
    ensures
        path_at(dir) == env.shared_grammars(),
{
    let bin = env.go_above(copy_if(&env.executable));
    let share = env.join_under(env.join_under(bin, ".."), "share");
    env.join_under(env.join_under(share, "glorp_syntax"), "grammars")
}

/// Finds where grammars are looked for, the first place first.
pub fn grammar_search_paths(env: &Environment) -> (dirs: Vec<String>)
    ensures
        texts_of(dirs@) == env.grammar_places(),
{
    let mut dirs: Vec<String> = Vec::with_capacity(8);
    assert(texts_of(dirs@) =~= Seq::empty());
    env.push_if(&mut dirs, env.join_under(copy_if(&env.runtime), "grammars"));
    env.push_if(&mut dirs, shared_grammars_dir(env));
    let target = env.join_under(workspace_dir(env), "target");
    env.push_if(&mut dirs, env.join_under(target, "grammars"));
    env.push_if(&mut dirs, env.join_under(cache_dir(env), "grammars"));
    let installed = env.join_under(data_local_dir(env), "glorp_syntax");
    env.push_if(&mut dirs, env.join_under(installed, "grammars"));
    push_all(env.family, &mut dirs, &helix_runtime_dirs(env), "grammars");
    dirs
}

/// Finds where queries are looked for, the first place first.
pub fn query_search_paths(env: &Environment) -> (dirs: Vec<String>)
    ensures
        texts_of(dirs@) == env.query_places(),
{
    let mut dirs: Vec<String> = Vec::with_capacity(4);
    assert(texts_of(dirs@) =~= Seq::empty());
    env.push_if(&mut dirs, env.join_under(copy_if(&env.runtime), "queries"));
    let installed = env.join_under(data_local_dir(env), "glorp_syntax");
    env.push_if(&mut dirs, env.join_under(installed, "queries"));
    push_all(env.family, &mut dirs, &helix_runtime_dirs(env), "queries");
    dirs
}

/// Whether no two of some paths lead through the same steps.
pub open spec fn are_distinct(family: SystemFamily, dirs: Seq<Seq<char>>) -> bool {
    forall|i: int, j: int|
        0 <= i < j < dirs.len() ==> !same_steps_on(
            family,
            #[trigger] dirs[i],
            #[trigger] dirs[j],
        )
}

proof fn lemma_pushed_is_distinct(env: Environment, dirs: Seq<Seq<char>>, path: Option<Seq<char>>)
    requires
        are_distinct(env.family, dirs),
    ensures
        are_distinct(env.family, env.adding(dirs, path)),
        path matches Some(path) ==> has_path(env.family, env.adding(dirs, Some(path)), path),
        forall|one: Seq<char>| #[trigger]
            has_path(env.family, dirs, one) ==> has_path(env.family, env.adding(dirs, path), one),
{
    let after = env.adding(dirs, path);
    if path is Some && !has_path(env.family, dirs, path->0) {
        assert(same_steps_on(env.family, after[after.len() - 1], path->0));
    }
    assert forall|one: Seq<char>| #[trigger] has_path(env.family, dirs, one) implies has_path(
        env.family,
        after,
        one,
    ) by {
        let i = choose|i: int|
            0 <= i < dirs.len() && same_steps_on(env.family, #[trigger] dirs[i], one);
        assert(same_steps_on(env.family, after[i], one));
    }
}

proof fn lemma_pushed_all_is_distinct(
    env: Environment,
    dirs: Seq<Seq<char>>,
    bases: Seq<Seq<char>>,
    name: Seq<char>,
)
    requires
        are_distinct(env.family, dirs),
    ensures
        are_distinct(env.family, pushed_all(env.family, dirs, bases, name)),
        forall|one: Seq<char>| #[trigger]
            has_path(env.family, dirs, one) ==> has_path(
                env.family,
                pushed_all(env.family, dirs, bases, name),
                one,
            ),
        forall|i: int|
            0 <= i < bases.len() ==> has_path(
                env.family,
                pushed_all(env.family, dirs, bases, name),
                joined_on(env.family, #[trigger] bases[i], name),
            ),
    decreases bases.len(),
{
    if bases.len() > 0 {
        let front = pushed_all(env.family, dirs, bases.drop_last(), name);
        lemma_pushed_all_is_distinct(env, dirs, bases.drop_last(), name);
        lemma_pushed_is_distinct(env, front, Some(joined_on(env.family, bases.last(), name)));
        assert forall|i: int| 0 <= i < bases.len() implies has_path(
            env.family,
            pushed_all(env.family, dirs, bases, name),
            joined_on(env.family, #[trigger] bases[i], name),
        ) by {
            if i < bases.len() - 1 {
                assert(bases.drop_last()[i] == bases[i]);
                assert(has_path(env.family, front, joined_on(env.family, bases[i], name)));
            }
        }
    }
}

/// Whether a place is looked at, if there is one.
pub open spec fn is_looked_at(
    env: Environment,
    places: Seq<Seq<char>>,
    place: Option<Seq<char>>,
) -> bool {
    place matches Some(place) ==> has_path(env.family, places, place)
}

/// No place is looked at twice, and none that the surroundings name is left out.
pub proof fn lemma_query_places(env: Environment)
    ensures
        are_distinct(env.family, env.helix()),
        are_distinct(env.family, env.query_places()),
        is_looked_at(env, env.query_places(), env.under(path_at(env.runtime), "queries"@)),
        is_looked_at(
            env,
            env.query_places(),
            env.under(env.under(env.data(), "glorp_syntax"@), "queries"@),
        ),
        forall|i: int|
            0 <= i < env.helix().len() ==> has_path(
                env.family,
                env.query_places(),
                joined_on(env.family, #[trigger] env.helix()[i], "queries"@),
            ),
{
    let none: Seq<Seq<char>> = Seq::empty();
    let first = env.adding(none, path_at(env.helix_runtime));
    lemma_pushed_is_distinct(env, none, path_at(env.helix_runtime));
    lemma_pushed_is_distinct(env, first, env.helix_config());
    lemma_pushed_is_distinct(env, first, env.helix_data());
    lemma_pushed_is_distinct(env, env.adding(first, env.helix_config()), env.helix_data());
    let a = env.under(path_at(env.runtime), "queries"@);
    let b = env.under(env.under(env.data(), "glorp_syntax"@), "queries"@);
    lemma_pushed_is_distinct(env, none, a);
    lemma_pushed_is_distinct(env, env.adding(none, a), b);
    lemma_pushed_all_is_distinct(
        env,
        env.adding(env.adding(none, a), b),
        env.helix(),
        "queries"@,
    );
}

/// No place is looked at twice, and none that the surroundings name is left out.
pub proof fn lemma_grammar_places(env: Environment)
    ensures
        are_distinct(env.family, env.grammar_places()),
        is_looked_at(env, env.grammar_places(), env.under(path_at(env.runtime), "grammars"@)),
        is_looked_at(env, env.grammar_places(), env.shared_grammars()),
        is_looked_at(
            env,
            env.grammar_places(),
            env.under(env.under(env.workspace(), "target"@), "grammars"@),
        ),
        is_looked_at(env, env.grammar_places(), env.under(env.cache(), "grammars"@)),
        is_looked_at(
            env,
            env.grammar_places(),
            env.under(env.under(env.data(), "glorp_syntax"@), "grammars"@),
        ),
        forall|i: int|
            0 <= i < env.helix().len() ==> has_path(
                env.family,
                env.grammar_places(),
                joined_on(env.family, #[trigger] env.helix()[i], "grammars"@),
            ),
{
    let none: Seq<Seq<char>> = Seq::empty();
    let runtime = env.under(path_at(env.runtime), "grammars"@);
    let built = env.under(env.under(env.workspace(), "target"@), "grammars"@);
    let cached = env.under(env.cache(), "grammars"@);
    let installed = env.under(env.under(env.data(), "glorp_syntax"@), "grammars"@);
    let a = env.adding(none, runtime);
    let b = env.adding(a, env.shared_grammars());
    let c = env.adding(b, built);
    let d = env.adding(c, cached);
    let e = env.adding(d, installed);
    lemma_pushed_is_distinct(env, none, runtime);
    lemma_pushed_is_distinct(env, a, env.shared_grammars());
    lemma_pushed_is_distinct(env, b, built);
    lemma_pushed_is_distinct(env, c, cached);
    lemma_pushed_is_distinct(env, d, installed);
    lemma_pushed_all_is_distinct(env, e, env.helix(), "grammars"@);
}

/// Which directories are named: for each of them first the variable of its own, then the one that
/// lies under the home directory. Windows has one directory for the data and none for
/// configurations.
pub proof fn lemma_named_directories(env: Environment)
    ensures
        env.family is Unix && env.data_home is Some ==> env.data() == Some((env.data_home->0)@),
        env.family is Unix && env.data_home is None && env.home is Some ==> env.data() == Some(
            joined_on(
                SystemFamily::Unix,
                joined_on(SystemFamily::Unix, (env.home->0)@, ".local"@),
                "share"@,
            ),
        ),
        env.family is Unix && env.data_home is None && env.home is None ==> env.data() is None,
        env.family is Windows && env.local_app_data is Some ==> env.data() == Some(
            (env.local_app_data->0)@,
        ),
        env.family is Windows && env.local_app_data is None ==> env.data() is None,
        env.family is Unix && env.config_home is Some ==> env.config() == Some(
            (env.config_home->0)@,
        ),
        env.family is Unix && env.config_home is None && env.home is Some ==> env.config() == Some(
            joined_on(SystemFamily::Unix, (env.home->0)@, ".config"@),
        ),
        env.family is Unix && env.config_home is None && env.home is None ==> env.config() is None,
        !(env.family is Unix) ==> env.config() is None,
        env.family is Unix && env.cache_home is Some ==> env.cache() == Some(
            joined_on(SystemFamily::Unix, (env.cache_home->0)@, "glorp_syntax"@),
        ),
        env.family is Unix && env.cache_home is None && env.home is Some ==> env.cache() == Some(
            joined_on(
                SystemFamily::Unix,
                joined_on(SystemFamily::Unix, (env.home->0)@, ".cache"@),
                "glorp_syntax"@,
            ),
        ),
        env.family is Unix && env.cache_home is None && env.home is None ==> env.cache() is None,
        env.family is Windows && env.local_app_data is Some ==> env.cache() == Some(
            joined_on(
                SystemFamily::Windows,
                joined_on(SystemFamily::Windows, (env.local_app_data->0)@, "glorp_syntax"@),
                "cache"@,
            ),
        ),
        env.family is Other ==> env.data() is None && env.cache() is None,
{
}

/// The runtime files lie where the variable for them says. Without it they lie under the data, and
/// without that in the current directory.
pub proof fn lemma_runtime_files(env: Environment)
    ensures
        env.runtime is Some ==> env.runtime_files() == (env.runtime->0)@,
        env.runtime is None && env.data() is Some ==> env.runtime_files() == joined_on(
            env.family,
            env.data()->0,
            "glorp_syntax"@,
        ),
        env.runtime is None && env.data() is None ==> env.runtime_files() == "."@,
{
}

/// A path goes behind those that are there, unless one of them leads through the same steps. In
/// both cases the others keep their places.
pub proof fn lemma_added_path(family: SystemFamily, dirs: Seq<Seq<char>>, path: Seq<char>)
    ensures
        ({
            let after = pushed(family, dirs, path);
            &&& after.take(dirs.len() as int) == dirs
            &&& after.len() == dirs.len() <==> exists|i: int|
                0 <= i < dirs.len() && same_steps_on(family, #[trigger] dirs[i], path)
            &&& after.len() != dirs.len() ==> after.len() == dirs.len() + 1 && after[dirs.len() as int]
                == path
        }),
{
    assert(pushed(family, dirs, path).take(dirs.len() as int) =~= dirs);
}

/// What is added under some bases goes behind what is there, and is nothing but what lies under
/// one of them.
pub proof fn lemma_added_paths(
    family: SystemFamily,
    dirs: Seq<Seq<char>>,
    bases: Seq<Seq<char>>,
    name: Seq<char>,
)
    ensures
        ({
            let after = pushed_all(family, dirs, bases, name);
            &&& after.len() >= dirs.len()
            &&& after.take(dirs.len() as int) == dirs
            &&& forall|i: int|
                dirs.len() <= i < after.len() ==> exists|b: int|
                    0 <= b < bases.len() && #[trigger] after[i] == joined_on(
                        family,
                        #[trigger] bases[b],
                        name,
                    )
        }),
    decreases bases.len(),
{
    let after = pushed_all(family, dirs, bases, name);
    if bases.len() > 0 {
        let front = bases.drop_last();
        lemma_added_paths(family, dirs, front, name);
        let before = pushed_all(family, dirs, front, name);
        lemma_added_path(family, before, joined_on(family, bases.last(), name));
        assert(after.take(dirs.len() as int) =~= before.take(dirs.len() as int));
        assert forall|i: int| dirs.len() <= i < after.len() implies exists|b: int|
            0 <= b < bases.len() && #[trigger] after[i] == joined_on(
                family,
                #[trigger] bases[b],
                name,
            ) by {
            if i < before.len() {
                assert(after[i] == before[i]);
                let b = choose|b: int|
                    0 <= b < front.len() && before[i] == joined_on(
                        family,
                        #[trigger] front[b],
                        name,
                    );
                assert(bases[b] == front[b]);
            } else {
                assert(bases[bases.len() - 1] == bases.last());
            }
        }
    } else {
        assert(after.take(dirs.len() as int) =~= dirs);
    }
}

/// Which places of queries come first: those of the runtime files, then those that are installed,
/// then those of Helix.
pub proof fn lemma_query_places_in_turn(env: Environment)
    ensures
        ({
            let places = env.query_places();
            let runtime = joined_on(env.family, (env.runtime->0)@, "queries"@);
            let installed = joined_on(
                env.family,
                joined_on(env.family, env.data()->0, "glorp_syntax"@),
                "queries"@,
            );
            let own = if env.runtime is Some && env.data() is Some && !same_steps_on(
                env.family,
                runtime,
                installed,
            ) {
                seq![runtime, installed]
            } else if env.runtime is Some {
                seq![runtime]
            } else if env.data() is Some {
                seq![installed]
            } else {
                Seq::empty()
            };
            &&& places.len() >= own.len()
            &&& places.take(own.len() as int) == own
            &&& forall|i: int|
                own.len() <= i < places.len() ==> exists|b: int|
                    0 <= b < env.helix().len() && #[trigger] places[i] == joined_on(
                        env.family,
                        #[trigger] env.helix()[b],
                        "queries"@,
                    )
        }),
{
    let none: Seq<Seq<char>> = Seq::empty();
    let a = env.under(path_at(env.runtime), "queries"@);
    let b = env.under(env.under(env.data(), "glorp_syntax"@), "queries"@);
    let first = env.adding(none, a);
    let own = env.adding(first, b);
    assert(!has_path(env.family, none, a->0));
    assert(!has_path(env.family, none, b->0));
    if a is Some {
        assert(first =~= seq![a->0]);
        if b is Some {
            assert(first[0] == a->0);
            assert(has_path(env.family, first, b->0) <==> same_steps_on(env.family, a->0, b->0));
            if !has_path(env.family, first, b->0) {
                assert(own =~= seq![a->0, b->0]);
            }
        }
    } else if b is Some {
        assert(own =~= seq![b->0]);
    }
    lemma_added_paths(env.family, own, env.helix(), "queries"@);
}

/// A set runtime directory is the first place of grammars, and the directories of Helix are the
/// last ones.
pub proof fn lemma_grammar_places_in_turn(env: Environment)
    ensures
        env.runtime is Some ==> env.grammar_places().len() > 0 && env.grammar_places()[0]
            == joined_on(env.family, (env.runtime->0)@, "grammars"@),
        env.helix().len() == 0 ==> env.grammar_places().len() <= 5,
{
    let none: Seq<Seq<char>> = Seq::empty();
    let runtime = env.under(path_at(env.runtime), "grammars"@);
    let built = env.under(env.under(env.workspace(), "target"@), "grammars"@);
    let cached = env.under(env.cache(), "grammars"@);
    let installed = env.under(env.under(env.data(), "glorp_syntax"@), "grammars"@);
    let a = env.adding(none, runtime);
    let b = env.adding(a, env.shared_grammars());
    let c = env.adding(b, built);
    let d = env.adding(c, cached);
    let e = env.adding(d, installed);
    assert(!has_path(env.family, none, runtime->0));
    lemma_added_paths(env.family, e, env.helix(), "grammars"@);
    if env.runtime is Some {
        assert(a[0] == runtime->0);
        assert(e[0] == a[0]);
        assert(env.grammar_places().take(e.len() as int)[0] == e[0]);
    }
}

/// Which directories of Helix are looked at: that of its variable, and those under the
/// configuration and the data if they are there, in this order.
pub proof fn lemma_helix_directories(env: Environment)
    ensures
        env.helix_runtime is Some ==> env.helix().len() > 0 && env.helix()[0] == (
        env.helix_runtime->0)@,
        env.helix_runtime is None && !env.helix_config_is_dir && !env.helix_data_is_dir
            ==> env.helix().len() == 0,
        env.helix_runtime is None && env.helix_config_is_dir && env.config() is Some
            ==> env.helix().len() > 0 && env.helix()[0] == joined_on(
            env.family,
            joined_on(env.family, env.config()->0, "helix"@),
            "runtime"@,
        ),
        env.helix_runtime is None && !env.helix_config_is_dir && env.helix_data_is_dir
            && env.data() is Some ==> env.helix() == seq![
            joined_on(env.family, joined_on(env.family, env.data()->0, "helix"@), "runtime"@),
        ],
        env.helix().len() <= 3,
{
    let none: Seq<Seq<char>> = Seq::empty();
    assert(forall|path: Seq<char>| !#[trigger] has_path(env.family, none, path));
    if env.helix_runtime is None && !env.helix_config_is_dir && env.helix_data_is_dir
        && env.data() is Some {
        assert(env.helix() =~= seq![
            joined_on(env.family, joined_on(env.family, env.data()->0, "helix"@), "runtime"@),
        ]);
    }
}

/// Where all of them are named and no two are the same, the places of grammars come in this order:
/// the runtime files, what lies beside the program, what was built, what is cached, what is
/// installed, and then Helix.
pub proof fn lemma_all_grammar_places(
    env: Environment,
    runtime: Seq<char>,
    shared: Seq<char>,
    built: Seq<char>,
    cached: Seq<char>,
    installed: Seq<char>,
)
    requires
        env.runtime is Some && runtime == joined_on(env.family, (env.runtime->0)@, "grammars"@),
        env.shared_grammars() == Some(shared),
        env.workspace() is Some && built == joined_on(
            env.family,
            joined_on(env.family, env.workspace()->0, "target"@),
            "grammars"@,
        ),
        env.cache() is Some && cached == joined_on(env.family, env.cache()->0, "grammars"@),
        env.data() is Some && installed == joined_on(
            env.family,
            joined_on(env.family, env.data()->0, "glorp_syntax"@),
            "grammars"@,
        ),
        are_distinct(env.family, seq![runtime, shared, built, cached, installed]),
    ensures
        env.grammar_places().take(5) == seq![runtime, shared, built, cached, installed],
        forall|i: int|
            5 <= i < env.grammar_places().len() ==> exists|b: int|
                0 <= b < env.helix().len() && #[trigger] env.grammar_places()[i] == joined_on(
                    env.family,
                    #[trigger] env.helix()[b],
                    "grammars"@,
                ),
{
    let all = seq![runtime, shared, built, cached, installed];
    let family = env.family;
    assert(all[0] == runtime && all[1] == shared && all[2] == built && all[3] == cached && all[4]
        == installed);
    let a = env.adding(Seq::empty(), Some(runtime));
    assert(a =~= all.take(1));
    lemma_new_path(family, all, 1);
    let b = env.adding(a, Some(shared));
    assert(b =~= all.take(2));
    lemma_new_path(family, all, 2);
    let c = env.adding(b, Some(built));
    assert(c =~= all.take(3));
    lemma_new_path(family, all, 3);
    let d = env.adding(c, Some(cached));
    assert(d =~= all.take(4));
    lemma_new_path(family, all, 4);
    let e = env.adding(d, Some(installed));
    assert(e =~= all);
    lemma_added_paths(family, e, env.helix(), "grammars"@);
}

/// Of different paths none is among those before it.
proof fn lemma_new_path(family: SystemFamily, all: Seq<Seq<char>>, at: int)
    requires
        are_distinct(family, all),
        0 <= at < all.len(),
    ensures
        !has_path(family, all.take(at), all[at]),
{
    if has_path(family, all.take(at), all[at]) {
        let i = choose|i: int|
            0 <= i < at && same_steps_on(family, #[trigger] all.take(at)[i], all[at]);
        assert(all.take(at)[i] == all[i]);
    }
}

} // verus!
