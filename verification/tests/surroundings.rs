use glorp_syntax::grammar_build::{
    built_library_path, c_compilers, cxx_compilers, finish_build, get_grammar_src_dir, grammar_lib_dir,
    grammar_sources_dir, library_extension, needs_recompile, plan_build, require_parser, BuildFacts, BuildStatus,
    FetchAction, FetchEvent, FetchPlan, FetchState, FetchStatus, GrammarBuildError, GrammarConfig, GrammarSource,
    Platform,
};
use glorp_syntax::paths::{
    join, join_on, parent, path_steps, same_path, same_path_on, take_parent, SystemFamily,
};
use glorp_syntax::runtime_paths::{
    cache_dir, data_local_dir, grammar_search_paths, helix_runtime_dirs, push_unique, query_search_paths, runtime_dir,
    workspace_dir, Environment,
};

fn text(value: &str) -> Option<String> {
    Some(value.to_owned())
}

#[test]
fn paths_are_joined_and_taken_apart() {
    assert_eq!(join("a", "b"), "a/b");
    assert_eq!(join("a/", "b"), "a/b");
    assert_eq!(join("", "b"), "b");
    assert_eq!(join("a", "/b"), "/b");
    assert_eq!(path_steps("/a//b/./c/"), vec!["a", "b", "c"]);
    assert_eq!(path_steps("./a/.."), vec![".", "a", ".."]);
    assert!(same_path("/a//b/", "/a/b"));
    assert!(same_path("a/./b", "a/b"));
    assert!(!same_path("./a", "a"));
    assert!(!same_path("/a", "a"));
    assert_eq!(parent("/a/b"), text("/a"));
    assert_eq!(parent("/a"), text("/"));
    assert_eq!(parent("/"), None);
    assert_eq!(parent("a"), text(""));
    assert_eq!(parent(""), None);
    let mut dirs = vec!["/a".to_owned()];
    push_unique(SystemFamily::Unix, &mut dirs, "/a/".to_owned());
    push_unique(SystemFamily::Unix, &mut dirs, "/b".to_owned());
    assert_eq!(dirs, vec!["/a", "/b"]);
}

#[test]
fn directories_follow_the_surroundings() {
    let mut env = Environment::default();
    assert_eq!(runtime_dir(&env), ".");
    assert_eq!(cache_dir(&env), None);
    assert_eq!(data_local_dir(&env), None);
    assert!(grammar_search_paths(&env).is_empty());
    env.home = text("/home/me");
    assert_eq!(runtime_dir(&env), "/home/me/.local/share/glorp_syntax");
    assert_eq!(cache_dir(&env), text("/home/me/.cache/glorp_syntax"));
    env.cache_home = text("/cache");
    env.data_home = text("/data");
    assert_eq!(cache_dir(&env), text("/cache/glorp_syntax"));
    assert_eq!(data_local_dir(&env), text("/data"));
    env.runtime = text("/run");
    assert_eq!(runtime_dir(&env), "/run");
    env.executable = text("/usr/bin/app");
    env.manifest_dir = text("/work/crates/app");
    env.helix_runtime = text("/helix");
    env.helix_config_is_dir = true;
    env.helix_data_is_dir = false;
    assert_eq!(workspace_dir(&env), text("/work"));
    assert_eq!(
        helix_runtime_dirs(&env),
        vec!["/helix", "/home/me/.config/helix/runtime"]
    );
    assert_eq!(
        grammar_search_paths(&env),
        vec![
            "/run/grammars",
            "/usr/bin/../share/glorp_syntax/grammars",
            "/work/target/grammars",
            "/cache/glorp_syntax/grammars",
            "/data/glorp_syntax/grammars",
            "/helix/grammars",
            "/home/me/.config/helix/runtime/grammars",
        ]
    );
    assert_eq!(
        query_search_paths(&env),
        vec![
            "/run/queries",
            "/data/glorp_syntax/queries",
            "/helix/queries",
            "/home/me/.config/helix/runtime/queries",
        ]
    );
    // A place that is named twice is looked at once.
    env.helix_runtime = text("/run/");
    assert_eq!(query_search_paths(&env)[0], "/run/queries");
    assert_eq!(query_search_paths(&env).len(), 3);
}

fn git_grammar(subpath: Option<&str>) -> GrammarConfig {
    GrammarConfig {
        grammar_id: "tree-sitter-x".to_owned(),
        source: GrammarSource::Git {
            remote: "https://example.com/x".to_owned(),
            revision: "abc123".to_owned(),
            subpath: subpath.map(str::to_owned),
        },
    }
}

fn cached() -> Environment {
    Environment {
        cache_home: text("/cache"),
        ..Environment::default()
    }
}

#[test]
fn grammars_are_built_where_they_are_looked_for() {
    let env = cached();
    assert_eq!(grammar_sources_dir(&env), "/cache/glorp_syntax/grammars/sources");
    assert_eq!(grammar_lib_dir(&env), "/cache/glorp_syntax/grammars");
    assert_eq!(
        get_grammar_src_dir(&env, &git_grammar(None)),
        "/cache/glorp_syntax/grammars/sources/tree-sitter-x/src"
    );
    assert_eq!(
        get_grammar_src_dir(&env, &git_grammar(Some("sub"))),
        "/cache/glorp_syntax/grammars/sources/tree-sitter-x/sub/src"
    );
    let local = GrammarConfig {
        grammar_id: "x".to_owned(),
        source: GrammarSource::Local {
            path: "/src/x".to_owned(),
        },
    };
    assert_eq!(get_grammar_src_dir(&env, &local), "/src/x/src");
    assert_eq!(
        built_library_path(&env, &git_grammar(None), Platform::Linux),
        "/cache/glorp_syntax/grammars/libtree_sitter_x.so"
    );
    assert_eq!(library_extension(Platform::Windows), "dll");
    assert_eq!(library_extension(Platform::MacOs), "dylib");
    let work = Environment {
        manifest_dir: text("/work/crates/app"),
        ..cached()
    };
    assert_eq!(grammar_lib_dir(&work), "/work/target/grammars");
    assert!(FetchPlan::start(&env, &local).is_none());
}

fn facts() -> BuildFacts {
    BuildFacts {
        has_scanner_c: true,
        has_scanner_cc: false,
        library: None,
        parser_c: Some(1),
        scanner_c: Some(2),
        scanner_cc: None,
        cc: text("cc"),
        cxx: None,
    }
}

#[test]
fn libraries_are_built_when_their_sources_are_newer() {
    assert!(needs_recompile(None, &[]));
    assert!(!needs_recompile(Some(5), &[Some(5), None]));
    assert!(needs_recompile(Some(5), &[Some(4), Some(6)]));
    let env = cached();
    let grammar = git_grammar(None);
    let fresh = BuildFacts {
        library: Some(2),
        ..facts()
    };
    assert_eq!(plan_build(&env, &grammar, Platform::Linux, &fresh), Ok(None));
    let command = plan_build(&env, &grammar, Platform::Linux, &facts())
        .expect("there is a compiler")
        .expect("there is no library");
    assert_eq!(command.program, "cc");
    let sources = "/cache/glorp_syntax/grammars/sources/tree-sitter-x/src";
    assert_eq!(
        command.args,
        vec![
            "-shared".to_owned(),
            "-fPIC".to_owned(),
            "-O3".to_owned(),
            "-fno-exceptions".to_owned(),
            "-I".to_owned(),
            sources.to_owned(),
            "-o".to_owned(),
            "/cache/glorp_syntax/grammars/libtree_sitter_x.so".to_owned(),
            format!("{sources}/parser.c"),
            format!("{sources}/scanner.c"),
            "-Wl,-z,relro,-z,now".to_owned(),
        ]
    );
    let cxx = BuildFacts {
        has_scanner_cc: true,
        ..facts()
    };
    assert_eq!(
        plan_build(&env, &grammar, Platform::Linux, &cxx),
        Err(GrammarBuildError::Compilation(
            "C++ compiler required for tree-sitter-x but none found. Install clang++/g++ or set CXX.".to_owned()
        ))
    );
    let none = BuildFacts { cc: None, ..facts() };
    assert_eq!(
        plan_build(&env, &grammar, Platform::Linux, &none),
        Err(GrammarBuildError::Compilation(
            "C compiler required but none found. Install clang/gcc or set CC.".to_owned()
        ))
    );
    let windows = plan_build(&env, &grammar, Platform::Windows, &facts())
        .expect("there is a compiler")
        .expect("there is no library");
    assert_eq!(windows.program, "cl.exe");
    assert_eq!(windows.args[4], format!("/I{sources}"));
    assert_eq!(
        require_parser("/s", false),
        Err(GrammarBuildError::NoParserSource("/s".to_owned()))
    );
    assert_eq!(require_parser("/s", true), Ok(()));
    assert_eq!(finish_build("/l", true), Ok(BuildStatus::Built));
    assert_eq!(
        finish_build("/l", false),
        Err(GrammarBuildError::Compilation(
            "compilation succeeded but library not found at /l".to_owned()
        ))
    );
    assert_eq!(c_compilers(Platform::Linux), vec!["cc", "clang", "gcc"]);
    assert_eq!(cxx_compilers(Platform::Windows), vec!["cl", "clang-cl", "clang++", "g++"]);
}

fn git(args: &[&str]) -> FetchAction {
    FetchAction::RunGit {
        dir: text("/cache/glorp_syntax/grammars/sources/tree-sitter-x"),
        args: args.iter().map(|arg| (*arg).to_owned()).collect(),
    }
}

#[test]
fn fetches_update_what_is_there() {
    let plan = FetchPlan::start(&cached(), &git_grammar(None)).expect("it comes from git");
    let (state, action) = plan.next(FetchState::CheckingGit, FetchEvent::Done);
    assert_eq!(
        action,
        FetchAction::LookFor("/cache/glorp_syntax/grammars/sources/tree-sitter-x/.git/HEAD".to_owned())
    );
    let (state, action) = plan.next(state, FetchEvent::Found(true));
    assert_eq!(action, FetchAction::ReadRevision(plan.dir.clone()));
    let (_, action) = plan.next(state, FetchEvent::Revision("abc123def".to_owned()));
    assert_eq!(action, FetchAction::Finish(Ok(FetchStatus::UpToDate)));
    let (_, action) = plan.next(state, FetchEvent::Revision("abc".to_owned()));
    assert_eq!(action, FetchAction::Finish(Ok(FetchStatus::UpToDate)));
    let (state, action) = plan.next(state, FetchEvent::Revision("fff".to_owned()));
    assert_eq!(action, git(&["fetch", "--depth", "1", "origin", "abc123"]));
    let (_, failed) = plan.next(state, FetchEvent::Failed("no route".to_owned()));
    assert_eq!(
        failed,
        FetchAction::Finish(Err(GrammarBuildError::GitCommand("no route".to_owned())))
    );
    let (state, action) = plan.next(state, FetchEvent::Done);
    assert_eq!(action, git(&["checkout", "FETCH_HEAD"]));
    let (state, action) = plan.next(state, FetchEvent::Done);
    assert_eq!(state, FetchState::Finished);
    assert_eq!(action, FetchAction::Finish(Ok(FetchStatus::Updated)));
    let (_, action) = plan.next(FetchState::CheckingGit, FetchEvent::Failed(String::new()));
    assert_eq!(action, FetchAction::Finish(Err(GrammarBuildError::GitNotAvailable)));
}

#[test]
fn fetches_clone_what_is_not_there() {
    let plan = FetchPlan::start(&cached(), &git_grammar(None)).expect("it comes from git");
    let (state, action) = plan.next(FetchState::LookingForRepository, FetchEvent::Found(false));
    assert_eq!(action, FetchAction::LookFor(plan.dir.clone()));
    let (state, action) = plan.next(state, FetchEvent::Found(true));
    assert_eq!(action, FetchAction::RemoveDir(plan.dir.clone()));
    let (_, failed) = plan.next(state, FetchEvent::Failed("denied".to_owned()));
    assert_eq!(
        failed,
        FetchAction::Finish(Err(GrammarBuildError::Io("denied".to_owned())))
    );
    let (state, action) = plan.next(state, FetchEvent::Done);
    assert_eq!(
        action,
        FetchAction::CreateDir("/cache/glorp_syntax/grammars/sources".to_owned())
    );
    let (state, action) = plan.next(state, FetchEvent::Done);
    assert_eq!(
        action,
        FetchAction::RunGit {
            dir: None,
            args: vec![
                "clone".to_owned(),
                "--depth".to_owned(),
                "1".to_owned(),
                "--single-branch".to_owned(),
                "https://example.com/x".to_owned(),
                plan.dir.clone(),
            ],
        }
    );
    let (state, action) = plan.next(state, FetchEvent::Done);
    assert_eq!(action, git(&["fetch", "--depth", "1", "origin", "abc123"]));
    let (state, action) = plan.next(state, FetchEvent::Failed("shallow".to_owned()));
    assert_eq!(action, git(&["fetch", "origin", "abc123"]));
    let (state, action) = plan.next(state, FetchEvent::Done);
    assert_eq!(action, git(&["checkout", "abc123"]));
    let (state, action) = plan.next(state, FetchEvent::Failed("unknown".to_owned()));
    assert_eq!(action, git(&["checkout", "FETCH_HEAD"]));
    let (_, action) = plan.next(state, FetchEvent::Done);
    assert_eq!(action, FetchAction::Finish(Ok(FetchStatus::Updated)));
}

#[test]
fn each_kind_of_system_has_its_own_directories() {
    let mut env = Environment {
        family: SystemFamily::Windows,
        home: text("/home/me"),
        config_home: text("/config"),
        local_app_data: text("C:/Users/me/Local"),
        helix_config_is_dir: true,
        helix_data_is_dir: true,
        ..Environment::default()
    };
    assert_eq!(cache_dir(&env), text("C:/Users/me/Local\\glorp_syntax\\cache"));
    assert_eq!(data_local_dir(&env), text("C:/Users/me/Local"));
    assert_eq!(runtime_dir(&env), "C:/Users/me/Local\\glorp_syntax");
    assert_eq!(helix_runtime_dirs(&env), vec!["C:/Users/me/Local\\helix\\runtime"]);
    env.family = SystemFamily::Other;
    assert_eq!(cache_dir(&env), None);
    assert_eq!(data_local_dir(&env), None);
    assert_eq!(runtime_dir(&env), ".");
    assert!(helix_runtime_dirs(&env).is_empty());
}

#[test]
fn backslashes_part_the_steps_on_windows() {
    let on = SystemFamily::Windows;
    assert_eq!(take_parent(on, r"C:\tools\bin\app.exe"), text(r"C:\tools\bin"));
    assert_eq!(take_parent(on, r"C:\tools/bin"), text(r"C:\tools"));
    assert_eq!(take_parent(on, r"C:\app.exe"), text(r"C:\"));
    assert_eq!(take_parent(on, r"C:\"), None);
    assert_eq!(take_parent(on, r"C:app.exe"), text("C:"));
    assert_eq!(take_parent(on, r"\\server\share\dir"), text(r"\\server\share\"));
    assert_eq!(take_parent(on, r"\\server\share"), None);
    assert_eq!(take_parent(SystemFamily::Unix, r"a\b/c"), text(r"a\b"));
    assert_eq!(join_on(on, r"C:\a", "b"), r"C:\a\b");
    assert_eq!(join_on(on, r"C:\a\", "b"), r"C:\a\b");
    assert_eq!(join_on(on, "C:", "b"), "C:b");
    assert_eq!(join_on(on, r"C:\a", r"\b"), r"C:\b");
    assert_eq!(join_on(on, r"C:\a", r"D:\b"), r"D:\b");
    assert_eq!(join_on(SystemFamily::Unix, "a", "b"), "a/b");
    assert!(same_path_on(on, r"c:\a\.\b\", "C:/a/b"));
    assert!(!same_path_on(on, r"C:a", r"C:\a"));
    assert!(!same_path_on(on, r"C:\a", r"D:\a"));
    assert!(!same_path_on(SystemFamily::Unix, r"a\b", "a/b"));
    let env = Environment {
        family: on,
        executable: text(r"C:\tools\bin\app.exe"),
        manifest_dir: text(r"C:\work\crates\app"),
        ..Environment::default()
    };
    assert_eq!(workspace_dir(&env), text(r"C:\work"));
    assert_eq!(
        grammar_search_paths(&env),
        vec![r"C:\tools\bin\..\share\glorp_syntax\grammars", r"C:\work\target\grammars"]
    );
    assert_eq!(grammar_lib_dir(&env), r"C:\work\target\grammars");
}
