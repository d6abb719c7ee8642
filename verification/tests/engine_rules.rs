use run_if::change_detection::{hash_string, StatusCache};
use run_if::engine::{evaluate, record_exit, DepObs, EngineError, PathObs};
use run_if::fs_model::FsTree;

fn file_dep(path: &str, mtime: u128, content: &str) -> DepObs {
    DepObs {
        path: path.to_string(),
        state: PathObs::Present {
            mtime,
            tree: FsTree::File { content: content.as_bytes().to_vec() },
        },
    }
}

fn dir_dep(path: &str, mtime: u128, entries: Vec<(&str, &str)>) -> DepObs {
    DepObs {
        path: path.to_string(),
        state: PathObs::Present {
            mtime,
            tree: FsTree::Dir {
                entries: entries
                    .into_iter()
                    .map(|(n, c)| {
                        (n.to_string(), FsTree::File { content: c.as_bytes().to_vec() })
                    })
                    .collect(),
            },
        },
    }
}

fn identity(command: &str) -> String {
    hash_string(&command.to_string())
}

#[test]
fn single_file_dependency() {
    let mut cache = StatusCache::new();
    let cmd = identity("echo RUNNING");
    let none: Vec<bool> = vec![];

    let first = evaluate(
        &mut cache,
        &cmd,
        &vec![file_dep("dep1.txt", 100, "bye")],
        &none,
        &none,
        false,
        false,
        false,
    )
    .unwrap();
    assert!(first);
    record_exit(&mut cache, &cmd, Some(0));

    let second = evaluate(
        &mut cache,
        &cmd,
        &vec![file_dep("dep1.txt", 100, "bye")],
        &none,
        &none,
        false,
        false,
        false,
    )
    .unwrap();
    assert!(!second);

    let third = evaluate(
        &mut cache,
        &cmd,
        &vec![file_dep("dep1.txt", 200, "bye bye")],
        &none,
        &none,
        false,
        false,
        false,
    )
    .unwrap();
    assert!(third);
    record_exit(&mut cache, &cmd, Some(0));

    let fourth = evaluate(
        &mut cache,
        &cmd,
        &vec![file_dep("dep1.txt", 200, "bye bye")],
        &none,
        &none,
        false,
        false,
        false,
    )
    .unwrap();
    assert!(!fourth);
}

#[test]
fn mtime_is_a_filter_not_the_truth() {
    let mut cache = StatusCache::new();
    let cmd = identity("build");
    let none: Vec<bool> = vec![];

    assert!(evaluate(
        &mut cache,
        &cmd,
        &vec![file_dep("src.c", 7, "int main;")],
        &none,
        &none,
        false,
        false,
        false,
    )
    .unwrap());

    // Same mtime, different content: the re-check is skipped for files.
    assert!(!evaluate(
        &mut cache,
        &cmd,
        &vec![file_dep("src.c", 7, "int main; // edited")],
        &none,
        &none,
        false,
        false,
        false,
    )
    .unwrap());

    // Unless mtimes are ignored: then content decides.
    assert!(evaluate(
        &mut cache,
        &cmd,
        &vec![file_dep("src.c", 7, "int main; // edited")],
        &none,
        &none,
        false,
        false,
        true,
    )
    .unwrap());

    // Same mtime, same content, ignoring mtimes: still no run.
    assert!(!evaluate(
        &mut cache,
        &cmd,
        &vec![file_dep("src.c", 7, "int main; // edited")],
        &none,
        &none,
        false,
        false,
        true,
    )
    .unwrap());
}

#[test]
fn directories_are_always_rehashed() {
    let mut cache = StatusCache::new();
    let cmd = identity("pack");
    let none: Vec<bool> = vec![];

    assert!(evaluate(
        &mut cache,
        &cmd,
        &vec![dir_dep("assets", 5, vec![("a.png", "img-a")])],
        &none,
        &none,
        false,
        false,
        false,
    )
    .unwrap());

    // Same mtime on the directory, changed content below: still caught.
    assert!(evaluate(
        &mut cache,
        &cmd,
        &vec![dir_dep("assets", 5, vec![("a.png", "img-b")])],
        &none,
        &none,
        false,
        false,
        false,
    )
    .unwrap());

    assert!(!evaluate(
        &mut cache,
        &cmd,
        &vec![dir_dep("assets", 5, vec![("a.png", "img-b")])],
        &none,
        &none,
        false,
        false,
        false,
    )
    .unwrap());
}

#[test]
fn missing_target_only() {
    let mut cache = StatusCache::new();
    let cmd = identity("echo RUNNING");
    let deps: Vec<DepObs> = vec![];
    let none: Vec<bool> = vec![];

    // Fresh cache, no dependencies, one missing target: must run.
    assert!(evaluate(&mut cache, &cmd, &deps, &vec![false], &none, false, false, false).unwrap());
    record_exit(&mut cache, &cmd, Some(0));

    // Known identity: the missing target alone still forces the run.
    assert!(evaluate(&mut cache, &cmd, &deps, &vec![false], &none, false, false, false).unwrap());

    // All targets present: nothing left to force it.
    assert!(!evaluate(&mut cache, &cmd, &deps, &vec![true, true], &none, false, false, false)
        .unwrap());
}

#[test]
fn present_sentinel_forces_the_run() {
    let mut cache = StatusCache::new();
    let cmd = identity("cleanup");
    let none: Vec<bool> = vec![];

    assert!(evaluate(
        &mut cache,
        &cmd,
        &vec![file_dep("cfg", 1, "v=1")],
        &vec![true],
        &none,
        false,
        false,
        false,
    )
    .unwrap());
    record_exit(&mut cache, &cmd, Some(0));

    // Dependencies unchanged, targets present, but a sentinel exists.
    assert!(evaluate(
        &mut cache,
        &cmd,
        &vec![file_dep("cfg", 1, "v=1")],
        &vec![true],
        &vec![false, true],
        false,
        false,
        false,
    )
    .unwrap());

    assert!(!evaluate(
        &mut cache,
        &cmd,
        &vec![file_dep("cfg", 1, "v=1")],
        &vec![true],
        &vec![false, false],
        false,
        false,
        false,
    )
    .unwrap());
}

#[test]
fn force_runs_and_still_updates_state() {
    let mut cache = StatusCache::new();
    let cmd = identity("gen");
    let none: Vec<bool> = vec![];

    assert!(evaluate(&mut cache, &cmd, &vec![file_dep("in", 1, "a")], &none, &none, false, false, false)
        .unwrap());
    record_exit(&mut cache, &cmd, Some(0));

    // Forced run over a changed dependency: verdict is true and the stored
    // hash and mtime are brought up to date.
    assert!(evaluate(&mut cache, &cmd, &vec![file_dep("in", 2, "b")], &none, &none, true, false, false)
        .unwrap());
    record_exit(&mut cache, &cmd, Some(0));

    // Without force, the dependency now counts as unchanged: the forced run
    // really persisted the fresh observation.
    assert!(!evaluate(
        &mut cache,
        &cmd,
        &vec![file_dep("in", 2, "b")],
        &none,
        &none,
        false,
        false,
        false,
    )
    .unwrap());

    // Force alone, with nothing else demanding a run, still runs.
    assert!(evaluate(&mut cache, &cmd, &vec![file_dep("in", 2, "b")], &none, &none, true, false, false)
        .unwrap());
}

#[test]
fn try_until_success_retries_only_after_failure() {
    let mut cache = StatusCache::new();
    let cmd = identity("flaky");
    let deps: Vec<DepObs> = vec![];
    let none: Vec<bool> = vec![];

    assert!(evaluate(&mut cache, &cmd, &deps, &none, &none, false, true, false).unwrap());
    record_exit(&mut cache, &cmd, Some(2));

    // Prior exit code non-zero: retry forces the run.
    assert!(evaluate(&mut cache, &cmd, &deps, &none, &none, false, true, false).unwrap());
    record_exit(&mut cache, &cmd, Some(0));

    // Prior exit code zero: no retry.
    assert!(!evaluate(&mut cache, &cmd, &deps, &none, &none, false, true, false).unwrap());

    // And without the flag a failure is not retried.
    record_exit(&mut cache, &cmd, Some(1));
    assert!(!evaluate(&mut cache, &cmd, &deps, &none, &none, false, false, false).unwrap());
}

#[test]
fn idempotent_without_signals() {
    let mut cache = StatusCache::new();
    let cmd = identity("make all");
    let deps = || vec![
        file_dep("main.c", 11, "int main() {}"),
        dir_dep("include", 12, vec![("a.h", "#pragma once")]),
    ];

    assert!(evaluate(&mut cache, &cmd, &deps(), &vec![true], &vec![false], false, false, false)
        .unwrap());
    record_exit(&mut cache, &cmd, Some(0));
    assert!(!evaluate(&mut cache, &cmd, &deps(), &vec![true], &vec![false], false, false, false)
        .unwrap());
    assert!(!evaluate(&mut cache, &cmd, &deps(), &vec![true], &vec![false], false, false, false)
        .unwrap());
}

#[test]
fn missing_dependency_is_fatal_and_leaves_the_cache_alone() {
    let mut cache = StatusCache::new();
    let cmd = identity("job");
    let none: Vec<bool> = vec![];
    let missing = DepObs { path: "gone.txt".to_string(), state: PathObs::Missing };

    let err = evaluate(&mut cache, &cmd, &vec![missing], &none, &none, false, false, false)
        .unwrap_err();
    match err {
        EngineError::MissingDependency { path } => assert_eq!(path, "gone.txt"),
        other => panic!("wrong error: {:?}", other),
    }
    assert_eq!(cache.commands.len(), 0);
}

#[test]
fn unhashable_dependency_is_fatal_and_leaves_the_cache_alone() {
    let mut cache = StatusCache::new();
    let cmd = identity("job");
    let none: Vec<bool> = vec![];
    let odd = DepObs {
        path: "dev".to_string(),
        state: PathObs::Present { mtime: 3, tree: FsTree::Other },
    };

    let err =
        evaluate(&mut cache, &cmd, &vec![odd], &none, &none, false, false, false).unwrap_err();
    match err {
        EngineError::UnsupportedDependency { path } => assert_eq!(path, "dev"),
        other => panic!("wrong error: {:?}", other),
    }
    assert_eq!(cache.commands.len(), 0);
}

#[test]
fn distinct_path_spellings_are_tracked_independently() {
    let mut cache = StatusCache::new();
    let cmd = identity("job");
    let none: Vec<bool> = vec![];

    assert!(evaluate(&mut cache, &cmd, &vec![file_dep("./a", 1, "x")], &none, &none, false, false, false)
        .unwrap());
    record_exit(&mut cache, &cmd, Some(0));

    // The same file under another spelling is a new dependency.
    assert!(evaluate(&mut cache, &cmd, &vec![file_dep("a", 1, "x")], &none, &none, false, false, false)
        .unwrap());
}
