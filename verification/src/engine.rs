//! The staleness decision: whether a command must run, given what was
//! observed at its dependency, target and sentinel paths, and the command's
//! cached status.
//!
//! A command must run when its identity is new to the cache; when a
//! dependency is new to the cache or its content hash changed (re-hashing
//! is skipped, as an optimization only, for a file whose modification time
//! is unchanged, unless mtimes are ignored; directories are always
//! re-hashed); when a target is missing; when a sentinel is present; when
//! `force` is set; and, under `try_until_success`, when the recorded exit
//! code of the prior run is present and non-zero.
//! A missing dependency is a usage error and aborts the decision with the
//! cache untouched, as does a dependency that cannot be hashed.

use crate::change_detection::{
    clone_command, spec_hash_path, hash_path, CmdSnap, CommandStatus, DepSnap, DependencyStatus,
    StatusCache,
};
use crate::fs_model::FsTree;
use crate::string_map::{
    assoc_view, lemma_assoc_contains, lemma_assoc_index, lemma_assoc_push, lemma_assoc_update,
};
use vstd::prelude::*;

verus! {

/// What a caller observed at one path.
#[derive(Debug)]
pub enum PathObs {
    /// The path does not exist.
    Missing,
    /// The path exists: its modification time in microseconds since the
    /// Unix epoch, and the subtree observed there.
    Present { mtime: u128, tree: FsTree },
}

/// One dependency of the command: its path exactly as given on input, and
/// what was observed there.
#[derive(Debug)]
pub struct DepObs {
    pub path: String,
    pub state: PathObs,
}

/// Why the engine refused to decide. Either way the cache is left exactly
/// as it was.
#[derive(Debug)]
pub enum EngineError {
    /// The dependency at this path does not exist: a usage error, not a
    /// staleness signal.
    MissingDependency { path: String },
    /// The dependency at this path, or a visible node under it, is neither
    /// a regular file nor a directory, so it has no content hash.
    UnsupportedDependency { path: String },
}

/// A fault met while walking the dependency list: the path it was met at,
/// and whether the path was missing (otherwise it could not be hashed).
pub ghost struct DepFault {
    pub missing: bool,
    pub path: Seq<char>,
}

/// The outcome of walking the dependency list: the first fault if any, the
/// dependency map as updated by the walk, and whether some dependency
/// demands a run.
pub ghost struct DepsOutcome {
    pub fault: Option<DepFault>,
    pub deps: Map<Seq<char>, DepSnap>,
    pub run: bool,
}

/// The dependency walk. Dependencies are taken in input order. A missing
/// path faults. A path not yet in the map is hashed and inserted, and
/// demands a run. A known path is re-checked only if it is a directory, or
/// mtimes are ignored, or its stored mtime differs from the observed one;
/// a re-check stores the observed mtime, re-hashes, and on a hash change
/// stores the new hash and demands a run. Hashing an unhashable node
/// faults; once a fault occurs the outcome carries that fault, the walk
/// stops, and the engine leaves the cache untouched.
pub open spec fn deps_step(
    m: Map<Seq<char>, DepSnap>,
    deps: Seq<DepObs>,
    ignore_mtimes: bool,
) -> DepsOutcome
    decreases deps.len(),
{
    if deps.len() == 0 {
        DepsOutcome { fault: None, deps: m, run: false }
    } else {
        let d = deps[0];
        match d.state {
            PathObs::Missing => DepsOutcome {
                fault: Some(DepFault { missing: true, path: d.path@ }),
                deps: m,
                run: false,
            },
            PathObs::Present { mtime, tree } => {
                if !m.contains_key(d.path@) {
                    if !tree.hashable() {
                        DepsOutcome {
                            fault: Some(DepFault { missing: false, path: d.path@ }),
                            deps: m,
                            run: false,
                        }
                    } else {
                        let m2 = m.insert(
                            d.path@,
                            DepSnap { content_hash: spec_hash_path(d.path@, tree), mtime },
                        );
                        let rest = deps_step(m2, deps.drop_first(), ignore_mtimes);
                        if rest.fault is Some {
                            rest
                        } else {
                            DepsOutcome { fault: None, deps: rest.deps, run: true }
                        }
                    }
                } else {
                    let known = m[d.path@];
                    let recheck = tree.spec_is_dir() || ignore_mtimes || known.mtime != mtime;
                    if !recheck {
                        deps_step(m, deps.drop_first(), ignore_mtimes)
                    } else if !tree.hashable() {
                        DepsOutcome {
                            fault: Some(DepFault { missing: false, path: d.path@ }),
                            deps: m,
                            run: false,
                        }
                    } else {
                        let h = spec_hash_path(d.path@, tree);
                        let m2 = m.insert(d.path@, DepSnap { content_hash: h, mtime });
                        let changed = h != known.content_hash;
                        let rest = deps_step(m2, deps.drop_first(), ignore_mtimes);
                        if rest.fault is Some {
                            rest
                        } else {
                            DepsOutcome {
                                fault: None,
                                deps: rest.deps,
                                run: changed || rest.run,
                            }
                        }
                    }
                }
            },
        }
    }
}

/// An outcome continued under an already-accumulated run demand.
pub open spec fn compose_outcome(run_acc: bool, rest: DepsOutcome) -> DepsOutcome {
    if rest.fault is Some {
        rest
    } else {
        DepsOutcome { fault: None, deps: rest.deps, run: run_acc || rest.run }
    }
}

/// Some target path does not exist.
pub open spec fn some_target_missing(targets: Seq<bool>) -> bool {
    exists|k: int| 0 <= k < targets.len() && !(#[trigger] targets[k])
}

/// Some sentinel path exists.
pub open spec fn some_sentinel_present(sentinels: Seq<bool>) -> bool {
    exists|k: int| 0 <= k < sentinels.len() && #[trigger] sentinels[k]
}

/// Whether the command must run: its identity is new, or a dependency
/// demands it, or a target is missing, or a sentinel is present, or force
/// is set, or retrying is asked and the prior exit code is recorded and
/// non-zero. The retry clause only matters when everything before it is
/// false; a disjunction states that exactly.
pub open spec fn spec_verdict(
    was_new: bool,
    deps_run: bool,
    targets: Seq<bool>,
    sentinels: Seq<bool>,
    force: bool,
    try_until_success: bool,
    prior_exit: Option<i32>,
) -> bool {
    ||| was_new
    ||| deps_run
    ||| some_target_missing(targets)
    ||| some_sentinel_present(sentinels)
    ||| force
    ||| (try_until_success && prior_exit is Some && prior_exit->0 != 0)
}

/// The dependency map and prior exit code stored for a command identity,
/// before an invocation: empty and absent when the identity is new.
pub open spec fn prior_deps(cv: Map<Seq<char>, CmdSnap>, key: Seq<char>) -> Map<Seq<char>, DepSnap> {
    if cv.contains_key(key) {
        cv[key].dependencies
    } else {
        Map::empty()
    }
}

/// The prior exit code stored for a command identity.
pub open spec fn prior_exit(cv: Map<Seq<char>, CmdSnap>, key: Seq<char>) -> Option<i32> {
    if cv.contains_key(key) {
        cv[key].exit_code
    } else {
        None
    }
}

/// Decides whether the command of identity `cmd_hash` must run, given the
/// observations, and updates its cached status: a fresh status is created
/// for a new identity, and each dependency's stored hash and mtime are
/// brought up to date as the walk prescribes. The stored exit code is not
/// touched; `record_exit` does that after the command has been run. On an
/// error the cache is left exactly as it was.
pub fn evaluate(
    cache: &mut StatusCache,
    cmd_hash: &String,
    dependencies: &Vec<DepObs>,
    targets_exist: &Vec<bool>,
    sentinels_exist: &Vec<bool>,
    force: bool,
    try_until_success: bool,
    ignore_mtimes: bool,
) -> (r: Result<bool, EngineError>)
    requires
        old(cache).wf(),
    ensures
        final(cache).wf(),
        ({
            let cv = old(cache).view_map();
            let was_new = !cv.contains_key(cmd_hash@);
            let out = deps_step(prior_deps(cv, cmd_hash@), dependencies@, ignore_mtimes);
            match r {
                Ok(run) => {
                    &&& out.fault is None
                    &&& run == spec_verdict(
                        was_new,
                        out.run,
                        targets_exist@,
                        sentinels_exist@,
                        force,
                        try_until_success,
                        prior_exit(cv, cmd_hash@),
                    )
                    &&& final(cache).view_map() == cv.insert(
                        cmd_hash@,
                        CmdSnap { exit_code: prior_exit(cv, cmd_hash@), dependencies: out.deps },
                    )
                },
                Err(e) => {
                    &&& out.fault is Some
                    &&& final(cache).view_map() == cv
                    &&& (e is MissingDependency <==> out.fault->0.missing)
                    &&& (match e {
                        EngineError::MissingDependency { path } => path@ == out.fault->0.path,
                        EngineError::UnsupportedDependency { path } => path@ == out.fault->0.path,
                    })
                },
            }
        }),
{
    let ghost cv = cache.view_map();
    let found = cache.find_command(cmd_hash);
    proof {
        lemma_assoc_contains(cache.commands@, cmd_hash@);
        if let Some(i) = found {
            lemma_assoc_index(cache.commands@, i as int);
        }
    }
    let was_new = found.is_none();
    let mut work: CommandStatus = match found {
        Some(i) => clone_command(&cache.commands[i].1),
        None => CommandStatus::new(),
    };
    proof {
        assert(assoc_view(work.dependencies@) == prior_deps(cv, cmd_hash@)) by {
            if found is None {
                assert(!cv.contains_key(cmd_hash@));
            }
        }
        assert(work.exit_code == prior_exit(cv, cmd_hash@));
        assert(work.wf());
    }
    let ghost m0 = prior_deps(cv, cmd_hash@);
    let ghost full = deps_step(m0, dependencies@, ignore_mtimes);

    let mut run_dep = false;
    let n = dependencies.len();
    let mut i: usize = 0;
    proof {
        assert(dependencies@.skip(0) =~= dependencies@);
    }
    while i < n
        invariant
            old(cache).wf(),
            *cache == *old(cache),
            n == dependencies@.len(),
            i <= n,
            work.wf(),
            work.exit_code == prior_exit(cv, cmd_hash@),
            cv == old(cache).view_map(),
            m0 == prior_deps(old(cache).view_map(), cmd_hash@),
            full == deps_step(m0, dependencies@, ignore_mtimes),
            full == compose_outcome(
                run_dep,
                deps_step(
                    assoc_view(work.dependencies@),
                    dependencies@.skip(i as int),
                    ignore_mtimes,
                ),
            ),
        decreases n - i,
    {
        let ghost mcur = assoc_view(work.dependencies@);
        let ghost remaining = dependencies@.skip(i as int);
        proof {
            assert(remaining[0] == dependencies@[i as int]);
            assert(remaining.drop_first() =~= dependencies@.skip(i + 1));
        }
        let obs = &dependencies[i];
        match &obs.state {
            PathObs::Missing => {
                return Err(EngineError::MissingDependency { path: obs.path.clone() });
            },
            PathObs::Present { mtime, tree } => {
                let found_dep = work.find_dependency(&obs.path);
                proof {
                    lemma_assoc_contains(work.dependencies@, obs.path@);
                    if let Some(di) = found_dep {
                        lemma_assoc_index(work.dependencies@, di as int);
                    }
                }
                match found_dep {
                    None => {
                        match hash_path(&obs.path, tree) {
                            Err(_) => {
                                return Err(
                                    EngineError::UnsupportedDependency { path: obs.path.clone() },
                                );
                            },
                            Ok(h) => {
                                let entry = DependencyStatus { content_hash: h, mtime: *mtime };
                                proof {
                                    lemma_assoc_push(work.dependencies@, obs.path, entry);
                                }
                                work.dependencies.push((obs.path.clone(), entry));
                                run_dep = true;
                            },
                        }
                    },
                    Some(di) => {
                        let stored_mtime = work.dependencies[di].1.mtime;
                        let recheck = tree.is_dir() || ignore_mtimes || stored_mtime != *mtime;
                        if recheck {
                            match hash_path(&obs.path, tree) {
                                Err(_) => {
                                    return Err(
                                        EngineError::UnsupportedDependency {
                                            path: obs.path.clone(),
                                        },
                                    );
                                },
                                Ok(h) => {
                                    let changed = !h.eq(&work.dependencies[di].1.content_hash);
                                    let entry = DependencyStatus { content_hash: h, mtime: *mtime };
                                    proof {
                                        lemma_assoc_update(
                                            work.dependencies@,
                                            di as int,
                                            obs.path,
                                            entry,
                                        );
                                    }
                                    work.dependencies.set(di, (obs.path.clone(), entry));
                                    if changed {
                                        run_dep = true;
                                    }
                                },
                            }
                        }
                    },
                }
            },
        }
        i = i + 1;
    }
    proof {
        assert(dependencies@.skip(n as int) =~= Seq::empty());
        assert(full == (DepsOutcome {
            fault: None,
            deps: assoc_view(work.dependencies@),
            run: run_dep,
        }));
    }

    let mut target_missing = false;
    let tn = targets_exist.len();
    let mut j: usize = 0;
    while j < tn
        invariant
            tn == targets_exist@.len(),
            j <= tn,
            target_missing == exists|k: int| 0 <= k < j && !(#[trigger] targets_exist@[k]),
        decreases tn - j,
    {
        if !targets_exist[j] {
            target_missing = true;
        }
        j = j + 1;
    }
    proof {
        assert(target_missing == some_target_missing(targets_exist@));
    }

    let mut sentinel_present = false;
    let sn = sentinels_exist.len();
    let mut k: usize = 0;
    while k < sn
        invariant
            sn == sentinels_exist@.len(),
            k <= sn,
            sentinel_present == exists|q: int| 0 <= q < k && #[trigger] sentinels_exist@[q],
        decreases sn - k,
    {
        if sentinels_exist[k] {
            sentinel_present = true;
        }
        k = k + 1;
    }
    proof {
        assert(sentinel_present == some_sentinel_present(sentinels_exist@));
    }

    let prior_nonzero = match work.exit_code {
        Some(c) => c != 0,
        None => false,
    };
    let run = was_new || run_dep || target_missing || sentinel_present || force || (
    try_until_success && prior_nonzero);

    match found {
        Some(ci) => {
            proof {
                lemma_assoc_update(cache.commands@, ci as int, *cmd_hash, work);
            }
            let ghost before = cache.commands@;
            cache.commands.set(ci, (cmd_hash.clone(), work));
            proof {
                assert forall|q: int|
                    0 <= q < cache.commands@.len() implies (#[trigger] cache.commands@[q].1).wf() by {
                    if q != ci as int {
                        assert(cache.commands@[q] == before[q]);
                    }
                }
            }
        },
        None => {
            proof {
                lemma_assoc_push(cache.commands@, *cmd_hash, work);
            }
            let ghost before = cache.commands@;
            cache.commands.push((cmd_hash.clone(), work));
            proof {
                assert forall|q: int|
                    0 <= q < cache.commands@.len() implies (#[trigger] cache.commands@[q].1).wf() by {
                    if q < before.len() {
                        assert(cache.commands@[q] == before[q]);
                    }
                }
            }
        },
    }
    Ok(run)
}

/// Stores the exit code of a run into the command's status, overwriting any
/// previous value and leaving everything else as it was. The identity must
/// already be present; `evaluate` puts it there.
pub fn record_exit(cache: &mut StatusCache, cmd_hash: &String, exit_code: Option<i32>)
    requires
        old(cache).wf(),
        old(cache).view_map().contains_key(cmd_hash@),
    ensures
        final(cache).wf(),
        final(cache).view_map() == old(cache).view_map().insert(
            cmd_hash@,
            CmdSnap {
                exit_code: exit_code,
                dependencies: old(cache).view_map()[cmd_hash@].dependencies,
            },
        ),
{
    let found = cache.find_command(cmd_hash);
    proof {
        lemma_assoc_contains(cache.commands@, cmd_hash@);
    }
    match found {
        Some(i) => {
            proof {
                lemma_assoc_index(cache.commands@, i as int);
            }
            let mut updated = clone_command(&cache.commands[i].1);
            updated.exit_code = exit_code;
            proof {
                lemma_assoc_update(cache.commands@, i as int, *cmd_hash, updated);
            }
            let ghost before = cache.commands@;
            cache.commands.set(i, (cmd_hash.clone(), updated));
            proof {
                assert forall|q: int|
                    0 <= q < cache.commands@.len() implies (#[trigger] cache.commands@[q].1).wf() by {
                    if q != i as int {
                        assert(cache.commands@[q] == before[q]);
                    }
                }
            }
        },
        None => {
            proof {
                assert(false);
            }
        },
    }
}

/// Dependencies up to date in a map: each one exists, is tracked under its
/// path with the observed mtime stored, and — where a re-check would fire
/// (a directory, or ignored mtimes) — is hashable with the stored hash
/// equal to its current content hash.
pub open spec fn deps_current(
    m: Map<Seq<char>, DepSnap>,
    deps: Seq<DepObs>,
    ignore_mtimes: bool,
) -> bool {
    forall|i: int|
        0 <= i < deps.len() ==> {
            let d = #[trigger] deps[i];
            &&& d.state is Present
            &&& m.contains_key(d.path@)
            &&& m[d.path@].mtime == d.state->Present_mtime
            &&& ((d.state->Present_tree.spec_is_dir() || ignore_mtimes) ==> (
            d.state->Present_tree.hashable() && m[d.path@].content_hash == spec_hash_path(
                d.path@,
                d.state->Present_tree,
            )))
        }
}

/// A walk over up-to-date dependencies faults nowhere, demands no run, and
/// leaves the map as it stands. This is the heart of change detection: an
/// unchanged dependency never triggers execution.
pub proof fn lemma_deps_current_no_run(
    m: Map<Seq<char>, DepSnap>,
    deps: Seq<DepObs>,
    ignore_mtimes: bool,
)
    requires
        deps_current(m, deps, ignore_mtimes),
    ensures
        deps_step(m, deps, ignore_mtimes) == (DepsOutcome { fault: None, deps: m, run: false }),
    decreases deps.len(),
{
    if deps.len() == 0 {
    } else {
        let d = deps[0];
        let rest = deps.drop_first();
        assert forall|i: int| 0 <= i < rest.len() implies rest[i] == deps[i + 1] by {}
        assert(deps_current(m, rest, ignore_mtimes));
        lemma_deps_current_no_run(m, rest, ignore_mtimes);
        let mtime = d.state->Present_mtime;
        let tree = d.state->Present_tree;
        let known = m[d.path@];
        let recheck = tree.spec_is_dir() || ignore_mtimes || known.mtime != mtime;
        if recheck {
            assert(tree.spec_is_dir() || ignore_mtimes);
            let h = spec_hash_path(d.path@, tree);
            assert(h == known.content_hash);
            assert((DepSnap { content_hash: h, mtime }) == known);
            assert(m.insert(d.path@, DepSnap { content_hash: h, mtime }) =~= m);
        }
    }
}

/// One path is observed one way: entries that share a path share the
/// observation.
pub open spec fn consistent_deps(deps: Seq<DepObs>) -> bool {
    forall|i: int, j: int|
        0 <= i < deps.len() && 0 <= j < deps.len() && (#[trigger] deps[i]).path@ == (
        #[trigger] deps[j]).path@ ==> deps[i].state == deps[j].state
}

/// What it is for one dependency to be up to date in a map.
pub open spec fn dep_current(m: Map<Seq<char>, DepSnap>, d: DepObs, ignore_mtimes: bool) -> bool {
    &&& d.state is Present
    &&& m.contains_key(d.path@)
    &&& m[d.path@].mtime == d.state->Present_mtime
    &&& ((d.state->Present_tree.spec_is_dir() || ignore_mtimes) ==> (
    d.state->Present_tree.hashable() && m[d.path@].content_hash == spec_hash_path(
        d.path@,
        d.state->Present_tree,
    )))
}

/// A faultless walk over observations that agree with `d` keeps `d` up to
/// date.
proof fn lemma_step_keeps_current(
    m: Map<Seq<char>, DepSnap>,
    deps: Seq<DepObs>,
    ignore_mtimes: bool,
    d: DepObs,
)
    requires
        dep_current(m, d, ignore_mtimes),
        forall|j: int|
            0 <= j < deps.len() && (#[trigger] deps[j]).path@ == d.path@ ==> deps[j].state
                == d.state,
        deps_step(m, deps, ignore_mtimes).fault is None,
    ensures
        dep_current(deps_step(m, deps, ignore_mtimes).deps, d, ignore_mtimes),
    decreases deps.len(),
{
    if deps.len() == 0 {
    } else {
        let e = deps[0];
        let rest = deps.drop_first();
        assert forall|i: int| 0 <= i < rest.len() implies rest[i] == deps[i + 1] by {}
        let mtime = e.state->Present_mtime;
        let tree = e.state->Present_tree;
        if e.path@ == d.path@ {
            assert(e.state == d.state);
            assert(m.contains_key(e.path@));
            let known = m[e.path@];
            let recheck = tree.spec_is_dir() || ignore_mtimes || known.mtime != mtime;
            if !recheck {
                lemma_step_keeps_current(m, rest, ignore_mtimes, d);
            } else {
                let h = spec_hash_path(e.path@, tree);
                let m2 = m.insert(e.path@, DepSnap { content_hash: h, mtime });
                assert(dep_current(m2, d, ignore_mtimes));
                lemma_step_keeps_current(m2, rest, ignore_mtimes, d);
            }
        } else {
            match e.state {
                PathObs::Missing => {},
                PathObs::Present { .. } => {
                    if !m.contains_key(e.path@) {
                        let m2 = m.insert(
                            e.path@,
                            DepSnap { content_hash: spec_hash_path(e.path@, tree), mtime },
                        );
                        assert(dep_current(m2, d, ignore_mtimes));
                        lemma_step_keeps_current(m2, rest, ignore_mtimes, d);
                    } else {
                        let known = m[e.path@];
                        let recheck = tree.spec_is_dir() || ignore_mtimes || known.mtime != mtime;
                        if !recheck {
                            lemma_step_keeps_current(m, rest, ignore_mtimes, d);
                        } else {
                            let h = spec_hash_path(e.path@, tree);
                            let m2 = m.insert(e.path@, DepSnap { content_hash: h, mtime });
                            assert(dep_current(m2, d, ignore_mtimes));
                            lemma_step_keeps_current(m2, rest, ignore_mtimes, d);
                        }
                    }
                },
            }
        }
    }
}

/// After a faultless walk over consistent observations, every dependency is
/// up to date in the resulting map.
pub proof fn lemma_deps_current_after(
    m: Map<Seq<char>, DepSnap>,
    deps: Seq<DepObs>,
    ignore_mtimes: bool,
)
    requires
        consistent_deps(deps),
        deps_step(m, deps, ignore_mtimes).fault is None,
    ensures
        deps_current(deps_step(m, deps, ignore_mtimes).deps, deps, ignore_mtimes),
    decreases deps.len(),
{
    if deps.len() == 0 {
    } else {
        let d = deps[0];
        let rest = deps.drop_first();
        assert forall|i: int| 0 <= i < rest.len() implies rest[i] == deps[i + 1] by {}
        assert(consistent_deps(rest));
        let mtime = d.state->Present_mtime;
        let tree = d.state->Present_tree;
        let mf = deps_step(m, deps, ignore_mtimes).deps;
        let m2 = if !m.contains_key(d.path@) {
            m.insert(d.path@, DepSnap { content_hash: spec_hash_path(d.path@, tree), mtime })
        } else {
            let known = m[d.path@];
            if tree.spec_is_dir() || ignore_mtimes || known.mtime != mtime {
                m.insert(d.path@, DepSnap { content_hash: spec_hash_path(d.path@, tree), mtime })
            } else {
                m
            }
        };
        assert(deps_step(m, deps, ignore_mtimes).deps == deps_step(m2, rest, ignore_mtimes).deps);
        assert(deps_step(m2, rest, ignore_mtimes).fault is None);
        lemma_deps_current_after(m2, rest, ignore_mtimes);
        assert(dep_current(m2, d, ignore_mtimes));
        lemma_step_keeps_current(m2, rest, ignore_mtimes, d);
        assert forall|i: int|
            0 <= i < deps.len() implies {
                let dd = #[trigger] deps[i];
                &&& dd.state is Present
                &&& mf.contains_key(dd.path@)
                &&& mf[dd.path@].mtime == dd.state->Present_mtime
                &&& ((dd.state->Present_tree.spec_is_dir() || ignore_mtimes) ==> (
                dd.state->Present_tree.hashable() && mf[dd.path@].content_hash == spec_hash_path(
                    dd.path@,
                    dd.state->Present_tree,
                )))
            } by {
            if i == 0 {
                assert(dep_current(mf, d, ignore_mtimes));
            } else {
                assert(rest[i - 1] == deps[i]);
            }
        }
    }
}

/// Idempotence of the walk: after one faultless walk over consistent
/// observations, walking the same observations again faults nowhere,
/// demands no run, and leaves the map untouched.
pub proof fn lemma_deps_idempotent(
    m: Map<Seq<char>, DepSnap>,
    deps: Seq<DepObs>,
    ignore_mtimes: bool,
)
    requires
        consistent_deps(deps),
        deps_step(m, deps, ignore_mtimes).fault is None,
    ensures
        ({
            let m1 = deps_step(m, deps, ignore_mtimes).deps;
            deps_step(m1, deps, ignore_mtimes) == (DepsOutcome {
                fault: None,
                deps: m1,
                run: false,
            })
        }),
{
    lemma_deps_current_after(m, deps, ignore_mtimes);
    lemma_deps_current_no_run(deps_step(m, deps, ignore_mtimes).deps, deps, ignore_mtimes);
}

/// Idempotence of the whole decision: after one faultless evaluation over
/// consistent observations, a second evaluation with the same observations
/// — every target present, no sentinel present, no force, no retry — keeps
/// the cache map as the first left it (whatever exit code was recorded in
/// between) and its verdict is not to run.
pub proof fn lemma_second_invocation_skips(
    cv0: Map<Seq<char>, CmdSnap>,
    key: Seq<char>,
    deps: Seq<DepObs>,
    targets: Seq<bool>,
    sentinels: Seq<bool>,
    ignore_mtimes: bool,
    recorded_exit: Option<i32>,
)
    requires
        consistent_deps(deps),
        deps_step(prior_deps(cv0, key), deps, ignore_mtimes).fault is None,
        forall|k: int| 0 <= k < targets.len() ==> targets[k],
        forall|k: int| 0 <= k < sentinels.len() ==> !sentinels[k],
    ensures
        ({
            let out1 = deps_step(prior_deps(cv0, key), deps, ignore_mtimes);
            let cv1 = cv0.insert(
                key,
                CmdSnap { exit_code: recorded_exit, dependencies: out1.deps },
            );
            let out2 = deps_step(prior_deps(cv1, key), deps, ignore_mtimes);
            &&& out2.fault is None
            &&& out2.deps == out1.deps
            &&& !spec_verdict(
                !cv1.contains_key(key),
                out2.run,
                targets,
                sentinels,
                false,
                false,
                recorded_exit,
            )
        }),
{
    let out1 = deps_step(prior_deps(cv0, key), deps, ignore_mtimes);
    let cv1 = cv0.insert(key, CmdSnap { exit_code: recorded_exit, dependencies: out1.deps });
    assert(prior_deps(cv1, key) == out1.deps);
    lemma_deps_idempotent(prior_deps(cv0, key), deps, ignore_mtimes);
    assert(!some_target_missing(targets));
    assert(!some_sentinel_present(sentinels));
}

} // verus!
