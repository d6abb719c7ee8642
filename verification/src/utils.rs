//! Enumeration of the paths under a directory of an observed tree.

use crate::fs_model::{
    child_path, hidden_name, spec_entry_paths, spec_paths_in, spec_paths_under, FsTree,
};
use crate::ordering::strs_view;
use vstd::prelude::*;
use vstd::string::{StrSliceExecFns, StringExecFns};

verus! {

/// Appending one more entry extends the listing by that entry's paths.
pub proof fn lemma_paths_in_push(
    inc_hidden: bool,
    inc_dirs: bool,
    inc_files: bool,
    path: Seq<char>,
    es: Seq<(String, FsTree)>,
    e: (String, FsTree),
)
    ensures
        spec_paths_in(inc_hidden, inc_dirs, inc_files, path, es.push(e)) == spec_paths_in(
            inc_hidden,
            inc_dirs,
            inc_files,
            path,
            es,
        ) + spec_entry_paths(inc_hidden, inc_dirs, inc_files, path, e),
    decreases es.len(),
{
    if es.len() == 0 {
        assert(es.push(e)[0] == e);
        assert(es.push(e).drop_first() =~= Seq::empty());
        assert(spec_paths_in(inc_hidden, inc_dirs, inc_files, path, Seq::empty())
            =~= Seq::empty());
        assert(spec_paths_in(inc_hidden, inc_dirs, inc_files, path, es.push(e))
            =~= spec_entry_paths(inc_hidden, inc_dirs, inc_files, path, e));
        assert(spec_paths_in(inc_hidden, inc_dirs, inc_files, path, es) + spec_entry_paths(
            inc_hidden,
            inc_dirs,
            inc_files,
            path,
            e,
        ) =~= spec_entry_paths(inc_hidden, inc_dirs, inc_files, path, e));
    } else {
        assert(es.push(e)[0] == es[0]);
        assert(es.push(e).drop_first() =~= es.drop_first().push(e));
        lemma_paths_in_push(inc_hidden, inc_dirs, inc_files, path, es.drop_first(), e);
        assert(spec_paths_in(inc_hidden, inc_dirs, inc_files, path, es.push(e))
            =~= spec_paths_in(inc_hidden, inc_dirs, inc_files, path, es) + spec_entry_paths(
            inc_hidden,
            inc_dirs,
            inc_files,
            path,
            e,
        ));
    }
}

/// Whether a component name is hidden (starts with `.`).
pub fn name_is_hidden(name: &String) -> (r: bool)
    ensures
        r == hidden_name(name@),
{
    if name.as_str().unicode_len() == 0 {
        false
    } else {
        let c = name.as_str().get_char(0);
        c == '.'
    }
}

/// The path of the child named `name` under `parent`: the two joined by `/`.
pub fn join_path(parent: &String, name: &String) -> (r: String)
    ensures
        r@ == child_path(parent@, name@),
{
    let mut r = parent.clone();
    r.append("/");
    r.append(name.as_str());
    proof {
        reveal_strlit("/");
        assert("/"@ =~= seq!['/']);
        assert(r@ =~= child_path(parent@, name@));
    }
    r
}

/// A recursive walk over an observed subtree, with switches for which
/// entries the listing includes. Hidden entries (names starting with `.`)
/// are skipped unless included; a directory's descendants are listed before
/// the directory itself.
#[derive(Debug, Clone)]
pub struct FileSearch {
    pub include_hidden: bool,
    pub include_dirs: bool,
    pub include_files: bool,
}

impl FileSearch {
    /// The default walk: hidden entries excluded, directories and files
    /// both included.
    pub fn new() -> (r: FileSearch)
        ensures
            r.include_hidden == false,
            r.include_dirs == true,
            r.include_files == true,
    {
        FileSearch { include_hidden: false, include_dirs: true, include_files: true }
    }

    /// Every path under `path` that the switches include, in walk order.
    /// The root itself is never listed; a root that is not a directory
    /// yields nothing.
    pub fn get_all_paths_under(&self, path: &String, tree: &FsTree) -> (r: Vec<String>)
        ensures
            strs_view(r@) == spec_paths_under(
                self.include_hidden,
                self.include_dirs,
                self.include_files,
                path@,
                *tree,
            ),
        decreases *tree,
    {
        let mut all_paths: Vec<String> = Vec::new();
        match tree {
            FsTree::Dir { entries } => {
                let n = entries.len();
                let mut i: usize = 0;
                proof {
                    assert(entries@.take(0) =~= Seq::empty());
                    assert(strs_view(all_paths@) =~= Seq::empty());
                }
                while i < n
                    invariant
                        n == entries@.len(),
                        i <= n,
                        *tree == (FsTree::Dir { entries: *entries }),
                        strs_view(all_paths@) == spec_paths_in(
                            self.include_hidden,
                            self.include_dirs,
                            self.include_files,
                            path@,
                            entries@.take(i as int),
                        ),
                    decreases n - i,
                {
                    let ghost done = entries@.take(i as int);
                    let name = &entries[i].0;
                    let sub = &entries[i].1;
                    let p = join_path(path, name);
                    let ghost before = strs_view(all_paths@);
                    let ghost entry_part = spec_entry_paths(
                        self.include_hidden,
                        self.include_dirs,
                        self.include_files,
                        path@,
                        entries@[i as int],
                    );
                    proof {
                        broadcast use vstd::std_specs::vec::group_vec_axioms;

                        assert(tree->Dir_entries == *entries);
                        assert(decreases_to!(*tree => tree->Dir_entries));
                        assert(decreases_to!(*entries => entries@));
                        assert(decreases_to!(entries@ => entries@[i as int]));
                        assert(decreases_to!(entries@[i as int] => entries@[i as int].1));
                    }
                    if !name_is_hidden(name) || self.include_hidden {
                        if sub.is_dir() {
                            let mut below = self.get_all_paths_under(&p, sub);
                            all_paths.append(&mut below);
                            if self.include_dirs {
                                all_paths.push(p);
                            }
                        } else {
                            if self.include_files {
                                all_paths.push(p);
                            }
                        }
                    }
                    proof {
                        assert(strs_view(all_paths@) =~= before + entry_part);
                        lemma_paths_in_push(
                            self.include_hidden,
                            self.include_dirs,
                            self.include_files,
                            path@,
                            done,
                            entries@[i as int],
                        );
                        assert(entries@.take(i + 1) =~= done.push(entries@[i as int]));
                    }
                    i = i + 1;
                }
                proof {
                    assert(entries@.take(n as int) =~= entries@);
                }
            },
            _ => {
                proof {
                    assert(strs_view(all_paths@) =~= Seq::empty());
                }
            },
        }
        all_paths
    }

    /// Every non-directory path under `path` that the hidden switch
    /// includes; directories are walked but not listed.
    pub fn get_all_files_under(&self, path: &String, tree: &FsTree) -> (r: Vec<String>)
        ensures
            strs_view(r@) == spec_paths_under(self.include_hidden, false, true, path@, *tree),
    {
        let clone = FileSearch {
            include_hidden: self.include_hidden,
            include_dirs: false,
            include_files: true,
        };
        clone.get_all_paths_under(path, tree)
    }

    /// Every directory path under `path` that the hidden switch includes.
    pub fn get_all_dirs_under(&self, path: &String, tree: &FsTree) -> (r: Vec<String>)
        ensures
            strs_view(r@) == spec_paths_under(self.include_hidden, true, false, path@, *tree),
    {
        let clone = FileSearch {
            include_hidden: self.include_hidden,
            include_dirs: true,
            include_files: false,
        };
        clone.get_all_paths_under(path, tree)
    }
}

} // verus!
