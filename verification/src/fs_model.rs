//! An in-memory picture of a filesystem subtree.
//!
//! The library never touches the filesystem itself. A caller observes the
//! real tree and hands it over as an `FsTree` value: file contents as bytes,
//! directories as named entries, and anything that is neither a regular file
//! nor a directory as `Other`. Entry names are the bare component names;
//! full paths are formed by joining components with `/`, so path strings
//! reproduce the caller's spelling of the root path.

use vstd::prelude::*;

verus! {

/// One node of an observed filesystem subtree.
#[derive(Debug)]
pub enum FsTree {
    /// A regular file and its content.
    File { content: Vec<u8> },
    /// A directory and its direct children, each under its component name.
    /// The entry order carries no meaning; hashing re-sorts by path.
    Dir { entries: Vec<(String, FsTree)> },
    /// A path that exists but is neither a regular file nor a directory.
    Other,
}

/// A name whose first character is `.`: such entries are skipped by
/// enumeration and hashing.
pub open spec fn hidden_name(name: Seq<char>) -> bool {
    name.len() > 0 && name[0] == '.'
}

/// The path of a child named `name` under a node at `parent`.
pub open spec fn child_path(parent: Seq<char>, name: Seq<char>) -> Seq<char> {
    parent + seq!['/'] + name
}

impl FsTree {
    pub open spec fn spec_is_dir(&self) -> bool {
        self is Dir
    }

    pub open spec fn spec_is_file(&self) -> bool {
        self is File
    }

    pub fn is_dir(&self) -> (r: bool)
        ensures
            r == self.spec_is_dir(),
    {
        matches!(self, FsTree::Dir { .. })
    }

    pub fn is_file(&self) -> (r: bool)
        ensures
            r == self.spec_is_file(),
    {
        matches!(self, FsTree::File { .. })
    }

    /// A content hash is defined for this node: it is a file, or a directory
    /// in which every entry reachable through non-hidden names is a file or a
    /// directory (never `Other`).
    pub open spec fn hashable(self) -> bool
        decreases self,
    {
        match self {
            FsTree::File { .. } => true,
            FsTree::Dir { entries } => entries_hashable(entries@),
            FsTree::Other => false,
        }
    }
}

/// All non-hidden entries of a directory are hashable.
pub open spec fn entries_hashable(es: Seq<(String, FsTree)>) -> bool
    decreases es,
{
    if es.len() == 0 {
        true
    } else {
        (hidden_name(es[0].0@) || es[0].1.hashable()) && entries_hashable(es.drop_first())
    }
}

/// The paths produced by walking a subtree rooted at `path`, in walk order:
/// for each entry, hidden names are skipped unless `inc_hidden`; a
/// directory's own descendants come first, then the directory itself if
/// `inc_dirs`; any other entry is listed if `inc_files`. The root itself is
/// never listed, and a root that is not a directory yields nothing.
pub open spec fn spec_paths_under(
    inc_hidden: bool,
    inc_dirs: bool,
    inc_files: bool,
    path: Seq<char>,
    t: FsTree,
) -> Seq<Seq<char>>
    decreases t,
{
    match t {
        FsTree::Dir { entries } => spec_paths_in(inc_hidden, inc_dirs, inc_files, path, entries@),
        _ => Seq::empty(),
    }
}

/// The paths produced by the entries `es` of a directory at `path`.
pub open spec fn spec_paths_in(
    inc_hidden: bool,
    inc_dirs: bool,
    inc_files: bool,
    path: Seq<char>,
    es: Seq<(String, FsTree)>,
) -> Seq<Seq<char>>
    decreases es,
{
    if es.len() == 0 {
        Seq::empty()
    } else {
        spec_entry_paths(inc_hidden, inc_dirs, inc_files, path, es[0]) + spec_paths_in(
            inc_hidden,
            inc_dirs,
            inc_files,
            path,
            es.drop_first(),
        )
    }
}

/// The paths produced by one directory entry `e` of a directory at `path`.
pub open spec fn spec_entry_paths(
    inc_hidden: bool,
    inc_dirs: bool,
    inc_files: bool,
    path: Seq<char>,
    e: (String, FsTree),
) -> Seq<Seq<char>>
    decreases e,
{
    let p = child_path(path, e.0@);
    if hidden_name(e.0@) && !inc_hidden {
        Seq::empty()
    } else {
        match e.1 {
            FsTree::Dir { entries } => spec_paths_in(inc_hidden, inc_dirs, inc_files, p, entries@)
                + if inc_dirs {
                seq![p]
            } else {
                Seq::empty()
            },
            _ => if inc_files {
                seq![p]
            } else {
                Seq::empty()
            },
        }
    }
}

} // verus!
