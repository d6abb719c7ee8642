//! Content hashing and the persisted per-command status records.
//!
//! A content digest is the blake3 hash of a byte sequence, hex-encoded in
//! lower case. Strings are hashed through their UTF-8 encoding.

use crate::fs_model::{child_path, entries_hashable, hidden_name, spec_paths_under, FsTree};
use crate::ordering::{
    lex_le_fn, pair_le_fn, pair_view, pairs_view, sort_pairs, sort_strings, strs_view,
};
use crate::string_map::{assoc_view, unique_keys};
use crate::utils::FileSearch;
use vstd::multiset::Multiset;
use vstd::prelude::*;
use vstd::string::{StrSliceExecFns, StringExecFns};

verus! {

/// What the blake3 hash function returns for a byte sequence. The digest is a
/// pure function of the input bytes alone, identical on every machine; its
/// value is not stated here, only named.
pub uninterp spec fn blake3_of(data: Seq<u8>) -> Seq<u8>;

/// The lower-case hex digit for a value below 16.
pub open spec fn hex_digit(v: u8) -> char
    recommends
        v < 16,
{
    if v == 0 {
        '0'
    } else if v == 1 {
        '1'
    } else if v == 2 {
        '2'
    } else if v == 3 {
        '3'
    } else if v == 4 {
        '4'
    } else if v == 5 {
        '5'
    } else if v == 6 {
        '6'
    } else if v == 7 {
        '7'
    } else if v == 8 {
        '8'
    } else if v == 9 {
        '9'
    } else if v == 10 {
        'a'
    } else if v == 11 {
        'b'
    } else if v == 12 {
        'c'
    } else if v == 13 {
        'd'
    } else if v == 14 {
        'e'
    } else {
        'f'
    }
}

/// Lower-case hex encoding of a byte sequence: two digits per byte, high
/// nibble first.
pub open spec fn hex_of(data: Seq<u8>) -> Seq<char> {
    Seq::new(
        data.len() * 2,
        |i: int|
            if i % 2 == 0 {
                hex_digit(data[i / 2] >> 4u8)
            } else {
                hex_digit(data[i / 2] & 0x0fu8)
            },
    )
}

/// The hex-encoded blake3 digest of a byte sequence.
pub open spec fn bytes_digest(data: Seq<u8>) -> Seq<char> {
    hex_of(blake3_of(data))
}

/// The hex-encoded blake3 digest of the UTF-8 encoding of a string.
pub open spec fn string_digest(text: Seq<char>) -> Seq<char> {
    bytes_digest(vstd::utf8::encode_utf8(text))
}

/// Relies on blake3::hash: the digest is 32 bytes and depends on the input
/// bytes alone.
#[verifier::external_body]
fn blake3_bytes(bytes: &[u8]) -> (r: Vec<u8>)
    ensures
        r@ == blake3_of(bytes@),
        r@.len() == 32,
{
    blake3::hash(bytes).as_bytes().to_vec()
}

/// Relies on hex::encode: lower-case hex, two digits per byte, high nibble
/// first.
#[verifier::external_body]
fn hex_encode(data: &[u8]) -> (r: String)
    ensures
        r@ == hex_of(data@),
{
    hex::encode(data)
}

/// The raw blake3 digest of a byte buffer.
pub fn hash_bytes(text: &[u8]) -> (r: Vec<u8>)
    ensures
        r@ == blake3_of(text@),
        r@.len() == 32,
{
    blake3_bytes(text)
}

/// The hex-encoded content digest of a string, hashed as UTF-8 bytes.
pub fn hash_string(text: &String) -> (r: String)
    ensures
        r@ == string_digest(text@),
{
    let digest = hash_bytes(text.as_str().as_bytes());
    hex_encode(digest.as_slice())
}

/// An error of path hashing: the named path exists but is neither a regular
/// file nor a directory, so no content hash is defined for it.
#[derive(Debug, PartialEq, Eq, Structural)]
pub enum HashError {
    UnsupportedPath,
}

/// The (path, digest) entries of the visible files under a subtree at
/// `path`, in walk order: one entry per non-hidden file, recursively;
/// a visible `Other` node contributes a placeholder that hashing never
/// produces (it fails instead).
pub open spec fn file_entries_under(path: Seq<char>, t: FsTree) -> Seq<(Seq<char>, Seq<char>)>
    decreases t,
{
    match t {
        FsTree::Dir { entries } => file_entries_in(path, entries@),
        _ => Seq::empty(),
    }
}

/// The (path, digest) entries contributed by the entries `es` of a
/// directory at `path`.
pub open spec fn file_entries_in(path: Seq<char>, es: Seq<(String, FsTree)>) -> Seq<
    (Seq<char>, Seq<char>),
>
    decreases es,
{
    if es.len() == 0 {
        Seq::empty()
    } else {
        file_entries_of(path, es[0]) + file_entries_in(path, es.drop_first())
    }
}

/// The (path, digest) entries contributed by one directory entry.
pub open spec fn file_entries_of(path: Seq<char>, e: (String, FsTree)) -> Seq<
    (Seq<char>, Seq<char>),
>
    decreases e,
{
    let p = child_path(path, e.0@);
    if hidden_name(e.0@) {
        Seq::empty()
    } else {
        match e.1 {
            FsTree::Dir { entries } => file_entries_in(p, entries@),
            FsTree::File { content } => seq![(p, bytes_digest(content@))],
            FsTree::Other => seq![(p, Seq::<char>::empty())],
        }
    }
}

/// The line a hashed file contributes to a directory's joined listing:
/// its digest, a `|`, and its path.
pub open spec fn file_line(e: (Seq<char>, Seq<char>)) -> Seq<char> {
    e.1 + seq!['|'] + e.0
}

/// Lines joined by single newlines.
pub open spec fn join_lines(lines: Seq<Seq<char>>) -> Seq<char>
    decreases lines.len(),
{
    if lines.len() == 0 {
        Seq::empty()
    } else if lines.len() == 1 {
        lines[0]
    } else {
        join_lines(lines.drop_last()) + seq!['\n'] + lines.last()
    }
}

/// The joined value of a directory with no visible entries at all.
pub open spec fn null_chars() -> Seq<char> {
    seq!['n', 'u', 'l', 'l']
}

/// The lines of a directory's listing: the file lines, sorted by (path,
/// digest), then the directory paths, sorted.
pub open spec fn dir_listing_lines(path: Seq<char>, t: FsTree) -> Seq<Seq<char>> {
    file_entries_under(path, t).sort_by(pair_le_fn()).map_values(
        |e: (Seq<char>, Seq<char>)| file_line(e),
    ) + spec_paths_under(false, true, false, path, t).sort_by(lex_le_fn())
}

/// The string a directory's hash is taken of: its listing lines joined by
/// newlines, or `null` when there are none.
pub open spec fn dir_joined(path: Seq<char>, t: FsTree) -> Seq<char> {
    let lines = dir_listing_lines(path, t);
    if lines.len() == 0 {
        null_chars()
    } else {
        join_lines(lines)
    }
}

/// The content digest of a directory at `path`.
pub open spec fn spec_hash_dir(path: Seq<char>, t: FsTree) -> Seq<char> {
    string_digest(dir_joined(path, t))
}

/// The content digest of a hashable node at `path`: a file's is the digest
/// of its bytes, a directory's the digest of its joined listing.
pub open spec fn spec_hash_path(path: Seq<char>, t: FsTree) -> Seq<char> {
    match t {
        FsTree::File { content } => bytes_digest(content@),
        FsTree::Dir { .. } => spec_hash_dir(path, t),
        FsTree::Other => Seq::empty(),
    }
}

/// Whether `hash_dir` is defined for a node: for a directory, every visible
/// node under it must be hashable; any other node yields the empty listing.
pub open spec fn dir_hashable(t: FsTree) -> bool {
    match t {
        FsTree::Dir { entries } => entries_hashable(entries@),
        _ => true,
    }
}

/// The hex digest of one file's content.
fn hash_file(content: &Vec<u8>) -> (r: String)
    ensures
        r@ == bytes_digest(content@),
{
    let digest = hash_bytes(content.as_slice());
    hex_encode(digest.as_slice())
}

/// One more entry is hashable exactly when the earlier ones are and it is
/// hidden or itself hashable.
proof fn lemma_entries_hashable_push(es: Seq<(String, FsTree)>, e: (String, FsTree))
    ensures
        entries_hashable(es.push(e)) == (entries_hashable(es) && (hidden_name(e.0@)
            || e.1.hashable())),
    decreases es.len(),
{
    if es.len() == 0 {
        assert(es.push(e)[0] == e);
        assert(es.push(e).drop_first() =~= Seq::empty());
        assert(entries_hashable(Seq::empty()));
    } else {
        assert(es.push(e)[0] == es[0]);
        assert(es.push(e).drop_first() =~= es.drop_first().push(e));
        lemma_entries_hashable_push(es.drop_first(), e);
    }
}

/// Appending one more entry extends the file entries by that entry's part.
proof fn lemma_file_entries_push(path: Seq<char>, es: Seq<(String, FsTree)>, e: (String, FsTree))
    ensures
        file_entries_in(path, es.push(e)) == file_entries_in(path, es) + file_entries_of(path, e),
    decreases es.len(),
{
    if es.len() == 0 {
        assert(es.push(e)[0] == e);
        assert(es.push(e).drop_first() =~= Seq::empty());
        assert(file_entries_in(path, Seq::empty()) =~= Seq::empty());
        assert(file_entries_in(path, es.push(e)) =~= file_entries_of(path, e));
        assert(file_entries_in(path, es) + file_entries_of(path, e) =~= file_entries_of(path, e));
    } else {
        assert(es.push(e)[0] == es[0]);
        assert(es.push(e).drop_first() =~= es.drop_first().push(e));
        lemma_file_entries_push(path, es.drop_first(), e);
        assert(file_entries_in(path, es.push(e)) =~= file_entries_in(path, es) + file_entries_of(
            path,
            e,
        ));
    }
}

/// Whether every visible node under this one can be hashed.
pub fn check_hashable(tree: &FsTree) -> (r: bool)
    ensures
        r == tree.hashable(),
    decreases *tree,
{
    match tree {
        FsTree::File { .. } => true,
        FsTree::Other => false,
        FsTree::Dir { entries } => {
            let n = entries.len();
            let mut i: usize = 0;
            let mut ok = true;
            proof {
                assert(entries@.take(0) =~= Seq::empty());
                assert(entries_hashable(Seq::empty()));
            }
            while i < n
                invariant
                    n == entries@.len(),
                    i <= n,
                    *tree == (FsTree::Dir { entries: *entries }),
                    ok == entries_hashable(entries@.take(i as int)),
                decreases n - i,
            {
                proof {
                    broadcast use vstd::std_specs::vec::group_vec_axioms;

                    assert(tree->Dir_entries == *entries);
                    assert(decreases_to!(*tree => tree->Dir_entries));
                    assert(decreases_to!(*entries => entries@));
                    assert(decreases_to!(entries@ => entries@[i as int]));
                    assert(decreases_to!(entries@[i as int] => entries@[i as int].1));
                }
                let name = &entries[i].0;
                let sub = &entries[i].1;
                if !crate::utils::name_is_hidden(name) {
                    if !check_hashable(sub) {
                        ok = false;
                    }
                }
                proof {
                    lemma_entries_hashable_push(entries@.take(i as int), entries@[i as int]);
                    assert(entries@.take(i + 1) =~= entries@.take(i as int).push(
                        entries@[i as int],
                    ));
                }
                i = i + 1;
            }
            proof {
                assert(entries@.take(n as int) =~= entries@);
            }
            ok
        },
    }
}

/// Collects the (path, digest) pair of every visible file under the entries
/// of a directory at `path`, in walk order.
fn collect_file_hashes(path: &String, entries: &Vec<(String, FsTree)>, out: &mut Vec<(String, String)>)
    requires
        entries_hashable(entries@),
    ensures
        pairs_view(final(out)@) == pairs_view(old(out)@) + file_entries_in(path@, entries@),
    decreases entries@,
{
    let n = entries.len();
    let mut i: usize = 0;
    proof {
        assert(entries@.take(0) =~= Seq::empty());
        assert(file_entries_in(path@, Seq::empty()) =~= Seq::empty());
        assert(pairs_view(out@) =~= pairs_view(out@) + Seq::empty());
    }
    while i < n
        invariant
            entries_hashable(entries@),
            n == entries@.len(),
            i <= n,
            pairs_view(out@) == pairs_view(old(out)@) + file_entries_in(
                path@,
                entries@.take(i as int),
            ),
        decreases n - i,
    {
        proof {
            broadcast use vstd::std_specs::vec::group_vec_axioms;

            assert(decreases_to!(*entries => entries@));
            assert(decreases_to!(entries@ => entries@[i as int]));
            assert(decreases_to!(entries@[i as int] => entries@[i as int].1));
            lemma_entries_hashable_take(entries@, i as int);
        }
        let ghost before = pairs_view(out@);
        let name = &entries[i].0;
        let sub = &entries[i].1;
        let p = crate::utils::join_path(path, name);
        if !crate::utils::name_is_hidden(name) {
            match sub {
                FsTree::File { content } => {
                    let h = hash_file(content);
                    out.push((p, h));
                    proof {
                        assert(pairs_view(out@) =~= before.push(pair_view(out@.last())));
                    }
                },
                FsTree::Dir { entries: sub_entries } => {
                    proof {
                        broadcast use vstd::std_specs::vec::group_vec_axioms;

                        assert(*sub == entries@[i as int].1);
                        assert(decreases_to!(*sub => sub->Dir_entries));
                        assert(sub->Dir_entries == *sub_entries);
                        assert(decreases_to!(*sub_entries => sub_entries@));
                    }
                    collect_file_hashes(&p, sub_entries, out);
                },
                FsTree::Other => {
                    proof {
                        assert(false);
                    }
                },
            }
        }
        proof {
            assert(pairs_view(out@) =~= before + file_entries_of(path@, entries@[i as int]));
            lemma_file_entries_push(path@, entries@.take(i as int), entries@[i as int]);
            assert(entries@.take(i + 1) =~= entries@.take(i as int).push(entries@[i as int]));
        }
        i = i + 1;
    }
    proof {
        assert(entries@.take(n as int) =~= entries@);
    }
}

/// An entry of a hashable listing is hidden or hashable.
proof fn lemma_entries_hashable_take(es: Seq<(String, FsTree)>, i: int)
    requires
        entries_hashable(es),
        0 <= i < es.len(),
    ensures
        hidden_name(es[i].0@) || es[i].1.hashable(),
    decreases i,
{
    if i == 0 {
    } else {
        assert(es.drop_first()[i - 1] == es[i]);
        lemma_entries_hashable_take(es.drop_first(), i - 1);
    }
}

/// One more line joins onto the end, after a newline unless it is first.
proof fn lemma_join_push(ls: Seq<Seq<char>>, l: Seq<char>)
    ensures
        join_lines(ls.push(l)) == if ls.len() == 0 {
            l
        } else {
            join_lines(ls) + seq!['\n'] + l
        },
{
    if ls.len() == 0 {
        assert(ls.push(l).len() == 1);
        assert(ls.push(l)[0] == l);
    } else {
        assert(ls.push(l).drop_last() =~= ls);
        assert(ls.push(l).last() == l);
    }
}

/// The content digest of a directory at `dir_path`: for every non-hidden
/// file under it (recursively) a line `digest|path`, sorted; then every
/// non-hidden directory path under it, sorted; the lines joined by newlines
/// (the literal `null` when there are no lines at all), and that string
/// hashed. Fails exactly when a visible node under a directory is neither a
/// regular file nor a directory.
pub fn hash_dir(dir_path: &String, tree: &FsTree) -> (r: Result<String, HashError>)
    ensures
        r is Ok <==> dir_hashable(*tree),
        r matches Ok(h) ==> h@ == spec_hash_dir(dir_path@, *tree),
{
    let hashable = if tree.is_dir() {
        check_hashable(tree)
    } else {
        true
    };
    if !hashable {
        return Err(HashError::UnsupportedPath);
    }
    let mut raw_pairs: Vec<(String, String)> = Vec::new();
    match tree {
        FsTree::Dir { entries } => {
            proof {
                assert(pairs_view(raw_pairs@) =~= Seq::empty());
            }
            collect_file_hashes(dir_path, entries, &mut raw_pairs);
            proof {
                assert(pairs_view(raw_pairs@) =~= file_entries_under(dir_path@, *tree));
            }
        },
        _ => {
            proof {
                assert(pairs_view(raw_pairs@) =~= file_entries_under(dir_path@, *tree));
            }
        },
    }
    let pairs = sort_pairs(raw_pairs);
    let fsearch = FileSearch::new();
    let raw_dirs = fsearch.get_all_dirs_under(dir_path, tree);
    let dirs = sort_strings(raw_dirs);

    let ghost file_lines = file_entries_under(dir_path@, *tree).sort_by(pair_le_fn()).map_values(
        |e: (Seq<char>, Seq<char>)| file_line(e),
    );
    let ghost dir_lines = spec_paths_under(false, true, false, dir_path@, *tree).sort_by(
        lex_le_fn(),
    );
    let ghost all_lines = dir_listing_lines(dir_path@, *tree);
    proof {
        assert(all_lines == file_lines + dir_lines);
        assert(file_lines.len() == pairs@.len());
        assert(all_lines.take(0) =~= Seq::empty());
    }

    let mut joined = String::new();
    let mut any = false;
    let n1 = pairs.len();
    let mut i: usize = 0;
    while i < n1
        invariant
            n1 == pairs@.len(),
            i <= n1,
            pairs_view(pairs@) == file_entries_under(dir_path@, *tree).sort_by(pair_le_fn()),
            file_lines == file_entries_under(dir_path@, *tree).sort_by(pair_le_fn()).map_values(
                |e: (Seq<char>, Seq<char>)| file_line(e),
            ),
            all_lines == dir_listing_lines(dir_path@, *tree),
            all_lines == file_lines + dir_lines,
            file_lines.len() == n1,
            any == (i > 0),
            joined@ == join_lines(all_lines.take(i as int)),
        decreases n1 - i,
    {
        let mut line = pairs[i].1.clone();
        line.append("|");
        line.append(pairs[i].0.as_str());
        proof {
            reveal_strlit("|");
            assert("|"@ =~= seq!['|']);
            assert(pairs_view(pairs@)[i as int] == pair_view(pairs@[i as int]));
            assert(line@ =~= file_line(pairs_view(pairs@)[i as int]));
            assert(all_lines[i as int] == file_lines[i as int]);
            assert(file_lines[i as int] == file_line(pairs_view(pairs@)[i as int]));
        }
        if any {
            joined.append("\n");
        }
        joined.append(line.as_str());
        any = true;
        proof {
            reveal_strlit("\n");
            assert("\n"@ =~= seq!['\n']);
            let prefix = all_lines.take(i as int);
            assert(all_lines.take(i + 1) =~= prefix.push(all_lines[i as int]));
            lemma_join_push(prefix, all_lines[i as int]);
            assert(prefix.len() == i);
            assert(joined@ =~= join_lines(all_lines.take(i + 1)));
        }
        i = i + 1;
    }
    let n2 = dirs.len();
    let mut j: usize = 0;
    while j < n2
        invariant
            n2 == dirs@.len(),
            j <= n2,
            n1 == file_lines.len(),
            strs_view(dirs@) == spec_paths_under(false, true, false, dir_path@, *tree).sort_by(
                lex_le_fn(),
            ),
            dir_lines == spec_paths_under(false, true, false, dir_path@, *tree).sort_by(
                lex_le_fn(),
            ),
            all_lines == dir_listing_lines(dir_path@, *tree),
            all_lines == file_lines + dir_lines,
            dir_lines.len() == n2,
            any == (n1 + j > 0),
            joined@ == join_lines(all_lines.take(n1 + j)),
        decreases n2 - j,
    {
        proof {
            assert(all_lines[n1 + j] == dir_lines[j as int]);
            assert(dir_lines[j as int] == strs_view(dirs@)[j as int]);
            assert(strs_view(dirs@)[j as int] == dirs@[j as int]@);
        }
        if any {
            joined.append("\n");
        }
        joined.append(dirs[j].as_str());
        any = true;
        proof {
            reveal_strlit("\n");
            assert("\n"@ =~= seq!['\n']);
            let prefix = all_lines.take((n1 + j) as int);
            assert(all_lines.take(n1 + j + 1) =~= prefix.push(all_lines[n1 + j]));
            lemma_join_push(prefix, all_lines[n1 + j]);
            assert(joined@ =~= join_lines(all_lines.take(n1 + j + 1)));
        }
        j = j + 1;
    }
    proof {
        assert(all_lines.take((n1 + n2) as int) =~= all_lines);
    }
    let value = if any {
        joined
    } else {
        let s = String::from_str("null");
        proof {
            reveal_strlit("null");
            assert("null"@ =~= null_chars());
        }
        s
    };
    proof {
        assert(value@ == dir_joined(dir_path@, *tree));
    }
    Ok(hash_string(&value))
}

/// The content digest of the node observed at `path`: a file's is the
/// digest of its content bytes, a directory's the digest of its joined
/// listing. Fails with the unsupported-path error exactly when the node, or
/// some non-hidden node under it, is neither a regular file nor a
/// directory.
pub fn hash_path(path: &String, tree: &FsTree) -> (r: Result<String, HashError>)
    ensures
        r is Ok <==> tree.hashable(),
        r matches Ok(h) ==> h@ == spec_hash_path(path@, *tree),
{
    match tree {
        FsTree::File { content } => Ok(hash_file(content)),
        FsTree::Dir { .. } => hash_dir(path, tree),
        FsTree::Other => Err(HashError::UnsupportedPath),
    }
}

/// What was last observed of one dependency path: the hex digest of its
/// content, and its modification time in microseconds since the Unix epoch.
/// The modification time is a cheap filter only; content equality is the
/// ground truth.
#[derive(Debug)]
pub struct DependencyStatus {
    pub content_hash: String,
    pub mtime: u128,
}

/// The mathematical record of one dependency observation.
pub ghost struct DepSnap {
    pub content_hash: Seq<char>,
    pub mtime: u128,
}

impl DeepView for DependencyStatus {
    type V = DepSnap;

    open spec fn deep_view(&self) -> DepSnap {
        DepSnap { content_hash: self.content_hash@, mtime: self.mtime }
    }
}

/// Everything known about one command identity: the exit code of its last
/// run (absent until it first runs), and the last observation of each
/// dependency path. Keys are the dependency paths exactly as given, not
/// canonicalized: distinct spellings of one file are tracked independently.
#[derive(Debug)]
pub struct CommandStatus {
    pub exit_code: Option<i32>,
    pub dependencies: Vec<(String, DependencyStatus)>,
}

/// The mathematical record of one command's status.
pub ghost struct CmdSnap {
    pub exit_code: Option<i32>,
    pub dependencies: Map<Seq<char>, DepSnap>,
}

impl DeepView for CommandStatus {
    type V = CmdSnap;

    open spec fn deep_view(&self) -> CmdSnap {
        CmdSnap { exit_code: self.exit_code, dependencies: assoc_view(self.dependencies@) }
    }
}

impl CommandStatus {
    /// The dependency entries carry pairwise distinct paths.
    pub open spec fn wf(&self) -> bool {
        unique_keys(self.dependencies@)
    }

    /// The record of a command never seen: no exit code, no dependencies.
    pub fn new() -> (r: CommandStatus)
        ensures
            r.deep_view() == (CmdSnap { exit_code: None, dependencies: Map::empty() }),
            r.wf(),
    {
        let r = CommandStatus { dependencies: Vec::new(), exit_code: None };
        proof {
            assert(assoc_view(r.dependencies@) =~= Map::<Seq<char>, DepSnap>::empty());
        }
        r
    }

    /// The position of the entry for `path`, if there is one.
    pub fn find_dependency(&self, path: &String) -> (r: Option<usize>)
        ensures
            match r {
                Some(i) => i < self.dependencies@.len() && self.dependencies@[i as int].0@
                    == path@,
                None => forall|i: int|
                    0 <= i < self.dependencies@.len() ==> self.dependencies@[i].0@ != path@,
            },
    {
        let n = self.dependencies.len();
        let mut i: usize = 0;
        while i < n
            invariant
                n == self.dependencies@.len(),
                i <= n,
                forall|k: int| 0 <= k < i ==> self.dependencies@[k].0@ != path@,
            decreases n - i,
        {
            if self.dependencies[i].0.eq(path) {
                return Some(i);
            }
            i = i + 1;
        }
        None
    }
}

/// The whole persisted state: for each command identity hash, the status of
/// that command. Keys are pairwise distinct.
#[derive(Debug)]
pub struct StatusCache {
    pub commands: Vec<(String, CommandStatus)>,
}

impl StatusCache {
    /// The map this cache denotes.
    pub open spec fn view_map(&self) -> Map<Seq<char>, CmdSnap> {
        assoc_view(self.commands@)
    }

    /// Command keys are pairwise distinct, and each command's dependency
    /// keys are too.
    pub open spec fn wf(&self) -> bool {
        &&& unique_keys(self.commands@)
        &&& forall|i: int| 0 <= i < self.commands@.len() ==> (#[trigger] self.commands@[i].1).wf()
    }

    /// An empty cache.
    pub fn new() -> (r: StatusCache)
        ensures
            r.view_map() == Map::<Seq<char>, CmdSnap>::empty(),
            r.wf(),
    {
        let r = StatusCache { commands: Vec::new() };
        proof {
            assert(assoc_view(r.commands@) =~= Map::<Seq<char>, CmdSnap>::empty());
        }
        r
    }

    /// The position of the entry for the command identity `key`, if there is
    /// one.
    pub fn find_command(&self, key: &String) -> (r: Option<usize>)
        ensures
            match r {
                Some(i) => i < self.commands@.len() && self.commands@[i as int].0@ == key@,
                None => forall|i: int| 0 <= i < self.commands@.len() ==> self.commands@[i].0@ != key@,
            },
    {
        let n = self.commands.len();
        let mut i: usize = 0;
        while i < n
            invariant
                n == self.commands@.len(),
                i <= n,
                forall|k: int| 0 <= k < i ==> self.commands@[k].0@ != key@,
            decreases n - i,
        {
            if self.commands[i].0.eq(key) {
                return Some(i);
            }
            i = i + 1;
        }
        None
    }
}

/// An exact copy of a dependency record.
pub fn clone_dependency(d: &DependencyStatus) -> (r: DependencyStatus)
    ensures
        r.deep_view() == d.deep_view(),
{
    DependencyStatus { content_hash: d.content_hash.clone(), mtime: d.mtime }
}

/// An exact copy of a command record.
pub fn clone_command(c: &CommandStatus) -> (r: CommandStatus)
    ensures
        r.deep_view() == c.deep_view(),
        c.wf() ==> r.wf(),
{
    let n = c.dependencies.len();
    let mut deps: Vec<(String, DependencyStatus)> = Vec::new();
    let mut i: usize = 0;
    while i < n
        invariant
            n == c.dependencies@.len(),
            i <= n,
            deps@.len() == i,
            forall|k: int|
                0 <= k < i ==> (#[trigger] deps@[k]).0@ == c.dependencies@[k].0@
                    && deps@[k].1.deep_view() == c.dependencies@[k].1.deep_view(),
        decreases n - i,
    {
        let key = c.dependencies[i].0.clone();
        let value = clone_dependency(&c.dependencies[i].1);
        deps.push((key, value));
        i = i + 1;
    }
    proof {
        crate::string_map::lemma_assoc_congruent(deps@, c.dependencies@);
    }
    CommandStatus { exit_code: c.exit_code, dependencies: deps }
}

/// Hidden entries leave a directory's hash untouched: a directory with one
/// more entry under a hidden name (whatever stands beneath it) hashes to
/// the same digest as the directory without it.
pub proof fn lemma_hidden_entry_ignored(
    path: Seq<char>,
    t1: FsTree,
    t2: FsTree,
    name: String,
    sub: FsTree,
)
    requires
        hidden_name(name@),
        t1 is Dir,
        t2 is Dir,
        t2->Dir_entries@ == t1->Dir_entries@.push((name, sub)),
    ensures
        spec_hash_dir(path, t2) == spec_hash_dir(path, t1),
{
    let es = t1->Dir_entries@;
    let e = (name, sub);
    lemma_file_entries_push(path, es, e);
    assert(file_entries_of(path, e) =~= Seq::empty());
    assert(file_entries_in(path, es.push(e)) =~= file_entries_in(path, es));
    assert(file_entries_under(path, t2) == file_entries_in(path, es.push(e)));
    assert(file_entries_under(path, t1) == file_entries_in(path, es));
    crate::utils::lemma_paths_in_push(false, true, false, path, es, e);
    assert(crate::fs_model::spec_entry_paths(false, true, false, path, e) =~= Seq::empty());
    assert(crate::fs_model::spec_paths_in(false, true, false, path, es.push(e))
        =~= crate::fs_model::spec_paths_in(false, true, false, path, es));
    assert(spec_paths_under(false, true, false, path, t2) == crate::fs_model::spec_paths_in(
        false,
        true,
        false,
        path,
        es.push(e),
    ));
    assert(spec_paths_under(false, true, false, path, t1) == crate::fs_model::spec_paths_in(
        false,
        true,
        false,
        path,
        es,
    ));
    assert(dir_listing_lines(path, t2) == dir_listing_lines(path, t1));
}

/// Tokens joined by single spaces.
pub open spec fn join_spaces(parts: Seq<Seq<char>>) -> Seq<char>
    decreases parts.len(),
{
    if parts.len() == 0 {
        Seq::empty()
    } else if parts.len() == 1 {
        parts[0]
    } else {
        join_spaces(parts.drop_last()) + seq![' '] + parts.last()
    }
}

/// One more token joins onto the end, after a space unless it is first.
proof fn lemma_join_spaces_push(ls: Seq<Seq<char>>, l: Seq<char>)
    ensures
        join_spaces(ls.push(l)) == if ls.len() == 0 {
            l
        } else {
            join_spaces(ls) + seq![' '] + l
        },
{
    if ls.len() == 0 {
        assert(ls.push(l).len() == 1);
        assert(ls.push(l)[0] == l);
    } else {
        assert(ls.push(l).drop_last() =~= ls);
        assert(ls.push(l).last() == l);
    }
}

/// The identity of a command line: the digest of its tokens joined by
/// single spaces. Two textually identical command lines share one identity
/// by design — the identity is the cache key, not a distinction of
/// semantics.
pub fn command_identity(command: &Vec<String>) -> (r: String)
    ensures
        r@ == string_digest(join_spaces(strs_view(command@))),
{
    let ghost tokens = strs_view(command@);
    let mut joined = String::new();
    let n = command.len();
    let mut i: usize = 0;
    proof {
        assert(tokens.take(0) =~= Seq::empty());
    }
    while i < n
        invariant
            n == command@.len(),
            i <= n,
            tokens == strs_view(command@),
            joined@ == join_spaces(tokens.take(i as int)),
        decreases n - i,
    {
        if i > 0 {
            joined.append(" ");
        }
        joined.append(command[i].as_str());
        proof {
            reveal_strlit(" ");
            assert(" "@ =~= seq![' ']);
            let prefix = tokens.take(i as int);
            assert(tokens[i as int] == command@[i as int]@);
            assert(tokens.take(i + 1) =~= prefix.push(tokens[i as int]));
            lemma_join_spaces_push(prefix, tokens[i as int]);
            assert(prefix.len() == i);
            assert(joined@ =~= join_spaces(tokens.take(i + 1)));
        }
        i = i + 1;
    }
    proof {
        assert(tokens.take(n as int) =~= tokens);
    }
    hash_string(&joined)
}

/// File entries of concatenated entry lists concatenate.
proof fn lemma_file_entries_concat(path: Seq<char>, a: Seq<(String, FsTree)>, b: Seq<(String, FsTree)>)
    ensures
        file_entries_in(path, a + b) == file_entries_in(path, a) + file_entries_in(path, b),
    decreases a.len(),
{
    if a.len() == 0 {
        assert(a + b =~= b);
        assert(file_entries_in(path, a) =~= Seq::empty());
        assert(file_entries_in(path, a) + file_entries_in(path, b) =~= file_entries_in(path, b));
    } else {
        assert((a + b)[0] == a[0]);
        assert((a + b).len() > 0);
        assert((a + b).drop_first() =~= a.drop_first() + b);
        lemma_file_entries_concat(path, a.drop_first(), b);
        assert(file_entries_in(path, a + b) =~= file_entries_in(path, a) + file_entries_in(
            path,
            b,
        ));
    }
}

/// Walk listings of concatenated entry lists concatenate.
proof fn lemma_paths_in_concat(
    inc_hidden: bool,
    inc_dirs: bool,
    inc_files: bool,
    path: Seq<char>,
    a: Seq<(String, FsTree)>,
    b: Seq<(String, FsTree)>,
)
    ensures
        crate::fs_model::spec_paths_in(inc_hidden, inc_dirs, inc_files, path, a + b)
            == crate::fs_model::spec_paths_in(inc_hidden, inc_dirs, inc_files, path, a)
            + crate::fs_model::spec_paths_in(inc_hidden, inc_dirs, inc_files, path, b),
    decreases a.len(),
{
    if a.len() == 0 {
        assert(a + b =~= b);
        assert(crate::fs_model::spec_paths_in(inc_hidden, inc_dirs, inc_files, path, a)
            =~= Seq::empty());
        assert(crate::fs_model::spec_paths_in(inc_hidden, inc_dirs, inc_files, path, a)
            + crate::fs_model::spec_paths_in(inc_hidden, inc_dirs, inc_files, path, b)
            =~= crate::fs_model::spec_paths_in(inc_hidden, inc_dirs, inc_files, path, b));
    } else {
        assert((a + b)[0] == a[0]);
        assert((a + b).len() > 0);
        assert((a + b).drop_first() =~= a.drop_first() + b);
        lemma_paths_in_concat(inc_hidden, inc_dirs, inc_files, path, a.drop_first(), b);
        assert(crate::fs_model::spec_paths_in(inc_hidden, inc_dirs, inc_files, path, a + b)
            =~= crate::fs_model::spec_paths_in(inc_hidden, inc_dirs, inc_files, path, a)
            + crate::fs_model::spec_paths_in(inc_hidden, inc_dirs, inc_files, path, b));
    }
}

/// Entry lists with the same entries (as a multiset) contribute the same
/// file entries, as a multiset.
proof fn lemma_file_entries_permuted(
    path: Seq<char>,
    es1: Seq<(String, FsTree)>,
    es2: Seq<(String, FsTree)>,
)
    requires
        es1.to_multiset() == es2.to_multiset(),
    ensures
        file_entries_in(path, es1).to_multiset() == file_entries_in(path, es2).to_multiset(),
    decreases es1.len(),
{
    broadcast use vstd::seq_lib::group_to_multiset_ensures;
    broadcast use vstd::multiset::group_multiset_axioms;
    broadcast use vstd::seq_lib::lemma_multiset_commutative;

    vstd::seq_lib::to_multiset_len(es1);
    vstd::seq_lib::to_multiset_len(es2);
    if es1.len() == 0 {
        assert(es2.len() == 0);
        assert(file_entries_in(path, es1) =~= file_entries_in(path, es2));
    } else {
        let e = es1[0];
        assert(es1.contains(e));
        assert(es2.to_multiset().count(e) > 0);
        assert(es2.contains(e));
        let j = choose|j: int| 0 <= j < es2.len() && es2[j] == e;
        let a = es2.subrange(0, j);
        let b = es2.subrange(j + 1, es2.len() as int);
        assert(es2 =~= a + seq![e] + b);
        lemma_file_entries_concat(path, a + seq![e], b);
        lemma_file_entries_concat(path, a, seq![e]);
        lemma_file_entries_concat(path, a, b);
        assert(file_entries_in(path, seq![e]) =~= file_entries_of(path, e)) by {
            assert(seq![e][0] == e);
            assert(seq![e].drop_first() =~= Seq::empty());
            assert(file_entries_in(path, Seq::empty()) =~= Seq::empty());
            assert(file_entries_of(path, e) + Seq::empty() =~= file_entries_of(path, e));
        }
        let rest1 = es1.drop_first();
        assert(rest1.to_multiset() =~= es1.to_multiset().remove(e)) by {
            assert(es1.remove(0) =~= rest1);
        }
        assert((a + b).to_multiset() =~= es2.to_multiset().remove(e)) by {
            assert((a + seq![e] + b).to_multiset() =~= a.to_multiset().add(
                seq![e].to_multiset(),
            ).add(b.to_multiset()));
            assert(seq![e].to_multiset() =~= Multiset::empty().insert(e)) by {
                assert(seq![e].drop_first() =~= Seq::<(String, FsTree)>::empty());
                assert(Seq::<(String, FsTree)>::empty().to_multiset() =~= Multiset::empty()) by {
                    vstd::seq_lib::to_multiset_len(Seq::<(String, FsTree)>::empty());
                    vstd::multiset::lemma_multiset_empty_len(
                        Seq::<(String, FsTree)>::empty().to_multiset(),
                    );
                }
            }
        }
        assert(rest1.to_multiset() =~= (a + b).to_multiset());
        lemma_file_entries_permuted(path, rest1, a + b);
        assert(file_entries_in(path, es1) =~= file_entries_of(path, e) + file_entries_in(
            path,
            rest1,
        ));
        assert(file_entries_in(path, es2) =~= file_entries_in(path, a) + file_entries_of(
            path,
            e,
        ) + file_entries_in(path, b));
        assert(file_entries_in(path, es1).to_multiset() =~= file_entries_in(
            path,
            es2,
        ).to_multiset());
    }
}

/// Entry lists with the same entries (as a multiset) contribute the same
/// walk listing, as a multiset.
proof fn lemma_paths_in_permuted(
    inc_hidden: bool,
    inc_dirs: bool,
    inc_files: bool,
    path: Seq<char>,
    es1: Seq<(String, FsTree)>,
    es2: Seq<(String, FsTree)>,
)
    requires
        es1.to_multiset() == es2.to_multiset(),
    ensures
        crate::fs_model::spec_paths_in(inc_hidden, inc_dirs, inc_files, path, es1).to_multiset()
            == crate::fs_model::spec_paths_in(
            inc_hidden,
            inc_dirs,
            inc_files,
            path,
            es2,
        ).to_multiset(),
    decreases es1.len(),
{
    broadcast use vstd::seq_lib::group_to_multiset_ensures;
    broadcast use vstd::multiset::group_multiset_axioms;
    broadcast use vstd::seq_lib::lemma_multiset_commutative;

    vstd::seq_lib::to_multiset_len(es1);
    vstd::seq_lib::to_multiset_len(es2);
    let walk = |es: Seq<(String, FsTree)>|
        crate::fs_model::spec_paths_in(inc_hidden, inc_dirs, inc_files, path, es);
    if es1.len() == 0 {
        assert(es2.len() == 0);
        assert(walk(es1) =~= walk(es2));
    } else {
        let e = es1[0];
        assert(es1.contains(e));
        assert(es2.to_multiset().count(e) > 0);
        assert(es2.contains(e));
        let j = choose|j: int| 0 <= j < es2.len() && es2[j] == e;
        let a = es2.subrange(0, j);
        let b = es2.subrange(j + 1, es2.len() as int);
        assert(es2 =~= a + seq![e] + b);
        lemma_paths_in_concat(inc_hidden, inc_dirs, inc_files, path, a + seq![e], b);
        lemma_paths_in_concat(inc_hidden, inc_dirs, inc_files, path, a, seq![e]);
        lemma_paths_in_concat(inc_hidden, inc_dirs, inc_files, path, a, b);
        assert(walk(seq![e]) =~= crate::fs_model::spec_entry_paths(
            inc_hidden,
            inc_dirs,
            inc_files,
            path,
            e,
        )) by {
            assert(seq![e][0] == e);
            assert(seq![e].drop_first() =~= Seq::empty());
            assert(walk(Seq::empty()) =~= Seq::empty());
            assert(crate::fs_model::spec_entry_paths(inc_hidden, inc_dirs, inc_files, path, e)
                + Seq::empty() =~= crate::fs_model::spec_entry_paths(
                inc_hidden,
                inc_dirs,
                inc_files,
                path,
                e,
            ));
        }
        let rest1 = es1.drop_first();
        assert(rest1.to_multiset() =~= es1.to_multiset().remove(e)) by {
            assert(es1.remove(0) =~= rest1);
        }
        assert((a + b).to_multiset() =~= es2.to_multiset().remove(e)) by {
            assert((a + seq![e] + b).to_multiset() =~= a.to_multiset().add(
                seq![e].to_multiset(),
            ).add(b.to_multiset()));
            assert(seq![e].to_multiset() =~= Multiset::empty().insert(e)) by {
                assert(seq![e].drop_first() =~= Seq::<(String, FsTree)>::empty());
                assert(Seq::<(String, FsTree)>::empty().to_multiset() =~= Multiset::empty()) by {
                    vstd::seq_lib::to_multiset_len(Seq::<(String, FsTree)>::empty());
                    vstd::multiset::lemma_multiset_empty_len(
                        Seq::<(String, FsTree)>::empty().to_multiset(),
                    );
                }
            }
        }
        assert(rest1.to_multiset() =~= (a + b).to_multiset());
        lemma_paths_in_permuted(inc_hidden, inc_dirs, inc_files, path, rest1, a + b);
        assert(walk(es1) =~= crate::fs_model::spec_entry_paths(
            inc_hidden,
            inc_dirs,
            inc_files,
            path,
            e,
        ) + walk(rest1));
        assert(walk(es2) =~= walk(a) + crate::fs_model::spec_entry_paths(
            inc_hidden,
            inc_dirs,
            inc_files,
            path,
            e,
        ) + walk(b));
        assert(walk(es1).to_multiset() =~= walk(es2).to_multiset());
    }
}

/// A directory's hash does not depend on the order of its entries: two
/// directories whose entry lists hold the same entries, in any orders,
/// hash to the same digest. Listing a directory concurrently or in any
/// scan order therefore cannot change its hash.
pub proof fn lemma_dir_hash_entry_order(path: Seq<char>, t1: FsTree, t2: FsTree)
    requires
        t1 is Dir,
        t2 is Dir,
        t1->Dir_entries@.to_multiset() == t2->Dir_entries@.to_multiset(),
    ensures
        spec_hash_dir(path, t1) == spec_hash_dir(path, t2),
{
    let es1 = t1->Dir_entries@;
    let es2 = t2->Dir_entries@;
    let fe1 = file_entries_under(path, t1);
    let fe2 = file_entries_under(path, t2);
    assert(fe1 == file_entries_in(path, es1));
    assert(fe2 == file_entries_in(path, es2));
    lemma_file_entries_permuted(path, es1, es2);
    crate::ordering::lemma_pair_le_total();
    fe1.lemma_sort_by_ensures(pair_le_fn());
    fe2.lemma_sort_by_ensures(pair_le_fn());
    assert(fe1.sort_by(pair_le_fn()).to_multiset() =~= fe2.sort_by(pair_le_fn()).to_multiset());
    vstd::seq_lib::lemma_sorted_unique(
        fe1.sort_by(pair_le_fn()),
        fe2.sort_by(pair_le_fn()),
        pair_le_fn(),
    );
    let d1 = spec_paths_under(false, true, false, path, t1);
    let d2 = spec_paths_under(false, true, false, path, t2);
    assert(d1 == crate::fs_model::spec_paths_in(false, true, false, path, es1));
    assert(d2 == crate::fs_model::spec_paths_in(false, true, false, path, es2));
    lemma_paths_in_permuted(false, true, false, path, es1, es2);
    crate::ordering::lemma_lex_le_total();
    d1.lemma_sort_by_ensures(lex_le_fn());
    d2.lemma_sort_by_ensures(lex_le_fn());
    assert(d1.sort_by(lex_le_fn()).to_multiset() =~= d2.sort_by(lex_le_fn()).to_multiset());
    vstd::seq_lib::lemma_sorted_unique(d1.sort_by(lex_le_fn()), d2.sort_by(lex_le_fn()), lex_le_fn());
    assert(dir_listing_lines(path, t1) == dir_listing_lines(path, t2));
}

} // verus!
