use run_if::change_detection::{hash_dir, hash_path, hash_string, HashError};
use run_if::fs_model::FsTree;

fn file(content: &str) -> FsTree {
    FsTree::File { content: content.as_bytes().to_vec() }
}

fn dir(entries: Vec<(&str, FsTree)>) -> FsTree {
    FsTree::Dir { entries: entries.into_iter().map(|(n, t)| (n.to_string(), t)).collect() }
}

#[test]
fn hashing_is_deterministic() {
    let s = String::from("some input, twice");
    assert_eq!(hash_string(&s), hash_string(&s));
    let t = dir(vec![("a.txt", file("one")), ("b", dir(vec![("c.txt", file("two"))]))]);
    let p = String::from("root");
    assert_eq!(hash_path(&p, &t).unwrap(), hash_path(&p, &t).unwrap());
}

#[test]
fn file_content_hash_is_pinned() {
    // Regression pin: the blake3 digest of the two bytes `HI`, hex-encoded.
    let h = hash_path(&String::from("f.txt"), &file("HI")).unwrap();
    assert_eq!(h, "9e1081d7cacacea658e9fbeb8ae95ba86e9b82be210de3fc0e51f71638bf3465");
    assert_eq!(h.len(), 64);
}

#[test]
fn empty_string_hash_is_pinned() {
    // Regression pin: the blake3 digest of no bytes, hex-encoded.
    let h = hash_string(&String::new());
    assert_eq!(h, "af1349b9f5f9a1a6a0404dea36dcc9499bcb25c9adc112b7cc9a93cae41f3262");
}

#[test]
fn dir_hash_changes_with_file_content() {
    let p = String::from("d");
    let before = hash_dir(&p, &dir(vec![("a.txt", file("one"))])).unwrap();
    let after = hash_dir(&p, &dir(vec![("a.txt", file("two"))])).unwrap();
    assert_ne!(before, after);
}

#[test]
fn dir_hash_changes_with_new_empty_subdir() {
    let p = String::from("d");
    let before = hash_dir(&p, &dir(vec![("a.txt", file("one"))])).unwrap();
    let after = hash_dir(&p, &dir(vec![("a.txt", file("one")), ("sub", dir(vec![]))])).unwrap();
    assert_ne!(before, after);
}

#[test]
fn dir_hash_changes_with_new_file() {
    let p = String::from("d");
    let before = hash_dir(&p, &dir(vec![("a.txt", file("one"))])).unwrap();
    let after =
        hash_dir(&p, &dir(vec![("a.txt", file("one")), ("b.txt", file(""))])).unwrap();
    assert_ne!(before, after);
}

#[test]
fn dir_hash_ignores_hidden_entries() {
    let p = String::from("d");
    let plain = hash_dir(&p, &dir(vec![("a.txt", file("one"))])).unwrap();
    let with_hidden_dir =
        hash_dir(&p, &dir(vec![("a.txt", file("one")), (".git", dir(vec![]))])).unwrap();
    let with_hidden_tree = hash_dir(
        &p,
        &dir(vec![
            ("a.txt", file("one")),
            (".git", dir(vec![("HEAD", file("ref: refs/heads/main"))])),
        ]),
    )
    .unwrap();
    assert_eq!(plain, with_hidden_dir);
    assert_eq!(plain, with_hidden_tree);
}

#[test]
fn sibling_dirs_with_disjoint_content_differ() {
    let left = hash_dir(&String::from("p/a"), &dir(vec![("f1.txt", file("one"))])).unwrap();
    let right = hash_dir(&String::from("p/b"), &dir(vec![("f2.txt", file("two"))])).unwrap();
    assert_ne!(left, right);
}

#[test]
fn empty_dir_hashes_the_null_literal() {
    let h = hash_dir(&String::from("d"), &dir(vec![])).unwrap();
    assert_eq!(h, hash_string(&String::from("null")));
}

#[test]
fn unsupported_paths_are_refused() {
    let p = String::from("sock");
    assert_eq!(hash_path(&p, &FsTree::Other).unwrap_err(), HashError::UnsupportedPath);
    let bad = dir(vec![("a.txt", file("one")), ("sock", FsTree::Other)]);
    assert!(hash_path(&String::from("d"), &bad).is_err());
    let hidden_ok = dir(vec![("a.txt", file("one")), (".sock", FsTree::Other)]);
    assert!(hash_path(&String::from("d"), &hidden_ok).is_ok());
}

#[test]
fn dir_hash_depends_on_its_own_path() {
    let t1 = dir(vec![("f.txt", file("x"))]);
    let t2 = dir(vec![("f.txt", file("x"))]);
    let here = hash_dir(&String::from("here"), &t1).unwrap();
    let there = hash_dir(&String::from("there"), &t2).unwrap();
    assert_ne!(here, there);
}

#[test]
fn dir_hash_ignores_entry_order() {
    let p = String::from("d");
    let forward = hash_dir(
        &p,
        &dir(vec![("a.txt", file("one")), ("b.txt", file("two")), ("sub", dir(vec![]))]),
    )
    .unwrap();
    let backward = hash_dir(
        &p,
        &dir(vec![("sub", dir(vec![])), ("b.txt", file("two")), ("a.txt", file("one"))]),
    )
    .unwrap();
    assert_eq!(forward, backward);
}

#[test]
fn command_identity_joins_tokens_with_spaces() {
    let parts = vec![String::from("echo"), String::from("hello"), String::from("world")];
    assert_eq!(
        run_if::change_detection::command_identity(&parts),
        hash_string(&String::from("echo hello world"))
    );
    assert_eq!(run_if::change_detection::command_identity(&vec![]), hash_string(&String::new()));
}
