use run_if::fs_model::FsTree;
use run_if::utils::FileSearch;

fn file(content: &str) -> FsTree {
    FsTree::File { content: content.as_bytes().to_vec() }
}

fn dir(entries: Vec<(&str, FsTree)>) -> FsTree {
    FsTree::Dir { entries: entries.into_iter().map(|(n, t)| (n.to_string(), t)).collect() }
}

#[test]
fn test_file_finding() {
    let dir1 = dir(vec![
        ("dir21", dir(vec![("file.txt", file("HI")), ("dir31", dir(vec![("file.txt", file("HI"))]))])),
        ("dir22", dir(vec![("file.txt", file("HI"))])),
    ]);
    let root = String::from("dir1");

    let fs = FileSearch::new();
    let mut paths = fs.get_all_paths_under(&root, &dir1);
    assert_eq!(paths.len(), 6);
    assert!(paths.contains(&String::from("dir1/dir21/dir31/file.txt")));
    assert!(paths.contains(&String::from("dir1/dir21/file.txt")));
    assert!(paths.contains(&String::from("dir1/dir22/file.txt")));
    assert!(paths.contains(&String::from("dir1/dir21/dir31")));
    assert!(paths.contains(&String::from("dir1/dir21")));
    assert!(paths.contains(&String::from("dir1/dir22")));
    paths = fs.get_all_files_under(&root, &dir1);
    assert_eq!(paths.len(), 3);
    assert!(paths.contains(&String::from("dir1/dir21/dir31/file.txt")));
    assert!(paths.contains(&String::from("dir1/dir21/file.txt")));
    assert!(paths.contains(&String::from("dir1/dir22/file.txt")));

    paths = fs.get_all_dirs_under(&root, &dir1);
    assert_eq!(paths.len(), 3);
    assert!(paths.contains(&String::from("dir1/dir21/dir31")));
    assert!(paths.contains(&String::from("dir1/dir21")));
    assert!(paths.contains(&String::from("dir1/dir22")));
}

#[test]
fn hidden_entries_are_skipped_by_default() {
    let tree = dir(vec![(".hidden", dir(vec![("f.txt", file("x"))])), ("seen.txt", file("y"))]);
    let root = String::from("r");
    let fs = FileSearch::new();
    let paths = fs.get_all_paths_under(&root, &tree);
    assert_eq!(paths, vec![String::from("r/seen.txt")]);

    let all = FileSearch { include_hidden: true, include_dirs: true, include_files: true };
    let mut paths = all.get_all_paths_under(&root, &tree);
    paths.sort();
    assert_eq!(
        paths,
        vec![
            String::from("r/.hidden"),
            String::from("r/.hidden/f.txt"),
            String::from("r/seen.txt"),
        ]
    );
}

#[test]
fn non_directory_roots_yield_nothing() {
    let fs = FileSearch::new();
    assert_eq!(fs.get_all_paths_under(&String::from("f"), &file("x")).len(), 0);
    assert_eq!(fs.get_all_paths_under(&String::from("s"), &FsTree::Other).len(), 0);
}
