use kelp::collections::{TextMap, TextSet};
use kelp::git::{entry_of_mode, import_commit, is_executable, join_parents, parse_history, parse_tree, tag_name};
use kelp::views::View;
use kelp::{object_id, EntryKind, FileEntry, Problem, Snapshot};

#[test]
fn history_lists_commits_and_parents() {
    let records = parse_history("c1\nc2 c1\r\n c3  c1\tc2\n").unwrap();
    let list: Vec<(String, Vec<String>)> =
        records.into_iter().map(|record| (record.commit, record.parents)).collect();
    assert_eq!(
        list,
        [
            ("c1".to_owned(), vec![]),
            ("c2".to_owned(), vec!["c1".to_owned()]),
            ("c3".to_owned(), vec!["c1".to_owned(), "c2".to_owned()]),
        ]
    );
    assert!(parse_history("").unwrap().is_empty());
    assert_eq!(parse_history("c1\n\nc2\n").unwrap_err().problem, Problem::EmptyCommitRecord);
}

#[test]
fn trees_list_files() {
    let listing = b"100644 blob abc       5\tdir/file\0100755 blob def +7\traw-\xff\0";
    let entries = parse_tree(listing).unwrap();
    assert_eq!(entries.len(), 2);
    assert_eq!(
        (entries[0].mode.as_str(), entries[0].id.as_str(), entries[0].size, entries[0].path.as_str()),
        ("100644", "abc", 5, "dir/file")
    );
    assert_eq!((entries[1].size, entries[1].path.as_str()), (7, "\x007261772dff"));
    assert!(parse_tree(b"").unwrap().is_empty());
}

#[test]
fn malformed_trees_are_told_apart() {
    let problem = |listing: &[u8]| parse_tree(listing).unwrap_err().problem;
    assert_eq!(problem(b"100644 blob abc 5 file\0"), Problem::InvalidTreeEntry);
    assert_eq!(problem(b"\xff\tfile\0"), Problem::InvalidTreeEntry);
    assert_eq!(problem(b"160000 commit abc -\tmodule\0"), Problem::Submodule);
    assert_eq!(problem(b"100644 blob abc x\tfile\0"), Problem::InvalidTreeSize);
    assert_eq!(problem(b"100644 blob abc 18446744073709551616\tfile\0"), Problem::InvalidTreeSize);
    assert_eq!(problem(b"100644 blob abc 5\t.git/config\0"), Problem::UnsupportedPath);
    assert_eq!(
        parse_tree(b"100644 blob abc 18446744073709551615\tfile\0").unwrap()[0].size,
        u64::MAX
    );
}

fn file(value: &str) -> FileEntry {
    FileEntry {
        blob: object_id("blob", value.as_bytes()),
        size: value.len() as u64,
        executable: false,
        kind: Default::default(),
    }
}

#[test]
fn modes_become_kinds() {
    assert!(is_executable("100755") && !is_executable("100644"));
    assert_eq!(entry_of_mode(file("target"), "120000").kind, EntryKind::Symlink);
    assert_eq!(entry_of_mode(file("text"), "100644"), file("text"));
}

#[test]
fn commits_keep_their_origin_and_give_their_files() {
    let mut snapshot = Snapshot::default();
    snapshot.files.insert("a".into(), file("1"));
    let transaction = import_commit(&View::default(), &snapshot, "Message\n\n", "c1", file("raw commit")).unwrap();
    assert_eq!(transaction.format, 2);
    assert_eq!(transaction.message, "Message");
    assert_eq!(transaction.nonce, "c1");
    assert_eq!(transaction.provenance, Some(file("raw commit")));
    assert!(transaction.validate().is_ok());
    let mut view = View::default();
    view.apply(&transaction.id().unwrap(), &transaction);
    assert_eq!(view.snapshot().unwrap(), snapshot);
    let mut many = Snapshot::default();
    for i in 0..20_000 {
        many.files.insert(format!("file{i}"), file("1"));
    }
    let error = import_commit(&View::default(), &many, "Message", "c2", file("raw")).unwrap_err();
    assert_eq!(error.message(), "Git commit c2 exceeds the transaction metadata limit");
}

#[test]
fn merges_begin_where_their_parents_ended() {
    let mut roots: TextMap<TextSet> = TextMap::new();
    let one = |id: &str| {
        let mut set = TextSet::new();
        set.insert(id.to_owned());
        set
    };
    roots.insert("c1".into(), one("t1"));
    roots.insert("c2".into(), one("t2"));
    assert_eq!(join_parents(&roots, &["c1".to_owned(), "c2".to_owned()]).to_vec(), ["t1", "t2"]);
    assert!(join_parents(&roots, &[]).is_empty());
}

#[test]
fn tags_lose_their_place() {
    assert_eq!(tag_name("refs/tags/v1.0"), "v1.0");
    assert_eq!(tag_name("refs/tags/refs/tags/x"), "x");
    assert_eq!(tag_name("v1.0"), "v1.0");
}
