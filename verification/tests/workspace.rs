use std::collections::BTreeMap;

use kelp::checkout::{batch_end, directories, removals, scan_paths, visits, writes};
use kelp::collections::{TextMap, TextSet};
use kelp::history::{
    check_restorable, check_selection, difference, parse_reference, pick_match, short_hash, show_commit, Shown,
};
use kelp::index::{
    boundary, cache_page, checksum, fingerprint, is_current, is_unchanged, source, CachedFile, Metadata, Projection,
};
use kelp::merge::{
    ancestors, contested_files, is_mergeable, merge_base, merge_contents, merge_mode, merge_working, settle, Base, HeadMerge,
    Step,
};
use kelp::storage::{hash_bytes, prefix_bounds};
use kelp::transactions::{Graph, SavedView, Transaction};
use kelp::workspace::{
    changed_paths, check_metadata, checkout_view, file_changes, merge_snapshots, selected_snapshot, selected_view,
    status, summary, Resolution, WorkspaceState,
};
use kelp::{object_id, EntryKind, FileEntry, Problem, Snapshot};

fn file(value: &str) -> FileEntry {
    FileEntry {
        blob: object_id("blob", value.as_bytes()),
        size: value.len() as u64,
        executable: false,
        kind: Default::default(),
    }
}

fn snapshot(files: &[(&str, &str)]) -> Snapshot {
    let mut result = Snapshot::default();
    for (path, value) in files {
        result.files.insert((*path).to_owned(), file(value));
    }
    result
}

fn record(graph: &Graph, files: &[(&str, &str)], nonce: &str) -> Transaction {
    graph.record(&snapshot(files), nonce.into(), nonce.into()).unwrap()
}

fn insert(graph: &mut Graph, transaction: &Transaction) -> String {
    let id = transaction.id().unwrap();
    graph.transactions.insert(id.clone(), transaction.clone());
    id
}

fn set(list: &[&str]) -> TextSet {
    let mut result = TextSet::new();
    for text in list {
        result.insert((*text).to_owned());
    }
    result
}

// Projections

#[test]
fn incremental_projection_matches_rebuilt_graph_and_recovers_a_stale_cache() {
    let mut graph = Graph::default();
    let mut projection = Projection::default();
    let mut files: BTreeMap<String, String> = BTreeMap::new();
    for n in 0..12 {
        files.insert(format!("file-{}", n % 3), n.to_string());
        let list: Vec<(&str, &str)> = files.iter().map(|(a, b)| (a.as_str(), b.as_str())).collect();
        let transaction = projection
            .view
            .record(&snapshot(&list), format!("Edit {n}"), format!("n{n}"))
            .unwrap();
        let id = insert(&mut graph, &transaction);
        projection.apply(&id, &transaction);
        assert_eq!(projection.view, graph.view().unwrap());
        assert_eq!(projection.roots, graph.roots());
        assert_eq!(projection.id().unwrap(), graph.view_id().unwrap());
    }
    let ids = graph.transactions.keys();
    let bytes = b"cached";
    assert!(is_current(&source(&ids), &checksum(bytes), &ids, bytes));
    assert!(!is_current(&source(&ids), "corrupt", &ids, bytes));
    assert!(!is_current("", "", &ids, bytes));
    let mut fewer = ids.clone();
    fewer.remove(&ids.to_vec()[0]);
    assert!(!is_current(&source(&ids), &checksum(bytes), &fewer, bytes));
}

#[test]
fn a_projection_is_extended_by_what_arrives() {
    let first = record(&Graph::default(), &[("a", "1")], "first");
    let mut all = Graph::default();
    let first_id = insert(&mut all, &first);
    let mut projection = Projection::default();
    projection.apply(&first_id, &first);
    let second = record(&all, &[("a", "2")], "second");
    let mut additions = Graph::default();
    insert(&mut additions, &second);
    let needed = boundary(&additions, &set(&[&first_id])).unwrap();
    assert_eq!(needed, set(&[&first_id]));
    let mut known: TextMap<Transaction> = TextMap::new();
    known.insert(first_id.clone(), first);
    projection.extend(&additions, &known, &set(&[&first_id])).unwrap();
    insert(&mut all, &second);
    assert_eq!(projection.view, all.view().unwrap());
    assert_eq!(projection.roots, all.roots());
    assert_eq!(boundary(&additions, &set(&[])).unwrap_err().problem, Problem::MissingDependency);
}

#[test]
fn unchanged_files_are_told_by_their_fingerprint() {
    let metadata = Metadata {
        device: 1,
        inode: 2,
        size: 3,
        mode: 4,
        modified: 5,
        modified_nanoseconds: 6,
        changed: 7,
        changed_nanoseconds: 8,
    };
    let (text, changed_at) = fingerprint(&metadata).unwrap();
    assert_eq!(text, "1:2:3:4:5000000006:7000000008");
    assert_eq!(changed_at, 7_000_000_008);
    assert!(fingerprint(&Metadata { changed: -1, ..metadata }).is_none());
    let cached = CachedFile { fingerprint: text.clone(), captured_at: changed_at + 1, entry: file("a") };
    assert!(is_unchanged(&cached, &text, changed_at));
    assert!(!is_unchanged(&cached, "other", changed_at));
    assert!(!is_unchanged(&cached, &text, changed_at + 1));
    assert!(cache_page("a/b") < 16);
    let id = object_id("cache-path", b"a/b");
    assert!(id.len() == 64);
}

// Merging

#[test]
fn lines_of_both_sides_are_merged() {
    let base = b"one\ntwo\nthree\nfour\nfive\n".to_vec();
    let ours = b"ONE\ntwo\nthree\nfour\nfive\n".to_vec();
    let theirs = b"one\ntwo\nthree\nfour\nFIVE\n".to_vec();
    assert_eq!(
        merge_contents(base.clone(), ours.clone(), theirs).as_deref(),
        Some("ONE\ntwo\nthree\nfour\nFIVE\n")
    );
    assert_eq!(merge_contents(base.clone(), ours.clone(), b"uno\ntwo\nthree\nfour\nfive\n".to_vec()), None);
    assert_eq!(merge_contents(base.clone(), ours, b"bin\0ary".to_vec()), None);
    assert_eq!(merge_contents(base, vec![0xff], b"one\n".to_vec()), None);
}

#[test]
fn only_small_regular_files_are_merged() {
    let (a, b) = (file("a"), file("b"));
    assert!(is_mergeable(Some(&a), Some(&a), Some(&b)));
    assert!(!is_mergeable(Some(&a), Some(&a), None));
    let mut link = file("c");
    link.kind = EntryKind::Symlink;
    assert!(!is_mergeable(Some(&a), Some(&link), Some(&b)));
    let mut script = file("a");
    script.executable = true;
    assert!(merge_mode(Some(&a), &script, &b));
    assert!(merge_mode(Some(&a), &b, &script));
    assert!(!merge_mode(Some(&a), &a, &b));
    assert!(!merge_mode(Some(&script), &a, &script));
}

#[test]
fn concurrent_versions_are_merged_from_their_nearest_common_version() {
    let mut graph = Graph::default();
    let base = record(&graph, &[("f", "base")], "base");
    let base_id = insert(&mut graph, &base);
    let left = record(&graph, &[("f", "left")], "left");
    let right = record(&graph, &[("f", "right")], "right");
    let left_id = insert(&mut graph, &left);
    let right_id = insert(&mut graph, &right);
    let mut back = ancestors(&graph, "f", &left_id).to_vec();
    back.sort();
    let mut expected = vec![base_id.clone(), left_id.clone()];
    expected.sort();
    assert_eq!(back, expected);
    let view = graph.view().unwrap();
    let heads = view.files.get("f").unwrap();
    assert_eq!(heads.len(), 2);
    match merge_base(&graph, "f", heads) {
        Base::Value(value) => assert_eq!(value, Some(file("base"))),
        Base::Ambiguous => panic!("one version is nearest"),
    }
    let mut merge = HeadMerge::new(heads);
    match merge.next() {
        Step::Merge { ours, theirs } => {
            let mut order = vec![left_id, right_id];
            order.sort();
            let first = if order[0] == left.id().unwrap() { "left" } else { "right" };
            let second = if first == "left" { "right" } else { "left" };
            assert_eq!((ours, theirs), (Some(file(first)), Some(file(second))));
        }
        Step::Done(_) => panic!("two versions differ"),
    }
    merge.accept(file("merged"));
    match merge.next() {
        Step::Done(value) => assert_eq!(value, Some(file("merged"))),
        Step::Merge { .. } => panic!("nothing is left"),
    }
    let mut settled = view.clone();
    settle(&mut settled, "f", file("merged"));
    settle(&mut settled, "absent", file("merged"));
    assert_eq!(settled.snapshot().unwrap(), snapshot(&[("f", "merged")]));
    assert!(view.snapshot().is_err());
}

#[test]
fn files_that_both_sides_edited_are_contested() {
    let base = snapshot(&[("a", "1"), ("b", "1"), ("c", "1")]);
    let local = snapshot(&[("a", "2"), ("b", "2"), ("c", "1")]);
    let incoming = snapshot(&[("a", "3"), ("b", "2"), ("c", "3")]);
    assert_eq!(contested_files(&base, &local, &incoming).to_vec(), ["a"]);
    let mut merged = TextMap::new();
    assert!(merge_working(&base, &local, &incoming, &merged, Resolution::Stop).is_err());
    merged.insert("a".to_owned(), file("2 and 3"));
    assert_eq!(
        merge_working(&base, &local, &incoming, &merged, Resolution::Stop).unwrap(),
        snapshot(&[("a", "2 and 3"), ("b", "2"), ("c", "3")])
    );
}

#[test]
fn snapshots_merge_file_by_file() {
    let base = snapshot(&[("a", "1"), ("b", "1"), ("c", "1"), ("d", "1")]);
    let local = snapshot(&[("a", "2"), ("b", "1"), ("c", "2"), ("d", "1")]);
    let remote = snapshot(&[("a", "1"), ("b", "3"), ("c", "3"), ("e", "3")]);
    let error = merge_snapshots(&base, &local, &remote, Resolution::Stop).unwrap_err();
    assert_eq!(
        error.message(),
        "both you and the remote edited: c. Your files are unchanged. Use `kelp pull --keep-local` or `kelp pull --keep-remote` to choose those files' versions"
    );
    let kept = merge_snapshots(&base, &local, &remote, Resolution::Local).unwrap();
    assert_eq!(kept, snapshot(&[("a", "2"), ("b", "3"), ("c", "2"), ("e", "3")]));
    let taken = merge_snapshots(&base, &local, &remote, Resolution::Remote).unwrap();
    assert_eq!(taken, snapshot(&[("a", "2"), ("b", "3"), ("c", "3"), ("e", "3")]));
    assert_eq!(merge_snapshots(&base, &base, &remote, Resolution::Stop).unwrap(), remote);
    assert_eq!(merge_snapshots(&base, &local, &base, Resolution::Stop).unwrap(), local);
}

// Differences

#[test]
fn changes_are_told_by_kind() {
    let before = snapshot(&[("a", "1"), ("b", "1")]);
    let after = snapshot(&[("b", "2"), ("c", "1")]);
    let changes: Vec<(String, &str)> =
        file_changes(&before, &after).into_iter().map(|change| (change.path, change.kind)).collect();
    assert_eq!(
        changes,
        [("a".to_owned(), "deleted"), ("b".to_owned(), "modified"), ("c".to_owned(), "added")]
    );
    assert_eq!(changed_paths(&before, &after).len(), 3);
    assert_eq!(changed_paths(&before, &before).len(), 0);
    assert_eq!(summary(Some("Words"), &file_changes(&before, &after)).unwrap(), "Words");
    assert_eq!(summary(Some("  "), &[]).unwrap_err().problem, Problem::EmptySummary);
    assert!(check_metadata(2 * 1024 * 1024).is_ok());
    assert_eq!(check_metadata(2 * 1024 * 1024 + 1).unwrap_err().problem, Problem::MetadataTooLarge);
}

#[test]
fn differences_show_lines_or_sizes() {
    let text = difference("f", b"one\ntwo\n".to_vec(), b"one\n2\n".to_vec(), false, true).unwrap();
    assert!(text.contains("-two\n+2\n"), "{text}");
    assert!(text.contains("--- before/f") && text.contains("+++ after/f"), "{text}");
    assert!(text.ends_with("Executable: false → true\n"), "{text}");
    assert_eq!(difference("f", vec![0, 1], vec![0xff], false, false).unwrap(), "Binary contents: 2 → 1 bytes\n");
}

#[test]
fn commits_are_shown_against_the_versions_they_replace() {
    let mut graph = Graph::default();
    let first = record(&graph, &[("a", "1"), ("out", "1")], "first");
    let id = insert(&mut graph, &first);
    let second = record(&graph, &[("a", "2"), ("out", "2")], "second");
    let shown = show_commit(&second, &graph.transactions, &["a".to_owned()]);
    assert_eq!(shown.len(), 2);
    match &shown[0] {
        Shown::Compared { path, before, after, against } => {
            assert_eq!((path.as_str(), against), ("a", &None));
            assert_eq!((before.clone(), after.clone()), (Some(file("1")), Some(file("2"))));
        }
        Shown::Excluded { .. } => panic!("the file is selected"),
    }
    assert!(matches!(&shown[1], Shown::Excluded { path } if path == "out"));
    let third = record(&graph, &[("a", "3"), ("out", "1")], "third");
    insert(&mut graph, &second);
    insert(&mut graph, &third);
    let join = record(&graph, &[("a", "4"), ("out", "4")], "join");
    let shown = show_commit(&join, &graph.transactions, &[]);
    let against = shown.iter().filter(|one| matches!(one, Shown::Compared { against: Some(_), .. })).count();
    assert_eq!(against, 2);
    assert!(!id.is_empty());
}

// References

/// Objects by kind and identity, found by the beginning of their hash.
fn resolve(objects: &[(String, String)], reference: &str) -> Result<(String, String), kelp::Error> {
    let parsed = parse_reference(reference)?;
    let (low, high) = prefix_bounds(&parsed.prefix)?;
    let matches = objects
        .iter()
        .filter(|(kind, id)| {
            let hash = hash_bytes(id).unwrap();
            parsed.kind.as_ref().is_none_or(|wanted| wanted == kind) && low <= hash && hash <= high
        })
        .cloned()
        .collect();
    pick_match(reference, matches)
}

#[test]
fn hash_prefixes_are_rejected_when_ambiguous_instead_of_selecting_a_version() {
    let mut objects = Vec::new();
    let mut prefixes = BTreeMap::new();
    for nonce in 0..2000 {
        let transaction = Transaction {
            format: 1,
            nonce: format!("n-{nonce}"),
            message: "Empty commit".into(),
            edits: Default::default(),
            provenance: None,
        };
        let id = transaction.id().unwrap();
        objects.push(("transaction".to_owned(), id.clone()));
        let prefix = id[..4].to_owned();
        if let Some(other) = prefixes.insert(prefix.clone(), id.clone()) {
            assert!(resolve(&objects, &prefix).is_err());
            assert_eq!(resolve(&objects, &id).unwrap().1, id);
            assert_eq!(resolve(&objects, &other).unwrap().1, other);
            return;
        }
    }
    panic!("fixture did not produce a prefix collision")
}

#[test]
fn view_hashes_restore_full_state_and_commit_hashes_only_identify_edits() {
    let mut graph = Graph::default();
    let mut objects = Vec::new();
    let mut views = Vec::new();
    for (text, nonce) in [("first", "n1"), ("second", "n2")] {
        let files = snapshot(&[("file", text)]);
        let transaction = graph.record(&files, text.into(), nonce.into()).unwrap();
        let id = insert(&mut graph, &transaction);
        let view = SavedView {
            format: 1,
            snapshot: files.id().unwrap(),
            roots: graph.roots(),
            paths: Vec::new(),
        };
        objects.push(("transaction".to_owned(), id));
        objects.push(("saved-view".to_owned(), view.id().unwrap()));
        views.push(view);
    }
    let first = views[0].id().unwrap();
    assert_ne!(first, objects[0].1);
    let (kind, _) = resolve(&objects, &objects[2].1).unwrap();
    assert!(check_restorable(&objects[2].1, &kind).is_err());
    let (kind, restored) = resolve(&objects, &format!("view:{}", &first[..12])).unwrap();
    assert!(check_restorable(&first, &kind).is_ok());
    assert_eq!(restored, first);
    let again = SavedView {
        format: 1,
        snapshot: snapshot(&[("file", "first")]).id().unwrap(),
        roots: views[0].roots.clone(),
        paths: Vec::new(),
    };
    assert_eq!(again.id().unwrap(), first);
}

#[test]
fn shown_hashes_are_as_short_as_they_can_be() {
    let hash = "0123456789abcdef".repeat(4);
    assert_eq!(short_hash(&hash, &[]), "0123456789ab");
    let near = format!("0123456789abcde0{}", &hash[16..]);
    assert_eq!(short_hash(&hash, std::slice::from_ref(&near)), "0123456789abcdef");
    assert_eq!(short_hash(&near, std::slice::from_ref(&hash)), "0123456789abcde0");
    assert_eq!(short_hash(&hash, std::slice::from_ref(&hash)), hash);
}

#[test]
fn references_are_checked() {
    let reference = parse_reference("view:0123").unwrap();
    assert_eq!((reference.kind.as_deref(), reference.prefix.as_str()), (Some("saved-view"), "0123"));
    let reference = parse_reference("commit:abcd").unwrap();
    assert_eq!((reference.kind.as_deref(), reference.prefix.as_str()), (Some("transaction"), "abcd"));
    assert_eq!(parse_reference("abcdef").unwrap().kind, None);
    for bad in ["abc", "ABCD", "view:xyz0", &"a".repeat(65)] {
        assert_eq!(parse_reference(bad).unwrap_err().problem, Problem::InvalidReference);
    }
    let one = ("saved-view".to_owned(), "a".repeat(64));
    assert_eq!(pick_match("aaaa", vec![one.clone()]).unwrap(), one);
    assert_eq!(pick_match("aaaa", vec![]).unwrap_err().message(), "hash aaaa is not available locally");
    assert_eq!(
        pick_match("aaaa", vec![one.clone(), one]).unwrap_err().message(),
        "hash aaaa is ambiguous; use more characters or a view:/commit: prefix"
    );
    assert!(check_restorable("aaaa", "saved-view").is_ok());
    assert_eq!(check_restorable("aaaa", "transaction").unwrap_err().problem, Problem::NotAView);
    let view = SavedView { format: 2, snapshot: String::new(), roots: TextSet::new(), paths: vec!["a".into()] };
    assert!(check_selection(&view, &["a".to_owned()]).is_ok());
    assert_eq!(check_selection(&view, &[]).unwrap_err().problem, Problem::DifferentSelection);
}

// Working copies

/// Files in memory, with what was saved of them.
struct Copy {
    files: Snapshot,
    state: WorkspaceState,
    snapshots: BTreeMap<String, Snapshot>,
    views: BTreeMap<String, SavedView>,
}

impl Copy {
    fn capture(&mut self) -> String {
        let snapshot = self.files.id().unwrap();
        self.snapshots.entry(snapshot.clone()).or_insert_with(|| self.files.clone());
        let view = self.state.saved_view(snapshot, TextSet::new());
        let id = view.id().unwrap();
        self.views.entry(id.clone()).or_insert(view);
        id
    }

    fn restore(&mut self, kind: &str, id: &str) -> Result<String, kelp::Error> {
        check_restorable(id, kind)?;
        let view = &self.views[id];
        check_selection(view, &self.state.paths)?;
        let target = self.snapshots[&view.snapshot].clone();
        let backup = self.capture();
        for path in removals(&self.files, &target).to_vec() {
            self.files.files.remove(&path);
        }
        for path in writes(&self.files, &target).to_vec() {
            let entry = target.files.get(&path).unwrap().clone();
            self.files.files.insert(path, entry);
        }
        self.state.record_restore(&target);
        self.capture();
        Ok(backup)
    }
}

#[test]
fn restoring_is_undone_by_restoring_what_it_saved() {
    let mut state = WorkspaceState::new("demo", None, set(&["a"]), "base".into());
    state.record_commit("t1", "s1".into(), set(&["a"]));
    let first = snapshot(&[("a", "1"), ("b", "1")]);
    let mut copy =
        Copy { files: first.clone(), state, snapshots: BTreeMap::new(), views: BTreeMap::new() };
    let saved = copy.capture();
    assert_eq!(copy.views[&saved].format, 1);
    let draft = snapshot(&[("a", "2"), ("c", "draft")]);
    copy.files = draft.clone();
    assert!(copy.restore("transaction", &saved).is_err());
    assert_eq!(copy.files, draft);
    let backup = copy.restore("saved-view", &saved).unwrap();
    assert_eq!(copy.files, first);
    assert_eq!(copy.state.tracked_files.to_vec(), ["a", "b"]);
    assert_eq!(copy.state.transactions.to_vec(), ["t1"]);
    assert_eq!(copy.state.outbox.to_vec(), ["t1"]);
    assert_eq!(copy.restore("saved-view", &backup).unwrap(), saved);
    assert_eq!(copy.files, draft);
    assert_eq!(copy.state.outbox.to_vec(), ["t1"]);
    copy.state.select(vec!["a".into()]);
    assert_eq!(copy.restore("saved-view", &backup).unwrap_err().problem, Problem::DifferentSelection);
    let partial = copy.state.saved_view("s".into(), set(&["t1"]));
    assert_eq!((partial.format, partial.paths), (2, vec!["a".to_owned()]));
}

#[test]
fn the_state_of_a_working_copy_follows_what_happens() {
    let mut state = WorkspaceState::new("demo", None, set(&["a"]), "base".into());
    assert!(state.validate().is_ok());
    assert_eq!(state.version, 3);
    state.record_commit("t1", "s1".into(), set(&["a", "b"]));
    assert_eq!((state.outbox.to_vec(), state.base_snapshot.as_str()), (vec!["t1".to_owned()], "s1"));
    state.acknowledge("t1");
    assert!(state.outbox.is_empty() && state.transactions.contains("t1"));
    assert!(state.set_remote("http://host".into(), "demo".into()).unwrap());
    assert_eq!(state.outbox.to_vec(), ["t1"]);
    assert!(!state.set_remote("http://host".into(), "demo".into()).unwrap());
    assert_eq!(state.set_remote("http://host".into(), "bad name".into()).unwrap_err().problem, Problem::InvalidName);
    state.record_sync(&set(&["t1"]), vec![7], "local".into());
    assert!(state.outbox.is_empty());
    assert_eq!(state.start_cursors("local"), vec![7]);
    assert!(state.start_cursors("other").is_empty());
    state.record_pull(&set(&["t2"]), "s2".into(), set(&["c"]));
    assert_eq!(state.transactions.to_vec(), ["t1", "t2"]);
    state.set_layout("other".into());
    assert!(state.cursors.is_empty());
    state.version = 4;
    assert_eq!(state.validate().unwrap_err().message(), "unsupported workspace version 4");
    state.version = 1;
    state.paths = vec!["a".into()];
    assert_eq!(state.validate().unwrap_err().problem, Problem::PartialCheckout);
    state.paths = vec!["a/".into()];
    assert_eq!(state.validate().unwrap_err().problem, Problem::InvalidCheckout);
    state.select(vec!["a".into()]);
    assert!(state.validate().is_ok());
    state.record_sync(&TextSet::new(), vec![7], "local".into());
    state.expand(vec!["a".into(), "b".into()]);
    assert_eq!(state.paths, ["a", "b"]);
    assert!(state.start_cursors("local").is_empty());
    state.version = 0;
    assert!(state.upgrade("empty".into()));
    assert_eq!((state.version, state.base_snapshot.as_str()), (3, "empty"));
    assert!(!state.upgrade("other".into()));
    assert_eq!(state.base_snapshot, "empty");
}

#[test]
fn a_selection_restricts_views_and_snapshots() {
    let mut graph = Graph::default();
    let first = record(&graph, &[("in/a", "1"), ("out", "1")], "first");
    insert(&mut graph, &first);
    let view = graph.view().unwrap();
    let paths = vec!["in".to_owned()];
    assert_eq!(selected_view(&view, &paths).files.keys().to_vec(), ["in/a"]);
    assert_eq!(
        selected_snapshot(&snapshot(&[("in/a", "1"), ("out", "1")]), &paths),
        snapshot(&[("in/a", "1")])
    );
    assert!(checkout_view(&view, &paths).is_ok());
    // A commit of the selected part edits nothing else.
    let commit = selected_view(&view, &paths)
        .record(&snapshot(&[("in/a", "2"), ("in/b", "2")]), "Edit".into(), "partial".into())
        .unwrap();
    assert_eq!(commit.edits.keys().to_vec(), ["in/a", "in/b"]);
    insert(&mut graph, &commit);
    assert_eq!(
        graph.view().unwrap().snapshot().unwrap(),
        snapshot(&[("in/a", "2"), ("in/b", "2"), ("out", "1")])
    );
    // The same roots stand for the same history.
    let mut again = Graph::default();
    insert(&mut again, &commit);
    insert(&mut again, &first);
    assert_eq!(again.roots().to_vec(), graph.roots().to_vec());
    assert_eq!(again.view_id().unwrap(), graph.view_id().unwrap());
    assert_eq!(again.transactions, graph.transactions);
    let mut clash = Graph::default();
    insert(&mut clash, &record(&Graph::default(), &[("in", "file")], "file"));
    insert(&mut clash, &record(&Graph::default(), &[("in/a", "1")], "child"));
    let error = checkout_view(&clash.view().unwrap(), &["in/a".to_owned()]).unwrap_err();
    assert_eq!(error.message(), "selected paths collide with files outside the checkout: in/a");
}

#[test]
fn the_status_compares_files_with_the_baseline() {
    let state = WorkspaceState::new("demo", Some("http://host".into()), set(&[]), "base".into());
    let projection = Projection::default();
    let found = status(&state, &snapshot(&[("a", "2")]), &snapshot(&[("a", "1")]), &projection, None);
    assert_eq!(found.changed, ["a"]);
    assert_eq!(found.pending_commits, 0);
    assert!(found.conflicts.is_empty());
    assert_eq!(found.view, projection.id().unwrap());
}

#[test]
fn directory_entries_are_visited_where_the_selection_leads() {
    let paths = vec!["a/b".to_owned()];
    assert!(visits(Some("a"), 1, Some("a"), true, &paths));
    assert!(visits(Some("b"), 2, Some("a/b"), true, &paths));
    assert!(visits(Some("c"), 3, Some("a/b/c"), false, &paths));
    assert!(!visits(Some("x"), 1, Some("x"), false, &paths));
    assert!(!visits(Some(".git"), 1, Some(".git"), true, &[]));
    assert!(!visits(Some(".kelp"), 2, Some("a/.kelp"), true, &[]));
}

#[test]
fn scans_also_look_at_what_was_there_before() {
    let paths = scan_paths(
        &set(&["new"]),
        &set(&["removed"]),
        &snapshot(&[("base", "1")]),
        &snapshot(&[("last", "1")]),
        &[],
    );
    assert!(paths.contains("new") && paths.contains("removed"));
}

#[test]
fn files_are_read_in_bounded_groups() {
    let sizes = vec![1u64; 20];
    assert_eq!(batch_end(&sizes, 0), 16);
    assert_eq!(batch_end(&sizes, 16), 20);
    assert_eq!(batch_end(&[20_000_000, 20_000_000], 0), 1);
    assert_eq!(batch_end(&[40_000_000, 1], 0), 1);
    assert_eq!(batch_end(&[], 0), 0);
}

#[test]
fn updates_remove_and_write_what_differs() {
    let current = snapshot(&[("a", "1"), ("b", "1"), ("dir/x", "1")]);
    let target = snapshot(&[("a", "1"), ("b", "2"), ("new/y", "1")]);
    assert_eq!(removals(&current, &target).to_vec(), ["dir/x"]);
    assert_eq!(writes(&current, &target).to_vec(), ["b", "new/y"]);
    assert_eq!(directories(&target).to_vec(), ["new"]);
}
