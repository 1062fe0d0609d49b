use kelp::collections::{TextMap, TextSet};
use kelp::transactions::{partition, Edit, Graph, SavedView, Transaction};
use kelp::views::View;
use kelp::{object_id, EntryKind, FileEntry, Problem, Snapshot};

fn file(value: &str) -> FileEntry {
    FileEntry {
        blob: object_id("blob", value.as_bytes()),
        size: value.len() as u64,
        executable: false,
        kind: Default::default(),
    }
}

fn record(graph: &Graph, files: &[(&str, &str)], nonce: &str) -> Transaction {
    let mut snapshot = Snapshot::default();
    for (path, value) in files {
        snapshot.files.insert((*path).to_owned(), file(value));
    }
    graph.record(&snapshot, nonce.into(), nonce.into()).unwrap()
}

fn graph_of(list: &[&Transaction]) -> Graph {
    let mut graph = Graph::default();
    for transaction in list {
        graph.transactions.insert(transaction.id().unwrap(), (*transaction).clone());
    }
    graph
}

fn set(list: &[&str]) -> TextSet {
    let mut result = TextSet::new();
    for text in list {
        result.insert((*text).to_owned());
    }
    result
}

#[test]
fn independent_changes_have_no_repository_parent_and_commute() {
    let empty = Graph::default();
    let a = record(&empty, &[("a", "one")], "a");
    let b = record(&empty, &[("b", "two")], "b");
    assert!(a.dependencies().is_empty() && b.dependencies().is_empty());
    let graph = graph_of(&[&b, &a]);
    let reverse = graph_of(&[&a, &b]);
    assert_eq!(graph.view_id().unwrap(), reverse.view_id().unwrap());
    assert_eq!(graph.view().unwrap().snapshot().unwrap(), reverse.view().unwrap().snapshot().unwrap());
    assert_eq!(graph.view().unwrap().snapshot().unwrap().files.len(), 2);
    let next = record(&graph, &[("a", "updated"), ("b", "two")], "next");
    assert_eq!(next.dependencies().len(), 1);
    assert_eq!(next.edits.keys().to_vec(), ["a"]);
}

#[test]
fn concurrent_values_and_deletions_survive_until_explicit_resolution() {
    let start = record(&Graph::default(), &[("file", "base")], "start");
    let base = graph_of(&[&start]);
    let edited = record(&base, &[("file", "edit")], "edited");
    let deleted = record(&base, &[], "deleted");
    let mut graph = base;
    graph.transactions.insert(edited.id().unwrap(), edited.clone());
    graph.transactions.insert(deleted.id().unwrap(), deleted.clone());
    assert_eq!(graph.view().unwrap().conflicts(), set(&["file"]));
    assert!(graph.view().unwrap().snapshot().is_err());
    assert_eq!(graph.view().unwrap().files.get("file").unwrap().len(), 2);
    let resolution = record(&graph, &[("file", "resolved")], "resolution");
    assert_eq!(
        resolution.edits.get("file").unwrap().parents,
        set(&[&edited.id().unwrap(), &deleted.id().unwrap()])
    );
    graph.transactions.insert(resolution.id().unwrap(), resolution);
    assert_eq!(graph.view().unwrap().snapshot().unwrap().files.get("file"), Some(&file("resolved")));
}

#[test]
fn multi_file_changes_are_indivisible_and_require_complete_dependencies() {
    let pair = record(&Graph::default(), &[("api", "v2"), ("caller", "v2")], "pair");
    let base = graph_of(&[&pair]);
    let next = record(&base, &[("api", "v3"), ("caller", "v2")], "next");
    let mut graph = graph_of(&[&next]);
    assert!(graph.view().is_err());
    graph.transactions.insert(pair.id().unwrap(), pair);
    let snapshot = graph.view().unwrap().snapshot().unwrap();
    assert_eq!(snapshot.files.get("api"), Some(&file("v3")));
    assert_eq!(snapshot.files.get("caller"), Some(&file("v2")));
}

#[test]
fn path_collisions_are_conflicts_and_missing_dependency_writes_are_rejected() {
    let a = record(&Graph::default(), &[("a", "file")], "a");
    let b = record(&Graph::default(), &[("a/b", "child")], "b");
    let graph = graph_of(&[&a, &b]);
    assert_eq!(graph.view().unwrap().conflicts().len(), 2);
    let mut invalid = record(&Graph::default(), &[("other", "bad")], "bad");
    let mut edit = invalid.edits.remove("other").unwrap();
    edit.parents.insert(a.id().unwrap());
    invalid.edits.insert("other".into(), edit);
    let mut parents: TextMap<Transaction> = TextMap::new();
    parents.insert(a.id().unwrap(), a);
    assert!(invalid.validate_parents(&parents).is_err());
}

#[test]
fn transactions_are_written_in_one_form() {
    let transaction = record(&Graph::default(), &[("a", "x")], "n");
    let text = format!(
        "{{\"format\":1,\"nonce\":\"n\",\"message\":\"n\",\"edits\":{{\"a\":{{\"parents\":[],\"value\":{{\"blob\":\"{}\",\"size\":1,\"executable\":false}}}}}}}}",
        object_id("blob", b"x")
    );
    assert_eq!(transaction.id().unwrap(), object_id("transaction", text.as_bytes()));
}

#[test]
fn extended_entries_need_the_second_format() {
    let mut snapshot = Snapshot::default();
    let mut link = file("target");
    link.kind = EntryKind::Symlink;
    snapshot.files.insert("link".into(), link);
    let mut transaction = View::default().record(&snapshot, "Link".into(), "n".into()).unwrap();
    assert_eq!(transaction.format, 2);
    transaction.format = 1;
    assert_eq!(transaction.validate().unwrap_err().problem, Problem::UnsupportedTransaction);
    transaction.format = 3;
    assert_eq!(transaction.validate().unwrap_err().problem, Problem::UnsupportedTransaction);
    let mut plain = record(&Graph::default(), &[("a", "x")], "n");
    plain.provenance = Some(file("origin"));
    assert_eq!(plain.validate().unwrap_err().problem, Problem::UnsupportedTransaction);
    plain.format = 2;
    assert!(plain.validate().is_ok());
}

#[test]
fn transactions_are_checked() {
    let good = record(&Graph::default(), &[("a", "x")], "n");
    let mut unnamed = good.clone();
    unnamed.nonce = "no spaces".into();
    assert_eq!(unnamed.validate().unwrap_err().problem, Problem::InvalidName);
    let mut silent = good.clone();
    silent.message = " ".into();
    assert_eq!(silent.validate().unwrap_err().problem, Problem::UndescribedCommit);
    let mut large = good.clone();
    let mut entry = file("x");
    entry.size = 16 * 1024 * 1024 + 1;
    large.edits.insert("a".into(), Edit { parents: TextSet::new(), value: Some(entry) });
    assert_eq!(large.validate().unwrap_err().message(), "file too large: a");
    let mut strange = good.clone();
    strange.edits.insert("a".into(), Edit { parents: set(&["x"]), value: None });
    assert_eq!(strange.validate().unwrap_err().problem, Problem::InvalidObjectId);
    let next = record(&graph_of(&[&good]), &[("a", "y")], "next");
    assert_eq!(next.validate_parents(&TextMap::new()).unwrap_err().problem, Problem::MissingDependency);
    let mut wrong: TextMap<Transaction> = TextMap::new();
    wrong.insert(good.id().unwrap(), silent);
    assert_eq!(next.validate_parents(&wrong).unwrap_err().problem, Problem::DependencyMismatch);
    let mut right: TextMap<Transaction> = TextMap::new();
    right.insert(good.id().unwrap(), good);
    assert!(next.validate_parents(&right).is_ok());
}

#[test]
fn graphs_are_ordered_by_dependency_and_then_by_identity() {
    let first = record(&Graph::default(), &[("a", "1")], "first");
    let other = record(&Graph::default(), &[("b", "1")], "other");
    let base = graph_of(&[&first, &other]);
    let second = record(&base, &[("a", "2"), ("b", "1")], "second");
    let graph = graph_of(&[&second, &other, &first]);
    let order = graph.ordered().unwrap();
    assert_eq!(order.len(), 3);
    let at = |t: &Transaction| order.iter().position(|id| *id == t.id().unwrap()).unwrap();
    assert!(at(&first) < at(&second));
    let mut roots = vec![second.id().unwrap(), other.id().unwrap()];
    roots.sort();
    assert_eq!(graph.roots().to_vec(), roots);
    let partial = graph_of(&[&second]);
    assert_eq!(partial.ordered().unwrap_err().problem, Problem::UnorderedGraph);
    assert_eq!(partial.ordered_after(&set(&[&first.id().unwrap()])).unwrap(), vec![second.id().unwrap()]);
}

#[test]
fn duplicate_delivery_changes_nothing() {
    let first = record(&Graph::default(), &[("a", "1")], "first");
    let mut view = View::default();
    view.apply(&first.id().unwrap(), &first);
    let once = view.clone();
    view.apply(&first.id().unwrap(), &first);
    assert_eq!(view, once);
}

#[test]
fn a_graph_of_foreign_identities_is_refused() {
    let first = record(&Graph::default(), &[("a", "1")], "first");
    let mut graph = Graph::default();
    graph.transactions.insert(object_id("transaction", b"other"), first);
    assert_eq!(graph.validate().unwrap_err().problem, Problem::TransactionMismatch);
}

#[test]
fn saved_views_keep_their_identity() {
    let view = SavedView {
        format: 1,
        snapshot: object_id("snapshot", b"{\"files\":{}}"),
        roots: set(&["b", "a"]),
        paths: Vec::new(),
    };
    let text = format!("{{\"format\":1,\"snapshot\":\"{}\",\"roots\":[\"a\",\"b\"]}}", view.snapshot);
    assert_eq!(view.id().unwrap(), object_id("saved-view", text.as_bytes()));
    let partial = SavedView {
        format: 2,
        snapshot: view.snapshot.clone(),
        roots: set(&[]),
        paths: vec!["services/api".into()],
    };
    let text = format!("{{\"format\":2,\"snapshot\":\"{}\",\"roots\":[],\"paths\":[\"services/api\"]}}", view.snapshot);
    assert_eq!(partial.id().unwrap(), object_id("saved-view", text.as_bytes()));
}

#[test]
fn objects_belong_to_one_of_the_nodes() {
    let mut seen = [false; 3];
    for i in 0..64 {
        let id = object_id("blob", format!("{i}").as_bytes());
        let node = partition("demo", "blob", &id, 3);
        assert_eq!(node, partition("demo", "blob", &id, 3));
        let key = object_id("placement", format!("demo\0blob\0{id}").as_bytes());
        assert_eq!(node as u64, u64::from_str_radix(&key[..16], 16).unwrap() % 3);
        seen[node] = true;
        assert_eq!(partition("demo", "blob", &id, 1), 0);
    }
    assert_eq!(seen, [true; 3]);
}
