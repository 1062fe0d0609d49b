use kelp::collections::{TextMap, TextSet};
use kelp::replication::{
    check_copy, check_failures, check_replicas, is_concerned, is_durable, pin_page, scope_page, write_order, Answer,
    Search, Sought, Spread, StoredObject,
};
use kelp::server::{begin_page, lookup_order, merge_infos, refusal, Refusal};
use kelp::transactions::{partition, Graph, JournalPage, SyncRequest, Transaction};
use kelp::transfer::{Info, Key};
use kelp::{object_id, FileEntry, Problem, Snapshot};

fn owned(list: &[&str]) -> Vec<String> {
    list.iter().map(|text| (*text).to_owned()).collect()
}

#[test]
fn a_cluster_keeps_at_least_one_copy_and_at_most_one_per_node() {
    assert!(check_replicas(3, 1).is_ok());
    assert!(check_replicas(3, 3).is_ok());
    assert_eq!(check_replicas(3, 4).unwrap_err().problem, Problem::InvalidReplicas);
    assert_eq!(
        check_replicas(3, 0).unwrap_err().message(),
        "the number of copies must be between one and the number of storage nodes"
    );
}

#[test]
fn copies_go_to_the_owner_and_the_nodes_that_follow() {
    for text in ["a", "b", "c", "d", "e"] {
        let id = object_id("blob", text.as_bytes());
        let owner = partition("demo", "blob", &id, 4);
        let order = write_order("demo", "blob", &id, 4);
        assert_eq!(order, [owner, (owner + 1) % 4, (owner + 2) % 4, (owner + 3) % 4]);
    }
}

fn write(order: Vec<usize>, replicas: usize, down: &[usize]) -> (Vec<usize>, bool) {
    let mut spread = Spread::new(order, replicas);
    let mut asked = Vec::new();
    while let Some(node) = spread.next() {
        asked.push(node);
        spread.answer(!down.contains(&node));
    }
    (asked, spread.finish().is_ok())
}

#[test]
fn writes_pass_over_nodes_that_failed() {
    assert_eq!(write(vec![1, 2, 0], 2, &[]), (vec![1, 2], true));
    assert_eq!(write(vec![1, 2, 0], 2, &[1]), (vec![1, 2, 0], true));
    assert_eq!(write(vec![1, 2, 0], 2, &[1, 2]), (vec![1, 2, 0], false));
    assert_eq!(write(vec![0], 1, &[]), (vec![0], true));
    let spread = Spread::new(vec![0, 1], 2);
    assert_eq!(spread.finish().unwrap_err().message(), "too few storage nodes can keep a copy");
}

fn search(answers: &[Answer]) -> (Vec<usize>, Sought) {
    let mut search = Search::new((0..answers.len()).collect());
    let mut asked = Vec::new();
    while let Some(node) = search.next() {
        asked.push(node);
        search.answer(answers[node]);
    }
    search.answer(Answer::Failed);
    (asked, search.finish())
}

#[test]
fn misses_are_said_by_all_nodes() {
    use_answers(&[Answer::Found, Answer::Failed], &[0], Sought::Found(0));
    use_answers(&[Answer::Missing, Answer::Found, Answer::Found], &[0, 1], Sought::Found(1));
    use_answers(&[Answer::Failed, Answer::Missing, Answer::Found], &[0, 1, 2], Sought::Found(2));
    use_answers(&[Answer::Missing, Answer::Missing], &[0, 1], Sought::Missing);
    use_answers(&[Answer::Failed, Answer::Missing], &[0, 1], Sought::Unavailable);
    use_answers(&[Answer::Missing, Answer::Failed], &[0, 1], Sought::Unavailable);
    use_answers(&[], &[], Sought::Missing);
    let id = object_id("blob", b"a");
    let search = Search::new(lookup_order("demo", "blob", &id, 3));
    assert_eq!(search.next(), Some(partition("demo", "blob", &id, 3)));
}

fn use_answers(answers: &[Answer], asked: &[usize], result: Sought) {
    assert_eq!(search(answers), (asked.to_vec(), result));
}

#[test]
fn fewer_failures_than_copies_are_tolerated() {
    assert!(check_failures(0, 1).is_ok());
    assert!(check_failures(1, 2).is_ok());
    let error = check_failures(1, 1).unwrap_err();
    assert_eq!(error.problem, Problem::TooManyFailures);
    assert_eq!(refusal(error.problem), Refusal::Unavailable);
    assert_eq!(refusal(error.problem).status(), 503);
    // The place in the journal of a node that did not answer stays.
    let mut page = begin_page(vec![3, 4], 2).unwrap();
    page.take_page(1, JournalPage { transactions: owned(&["x"]), cursor: 9, more: false });
    assert_eq!(page.cursors, [3, 9]);
}

#[test]
fn objects_are_durable_with_all_their_copies() {
    let info = |text: &str, size: Option<u64>| Info {
        object: Key { kind: "blob".into(), id: object_id("blob", text.as_bytes()) },
        size,
        copies: 0,
    };
    let keys = vec![info("a", None).object, info("b", None).object];
    let found = [info("a", Some(1)), info("b", None), info("a", Some(1)), info("b", Some(2))];
    let merged = merge_infos(keys, &found);
    assert_eq!((merged[0].copies, merged[1].copies), (2, 1));
    assert!(is_durable(&merged[0], 2));
    assert!(!is_durable(&merged[1], 2));
    assert!(is_durable(&merged[1], 1));
    assert!(!is_durable(&info("c", None), 0));
}

#[test]
fn problems_are_answered_by_what_they_are() {
    assert_eq!(refusal(Problem::NoSuchProject), Refusal::Missing);
    assert_eq!(refusal(Problem::RequestReused), Refusal::Conflict);
    assert_eq!(refusal(Problem::Draining), Refusal::Unavailable);
    assert_eq!(refusal(Problem::InvalidName), Refusal::Invalid);
}

fn edit(path: &str) -> Transaction {
    let mut snapshot = Snapshot::default();
    snapshot.files.insert(
        path.to_owned(),
        FileEntry { blob: object_id("blob", path.as_bytes()), size: path.len() as u64, ..Default::default() },
    );
    Graph::default().record(&snapshot, "Edit".into(), path.replace('/', "-")).unwrap()
}

#[test]
fn partial_clients_are_told_what_touches_their_selection() {
    assert!(SyncRequest::default().paths.is_empty());
    let api = edit("api/file");
    let docs = edit("docs/file");
    let above = edit("api");
    assert!(is_concerned(&api, &owned(&["api"])));
    assert!(!is_concerned(&docs, &owned(&["api"])));
    assert!(is_concerned(&above, &owned(&["api/file"])));
    assert!(is_concerned(&docs, &[]));
    let mut entries = TextMap::new();
    entries.insert("1".to_owned(), docs);
    entries.insert("2".to_owned(), api);
    let page = JournalPage { transactions: owned(&["1", "2", "3"]), cursor: 7, more: true };
    let scoped = scope_page(page, &entries, &owned(&["api"]));
    assert_eq!(scoped.transactions, ["2", "3"]);
    assert_eq!((scoped.cursor, scoped.more), (7, true));
}

#[test]
fn releases_are_listed_page_by_page() {
    let mut ids = TextSet::new();
    let mut all = Vec::new();
    for i in 0..300 {
        let id = object_id("pin", format!("{i}").as_bytes());
        ids.insert(id.clone());
        all.push(id);
    }
    all.sort();
    let mut seen = Vec::new();
    let mut after = String::new();
    loop {
        let page = pin_page(&ids, &after);
        match page.last() {
            Some(last) => after = last.clone(),
            None => break,
        }
        assert!(page.len() <= 128);
        seen.extend(page);
    }
    assert_eq!(seen, all);
}

#[test]
fn moved_objects_keep_their_identities() {
    let object = StoredObject { project: "demo".into(), key: Key { kind: "blob".into(), id: "abc".into() } };
    assert_eq!(object.cursor(), "demo/blob/abc");
    assert!(check_copy("blob", "a", "").is_ok());
    assert!(check_copy("transaction", "a", "a").is_ok());
    assert!(check_copy("pin", "a", "a").is_ok());
    let problem = |kind: &str| check_copy(kind, "a", "b").unwrap_err().message();
    assert_eq!(problem("transaction"), "transaction changed during evacuation");
    assert_eq!(problem("pin"), "release view hash mismatch");
    assert_eq!(problem("revision"), "unsupported stored object kind");
}
