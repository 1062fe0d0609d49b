use kelp::collections::TextMap;
use kelp::server::{
    arrange_nodes, begin_page, check_cursor, check_download, check_file_upload, check_node_url, check_sizes,
    check_token, check_transaction_length, check_upload_batch, is_authorized, journal_page, layout_id, lookup_order,
    merge_infos, nodes_to_repair, owned_by, parent_keys, plan_relocation, project_info, storage_nodes, unauthorized,
    validate_object, Refusal,
};
use kelp::transactions::{partition, Graph, JournalPage, Transaction};
use kelp::transfer::{Info, Key, Object};
use kelp::{object_id, FileEntry, Problem, Snapshot};

fn owned(list: &[&str]) -> Vec<String> {
    list.iter().map(|text| (*text).to_owned()).collect()
}

#[test]
fn refusals_have_a_status_and_keep_internals_to_themselves() {
    let cases = [
        (Refusal::Invalid, 400, "INVALID_REQUEST", "why"),
        (Refusal::Missing, 404, "NOT_FOUND", "why"),
        (Refusal::Conflict, 409, "CONFLICT", "why"),
        (Refusal::Unavailable, 503, "UNAVAILABLE", "internal storage error"),
        (Refusal::Internal, 500, "INTERNAL_ERROR", "internal storage error"),
    ];
    for (refusal, status, code, message) in cases {
        assert_eq!(refusal.status(), status);
        let answer = refusal.answer("why".into());
        assert_eq!((answer.code.as_str(), answer.message.as_str()), (code, message));
    }
    assert_eq!(unauthorized().code, "UNAUTHORIZED");
    assert_eq!(unauthorized().message, "a valid bearer token is required");
}

#[test]
fn exactly_the_token_lets_in() {
    assert!(is_authorized(Some("Bearer token"), "token"));
    for header in [None, Some("token"), Some("bearer token"), Some("Bearer token "), Some("Bearer  token")] {
        assert!(!is_authorized(header, "token"));
    }
    assert!(check_token("token").is_ok());
    assert_eq!(check_token(" ").unwrap_err().problem, Problem::EmptyAccessToken);
}

#[test]
fn requests_for_objects_are_checked() {
    let id = object_id("blob", b"abc");
    assert!(validate_object("demo", "blob", &id).is_ok());
    assert_eq!(validate_object("a b", "blob", &id).unwrap_err().problem, Problem::InvalidName);
    assert_eq!(validate_object("demo", "blob", "x").unwrap_err().problem, Problem::InvalidObjectId);
    assert_eq!(validate_object("demo", "pin", &id).unwrap_err().problem, Problem::UnsupportedObjectKind);
    assert!(check_file_upload("demo", "blob", &id, b"abc").is_ok());
    assert_eq!(check_file_upload("demo", "blob", &id, b"abd").unwrap_err().problem, Problem::UnverifiedUpload);
    assert_eq!(
        check_file_upload("demo", "transaction", &id, b"abc").unwrap_err().problem,
        Problem::UnverifiedUpload
    );
    let large = vec![0; 16 * 1024 * 1024 + 1];
    assert_eq!(
        check_file_upload("demo", "blob", &object_id("blob", &large), &large).unwrap_err().problem,
        Problem::FileObjectTooLarge
    );
    assert_eq!(check_transaction_length(2 * 1024 * 1024 + 1).unwrap_err().message(), "transaction exceeds 2 MiB");
    assert!(check_transaction_length(2 * 1024 * 1024).is_ok());
}

fn info(text: &str, size: Option<u64>) -> Info {
    Info {
        object: Key { kind: "blob".into(), id: object_id("blob", text.as_bytes()) },
        size,
        copies: usize::from(size.is_some()),
    }
}

#[test]
fn downloads_fit_in_a_batch() {
    assert!(check_download(&[info("a", Some(1)), info("b", Some(2))]).is_ok());
    let missing = check_download(&[info("a", Some(u64::MAX)), info("b", None)]).unwrap_err();
    assert_eq!(missing.message(), format!("missing {}", object_id("blob", b"b")));
    let limit = 32 * 1024 * 1024;
    assert!(check_download(&[info("a", Some(limit - 4 - 69))]).is_ok());
    assert_eq!(
        check_download(&[info("a", Some(limit - 4 - 68))]).unwrap_err().problem,
        Problem::RequestTooLarge
    );
    assert_eq!(
        check_download(&[info("a", Some(u64::MAX)), info("b", Some(u64::MAX))]).unwrap_err().problem,
        Problem::RequestTooLarge
    );
}

fn object(kind: &str, text: &str) -> Object {
    Object { key: Key { kind: kind.into(), id: object_id(kind, text.as_bytes()) }, bytes: text.into() }
}

#[test]
fn uploads_hold_file_content_only() {
    assert!(check_upload_batch(&[object("blob", "a")]).is_ok());
    assert_eq!(
        check_upload_batch(&[object("blob", "a"), object("transaction", "{}")]).unwrap_err().problem,
        Problem::NotFileObjects
    );
}

fn record(graph: &Graph, files: &[(&str, &str)], nonce: &str) -> Transaction {
    let mut snapshot = Snapshot::default();
    for (path, value) in files {
        snapshot.files.insert(
            (*path).to_owned(),
            FileEntry { blob: object_id("blob", value.as_bytes()), size: value.len() as u64, ..Default::default() },
        );
    }
    graph.record(&snapshot, nonce.into(), nonce.into()).unwrap()
}

#[test]
fn pushed_transactions_need_their_content_and_parents() {
    let first = record(&Graph::default(), &[("a", "one")], "first");
    let mut graph = Graph::default();
    graph.transactions.insert(first.id().unwrap(), first.clone());
    let second = record(&graph, &[("a", "two"), ("b", "three")], "second");
    let keys = parent_keys(&second);
    assert_eq!(keys, [Key { kind: "transaction".into(), id: first.id().unwrap() }]);
    let mut sizes: TextMap<Option<u64>> = TextMap::new();
    sizes.insert(object_id("blob", b"two"), Some(3));
    assert_eq!(check_sizes(&second, &sizes).unwrap_err().message(), "file size mismatch for b");
    sizes.insert(object_id("blob", b"three"), Some(4));
    assert!(check_sizes(&second, &sizes).is_err());
    sizes.insert(object_id("blob", b"three"), Some(5));
    assert!(check_sizes(&second, &sizes).is_ok());
    let mut imported = second.clone();
    imported.provenance = Some(FileEntry { blob: object_id("blob", b"origin"), size: 6, ..Default::default() });
    assert_eq!(check_sizes(&imported, &sizes).unwrap_err().message(), "file size mismatch for provenance");
    sizes.insert(object_id("blob", b"origin"), Some(6));
    assert!(check_sizes(&imported, &sizes).is_ok());
    sizes.insert(object_id("blob", b"two"), None);
    assert_eq!(check_sizes(&second, &sizes).unwrap_err().message(), "file size mismatch for a");
}

#[test]
fn clusters_have_one_order() {
    let nodes = storage_nodes(owned(&["http://b/", "http://a:80//"]), "token").unwrap();
    assert_eq!(nodes, ["http://a", "http://b"]);
    let problem = |list: &[&str], token: &str| storage_nodes(owned(list), token).unwrap_err().problem;
    assert_eq!(problem(&[], "token"), Problem::StorageNodesRequired);
    assert_eq!(problem(&["http://a"], ""), Problem::StorageNodesRequired);
    assert_eq!(problem(&["http://a", "ftp://b"], "token"), Problem::InvalidStorageUrl);
    assert_eq!(problem(&["nothing"], "token"), Problem::InvalidStorageUrl);
    assert_eq!(problem(&["http://a/", "http://a"], "token"), Problem::RepeatedStorageNode);
    assert_eq!(arrange_nodes(owned(&["b", "a"])).unwrap(), ["a", "b"]);
    assert_eq!(check_node_url(None).unwrap_err().problem, Problem::InvalidStorageUrl);
    assert_eq!(layout_id(&nodes), object_id("layout", b"http://a\0http://b"));
    let project = project_info("demo".into(), "local".into(), 1, 1);
    assert_eq!((project.protocol.as_str(), project.storage_nodes), ("kelp/1", 1));
}

#[test]
fn the_owner_is_asked_first_and_then_every_other_node() {
    for text in ["a", "b", "c", "d", "e"] {
        let id = object_id("blob", text.as_bytes());
        let owner = partition("demo", "blob", &id, 4);
        let order = lookup_order("demo", "blob", &id, 4);
        assert_eq!(order[0], owner);
        let rest: Vec<usize> = (0..4).filter(|node| *node != owner).collect();
        assert_eq!(order[1..], rest);
    }
}

#[test]
fn a_project_exists_where_any_node_has_it() {
    assert_eq!(nodes_to_repair("demo", &[false, true, false]).unwrap(), [0, 2]);
    assert!(nodes_to_repair("demo", &[true]).unwrap().is_empty());
    assert_eq!(nodes_to_repair("demo", &[false]).unwrap_err().message(), "project demo does not exist");
}

#[test]
fn inventories_of_nodes_are_put_together() {
    let keys = vec![info("a", None).object, info("b", None).object];
    let found = [info("b", None), info("b", Some(2)), info("a", None), info("b", None)];
    let merged = merge_infos(keys, &found);
    assert_eq!((merged[0].size, merged[1].size), (None, Some(2)));
    assert_eq!(merged[1].object.id, object_id("blob", b"b"));
}

#[test]
fn objects_go_to_their_owners() {
    let objects: Vec<Object> = (0..20).map(|i| object("blob", &format!("{i}"))).collect();
    let mut total = 0;
    for node in 0..3 {
        let part = owned_by("demo", &objects, 3, node);
        for one in &part {
            assert_eq!(partition("demo", "blob", &one.key.id, 3), node);
        }
        total += part.len();
    }
    assert_eq!(total, 20);
}

#[test]
fn journals_are_read_in_pages() {
    let rows: Vec<(i64, String)> = (1..=257).map(|i| (i, format!("t{i}"))).collect();
    let page = journal_page(rows, 0);
    assert_eq!((page.transactions.len(), page.cursor, page.more), (256, 256, true));
    assert_eq!(page.transactions[255], "t256");
    let page = journal_page(vec![(9, "t9".into())], 8);
    assert_eq!((page.cursor, page.more), (9, false));
    let page = journal_page(vec![], 8);
    assert_eq!((page.transactions.len(), page.cursor, page.more), (0, 8, false));
    assert_eq!(check_cursor(-1).unwrap_err().problem, Problem::NegativeCursor);
    assert!(check_cursor(0).is_ok());
}

#[test]
fn pages_of_all_nodes_are_read_together() {
    let mut page = begin_page(vec![], 2).unwrap();
    assert_eq!(page.cursors, [0, 0]);
    page.take_page(1, JournalPage { transactions: owned(&["b", "a"]), cursor: 5, more: false });
    page.take_page(0, JournalPage { transactions: owned(&["a"]), cursor: 7, more: true });
    assert_eq!(page.cursors, [7, 5]);
    assert_eq!(page.transactions.to_vec(), ["a", "b"]);
    assert!(page.more);
    assert_eq!(begin_page(vec![1, 2], 2).unwrap().cursors, [1, 2]);
    assert_eq!(begin_page(vec![1], 2).unwrap_err().problem, Problem::CursorMismatch);
    assert_eq!(begin_page(vec![1, -1], 2).unwrap_err().problem, Problem::CursorMismatch);
}

#[test]
fn a_retiring_node_is_copied_to_the_others() {
    let plan = plan_relocation(owned(&["http://a/", "http://b"]), Some("http://b/")).unwrap();
    assert_eq!((plan.nodes, plan.sources), (owned(&["http://a"]), owned(&["http://b"])));
    let plan = plan_relocation(owned(&["http://a/", "http://b"]), None).unwrap();
    assert_eq!(plan.nodes, plan.sources);
    assert_eq!(
        plan_relocation(owned(&["http://a"]), Some("http://c")).unwrap_err().problem,
        Problem::RetiringNode
    );
}
