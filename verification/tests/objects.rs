use std::collections::BTreeMap;

use kelp::catalog::{self, Found};
use kelp::collections::TextMap;
use kelp::objects::MAX_MESSAGE_BYTES;
use kelp::storage::{self, Encoded, Location};
use kelp::{
    object_id, validate_hash, validate_name, EntryKind, FileEntry, Problem, Revision, Snapshot, MAX_BLOB_BYTES,
};

fn file(bytes: &[u8]) -> FileEntry {
    FileEntry {
        blob: object_id("blob", bytes),
        size: bytes.len() as u64,
        executable: false,
        kind: Default::default(),
    }
}

fn snapshot(files: &[(&str, FileEntry)]) -> Snapshot {
    let mut result = Snapshot::default();
    for (path, entry) in files {
        result.files.insert((*path).to_owned(), entry.clone());
    }
    result
}

#[test]
fn snapshots_are_reproducible_and_corrupt_content_is_rejected() {
    let bytes = b"hello\0binary\xff";
    let blob = object_id("blob", bytes);
    let entry = FileEntry {
        blob: blob.clone(),
        size: bytes.len() as u64,
        executable: false,
        kind: Default::default(),
    };
    let mut first = Snapshot::default();
    first.files.insert("z.txt".into(), entry.clone());
    first.files.insert("a.txt".into(), entry.clone());
    let second = snapshot(&[("a.txt", entry.clone()), ("z.txt", entry.clone())]);
    assert_eq!(first.id().unwrap(), second.id().unwrap());
    assert_ne!(blob, object_id("snapshot", bytes));
    let mut db: BTreeMap<(&str, &str, String), Encoded> = BTreeMap::new();
    db.insert(("demo", "blob", blob.clone()), storage::encode_loose(bytes).unwrap());
    let get = |db: &BTreeMap<(&str, &str, String), Encoded>, project: &'static str| {
        let location =
            Location { size: bytes.len() as i64, loose: Some(1), pack: None, offset: None, encoding: 0, stored_size: None };
        let found = db.get(&(project, "blob", blob.clone()));
        catalog::get("blob", &blob, found.map(|form| Found::Loose { location, form }))
    };
    assert_eq!(get(&db, "demo").unwrap(), bytes);
    assert!(get(&db, "another-project").is_err());
    assert!(storage::verify_size("a.txt", bytes.len() as u64, entry.size).is_ok());
    db.insert(("demo", "blob", blob.clone()), Encoded { codec: 0, bytes: b"corrupt".to_vec() });
    assert!(get(&db, "demo").is_err());
    assert!(storage::verify_object("blob", &blob, b"corrupt", 7).is_err());
}

#[test]
fn a_snapshot_cannot_escape_a_checkout_or_replace_its_metadata() {
    let data = file(b"data");
    for path in [
        "../outside",
        "/absolute",
        "a/../../escape",
        ".kelp/workspace.sqlite3",
        ".git/config",
        "a/\0ff00",
        "a/\0ff2f",
    ] {
        assert!(snapshot(&[(path, data.clone())]).validate().is_err(), "accepted {path}");
    }
    assert!(snapshot(&[("file", data.clone()), ("file/child", data)]).validate().is_err());
}

#[test]
fn object_ids_are_sha256_over_a_typed_envelope() {
    // The digest of the bytes "kelp/0\0blob\05\0hello".
    let id = object_id("blob", b"hello");
    assert_eq!(id.len(), 64);
    assert!(validate_hash(&id).is_ok());
    let mut hasher = <sha2::Sha256 as sha2::Digest>::new();
    sha2::Digest::update(&mut hasher, b"kelp/0\0blob\x005\0hello");
    let digest = sha2::Digest::finalize(hasher);
    let expected: String = digest.iter().map(|byte| format!("{byte:02x}")).collect();
    assert_eq!(id, expected);
    assert_ne!(id, object_id("blob", b"hello "));
    assert_ne!(id, object_id("blo", b"bhello"));
}

#[test]
fn names_and_hashes_have_a_form() {
    assert!(validate_name("a-B_9").is_ok());
    assert!(validate_name(&"x".repeat(128)).is_ok());
    for bad in ["", "a b", "a/b", "é", &"x".repeat(129)] {
        assert_eq!(validate_name(bad).unwrap_err().problem, Problem::InvalidName);
    }
    assert!(validate_hash(&"0f".repeat(32)).is_ok());
    for bad in ["", "0f", &"0F".repeat(32), &"0f".repeat(33)] {
        let error = validate_hash(bad).unwrap_err();
        assert_eq!(error.problem, Problem::InvalidObjectId);
        assert_eq!(error.message(), format!("invalid object ID: {bad}"));
    }
}

#[test]
fn entries_have_limits() {
    let mut entry = file(b"data");
    assert!(entry.validate().is_ok());
    entry.size = MAX_BLOB_BYTES as u64 + 1;
    assert_eq!(entry.validate().unwrap_err().problem, Problem::UnchunkedTooLarge);
    entry.kind = EntryKind::Chunked;
    assert!(entry.validate().is_ok());
    let mut link = file(b"target");
    link.kind = EntryKind::Symlink;
    assert!(link.validate().is_ok());
    link.executable = true;
    assert_eq!(link.validate().unwrap_err().problem, Problem::ExecutableSymlink);
    link.blob = "no hash".to_owned();
    assert_eq!(link.validate().unwrap_err().problem, Problem::InvalidObjectId);
}

#[test]
fn snapshots_name_the_first_problem_in_path_order() {
    let data = file(b"data");
    let error = snapshot(&[("b", data.clone()), ("a/..", data.clone())]).validate().unwrap_err();
    assert_eq!(error.message(), "unsupported file path: a/..");
    let error = snapshot(&[("dir", data.clone()), ("dir/sub/file", data)]).validate().unwrap_err();
    assert_eq!(error.message(), "file/directory collision: dir");
}

#[test]
fn snapshots_are_written_in_one_form() {
    let entry = file(b"small");
    let text = snapshot(&[("b\"", entry.clone()), ("a", entry.clone())]).to_json();
    let one = format!("{{\"blob\":\"{}\",\"size\":5,\"executable\":false}}", entry.blob);
    assert_eq!(text, format!("{{\"files\":{{\"a\":{one},\"b\\\"\":{one}}}}}"));
    let value: serde_json::Value = serde_json::from_str(&text).unwrap();
    assert_eq!(serde_json::to_string(&value["files"]["b\""]["size"]).unwrap(), "5");
    assert_eq!(Snapshot::default().to_json(), "{\"files\":{}}");
    assert_eq!(Snapshot::default().id().unwrap(), object_id("snapshot", b"{\"files\":{}}"));
}

#[test]
fn revisions_are_checked() {
    let id = object_id("snapshot", b"{\"files\":{}}");
    let revision = Revision {
        project: "demo".into(),
        change: "change-1".into(),
        predecessor: None,
        base_snapshot: id.clone(),
        result_snapshot: id.clone(),
        message: "First".into(),
    };
    assert!(revision.validate().is_ok());
    let text = format!(
        "{{\"project\":\"demo\",\"change\":\"change-1\",\"predecessor\":null,\"base_snapshot\":\"{id}\",\"result_snapshot\":\"{id}\",\"message\":\"First\"}}"
    );
    assert_eq!(revision.id().unwrap(), object_id("revision", text.as_bytes()));
    let mut blank = revision.clone();
    blank.message = " \u{3000}\n".into();
    assert_eq!(blank.validate().unwrap_err().problem, Problem::MissingMessage);
    let mut long = revision.clone();
    long.message = "é".repeat(MAX_MESSAGE_BYTES / 2 + 1);
    assert_eq!(long.validate().unwrap_err().problem, Problem::MessageTooLong);
    let mut orphan = revision.clone();
    orphan.predecessor = Some("short".into());
    assert_eq!(orphan.validate().unwrap_err().problem, Problem::InvalidObjectId);
    let mut foreign = revision;
    foreign.change = "".into();
    assert_eq!(foreign.validate().unwrap_err().problem, Problem::InvalidName);
}

#[test]
fn maps_keep_their_keys_in_order() {
    let mut map: TextMap<String> = TextMap::new();
    for key in ["b", "", "\u{10000}", "a", "é", "ab", "\u{ffff}"] {
        map.insert(key.to_owned(), key.to_uppercase());
    }
    let mut expected = vec!["b", "", "\u{10000}", "a", "é", "ab", "\u{ffff}"];
    expected.sort();
    let keys: Vec<&str> = (0..map.len()).map(|i| map.key_at(i).as_str()).collect();
    assert_eq!(keys, expected);
    assert_eq!(map.remove("ab"), Some("AB".to_owned()));
    assert_eq!(map.remove("ab"), None);
    assert_eq!(map.get("é"), Some(&"É".to_owned()));
    assert_eq!(map.len(), 6);
}
