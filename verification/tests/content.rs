use std::collections::BTreeMap;

use kelp::content::{self, Closure, Reading};
use kelp::json::Json;
use kelp::{object_id, EntryKind, Error, FileEntry, Problem};

/// Blobs by their identity, and the manifests among them as they are parsed.
#[derive(Default)]
struct Blobs {
    bytes: BTreeMap<String, Vec<u8>>,
    manifests: BTreeMap<String, Vec<FileEntry>>,
}

fn parse(text: &str) -> Vec<FileEntry> {
    let value: serde_json::Value = serde_json::from_str(text).unwrap();
    value
        .as_array()
        .unwrap()
        .iter()
        .map(|entry| FileEntry {
            blob: entry["blob"].as_str().unwrap().to_owned(),
            size: entry["size"].as_u64().unwrap(),
            executable: entry["executable"].as_bool().unwrap(),
            kind: match entry["kind"].as_str() {
                None => EntryKind::Regular,
                Some("chunked") => EntryKind::Chunked,
                Some(other) => panic!("unexpected kind {other}"),
            },
        })
        .collect()
}

impl Blobs {
    fn put(&mut self, bytes: &[u8]) -> String {
        let id = object_id("blob", bytes);
        self.bytes.insert(id.clone(), bytes.to_vec());
        id
    }

    fn store(&mut self, mut input: &[u8], size: u64, executable: bool) -> Result<FileEntry, Error> {
        let mut remaining = size;
        let mut parts = Vec::new();
        loop {
            let length = content::next_chunk(size, remaining);
            let (chunk, rest) = input.split_at(length);
            input = rest;
            let blob = self.put(chunk);
            parts.push(content::chunk_entry(blob, length));
            remaining -= length as u64;
            if remaining == 0 {
                break;
            }
        }
        content::check_end(input.len())?;
        let tree = content::build_tree(parts, executable);
        for manifest in &tree.manifests {
            let id = self.put(manifest.as_bytes());
            self.manifests.insert(id, parse(manifest));
        }
        Ok(tree.root)
    }

    fn children(&self, entry: &FileEntry) -> Result<Vec<FileEntry>, Error> {
        let length = self.bytes.get(&entry.blob).map(Vec::len).unwrap_or_default();
        content::check_manifest(entry, length)?;
        let parsed = self.manifests.get(&entry.blob).map(|list| list.to_vec()).unwrap_or_default();
        content::children(entry, length, parsed)
    }

    fn read(&self, entry: &FileEntry) -> Result<Vec<u8>, Error> {
        let mut output = Vec::new();
        let mut reading = Reading::new(entry);
        while let Some(part) = reading.next()? {
            if part.kind == EntryKind::Chunked {
                reading.expand(self.children(&part)?);
            } else {
                let bytes = self
                    .bytes
                    .get(&part.blob)
                    .ok_or_else(|| kelp::storage::missing("blob", &part.blob))?;
                content::verify_content(bytes.len() as u64, part.size)?;
                output.extend_from_slice(bytes);
            }
        }
        Ok(output)
    }

    fn objects(&self, entry: &FileEntry) -> Result<Vec<String>, Error> {
        let mut closure = Closure::new(entry);
        while !closure.is_done() {
            if let Some(manifest) = closure.next() {
                closure.expand(self.children(&manifest)?);
            }
        }
        Ok(closure.finish())
    }
}

#[test]
fn chunk_trees_preserve_small_hashes_reuse_unchanged_chunks_and_validate_closure() {
    let mut db = Blobs::default();
    let small = db.store(b"small", 5, true).unwrap();
    assert_eq!(small.blob, object_id("blob", b"small"));
    assert_eq!(small.to_json(), format!(r#"{{"blob":"{}","size":5,"executable":true}}"#, small.blob));
    let mut bytes = vec![1; 17 * 1024 * 1024];
    let first = db.store(&bytes, bytes.len() as u64, false).unwrap();
    bytes[0] = 2;
    let second = db.store(&bytes, bytes.len() as u64, false).unwrap();
    let a = db.objects(&first).unwrap();
    let b = db.objects(&second).unwrap();
    assert_eq!(b.iter().filter(|id| !a.contains(id)).count(), 2, "only one chunk and the root change");
    assert_eq!(db.read(&second).unwrap(), bytes);
    let mut invalid = second.clone();
    invalid.size += 1;
    assert!(db.read(&invalid).is_err());
    let leaf = FileEntry { blob: object_id("blob", b"missing"), size: 7, ..Default::default() };
    let text = format!("[{},{}]", leaf.to_json(), leaf.to_json());
    let blob = db.put(text.as_bytes());
    db.manifests.insert(blob.clone(), parse(&text));
    let incomplete = FileEntry { blob, size: 14, kind: EntryKind::Chunked, executable: false };
    assert!(db.read(&incomplete).is_err());
}

fn leaf(size: u64) -> FileEntry {
    FileEntry { blob: object_id("blob", b"leaf"), size, ..Default::default() }
}

#[test]
fn manifests_are_checked() {
    let chunked = |size: u64| FileEntry { kind: EntryKind::Chunked, ..leaf(size) };
    let problem = |entry: &FileEntry, list: Vec<FileEntry>| content::children(entry, 10, list).unwrap_err().problem;
    assert_eq!(problem(&leaf(4), vec![]), Problem::NotAManifest);
    assert_eq!(content::check_manifest(&chunked(4), 16_777_217).unwrap_err().problem, Problem::OversizedManifest);
    assert_eq!(problem(&chunked(4), vec![leaf(4)]), Problem::InvalidFanout);
    assert_eq!(problem(&chunked(2), (0..1025).map(|_| leaf(1)).collect()), Problem::InvalidFanout);
    assert_eq!(problem(&chunked(4), vec![leaf(4), leaf(0)]), Problem::InvalidChild);
    assert_eq!(problem(&chunked(5), vec![leaf(2), leaf(2)]), Problem::ManifestSizeMismatch);
    let huge = chunked(u64::MAX - 1);
    assert_eq!(problem(&chunked(u64::MAX), vec![huge.clone(), huge]), Problem::ChunkSizeOverflow);
    assert_eq!(content::children(&chunked(4), 10, vec![leaf(2), leaf(2)]).unwrap().len(), 2);
    assert_eq!(content::verify_content(3, 4).unwrap_err().problem, Problem::ContentSizeMismatch);
    assert!(content::check_part(&chunked(4), Some(9)).unwrap());
    assert!(!content::check_part(&leaf(4), Some(4)).unwrap());
    assert_eq!(content::check_part(&leaf(4), Some(5)).unwrap_err().problem, Problem::MissingContent);
    assert_eq!(
        content::check_part(&chunked(4), None).unwrap_err().message(),
        format!("missing content {}", leaf(4).blob)
    );
    assert_eq!(content::check_end(1).unwrap_err().problem, Problem::FileChanged);
}

#[test]
fn stored_files_are_read_back() {
    let mut db = Blobs::default();
    let limit = 16 * 1024 * 1024;
    for (length, executable) in [(0, false), (1, true), (limit, false), (limit + 1, true)] {
        let bytes: Vec<u8> = (0..length).map(|i| (i / 1000) as u8).collect();
        let entry = db.store(&bytes, length as u64, executable).unwrap();
        assert_eq!((entry.size, entry.executable), (length as u64, executable));
        if length <= limit {
            assert_eq!((entry.kind, entry.blob.clone()), (EntryKind::Regular, object_id("blob", &bytes)));
        } else {
            assert_eq!(entry.kind, EntryKind::Chunked);
        }
        assert_eq!(db.read(&entry).unwrap(), bytes);
    }
}

#[test]
fn chunks_have_one_length() {
    assert_eq!(content::next_chunk(10, 10), 10);
    assert_eq!(content::next_chunk(16 * 1024 * 1024, 16 * 1024 * 1024), 16 * 1024 * 1024);
    assert_eq!(content::next_chunk(17 * 1024 * 1024, 17 * 1024 * 1024), 4 * 1024 * 1024);
    assert_eq!(content::next_chunk(17 * 1024 * 1024, 1024 * 1024), 1024 * 1024);
}
