use std::collections::BTreeMap;

use kelp::catalog::{self, Found};
use kelp::codec::is_compressible;
use kelp::collections::TextSet;
use kelp::json::Json;
use kelp::packing::{compaction_action, form_pack, pack_group, Action, Compaction, Grouping, Member};
use kelp::storage::{self, Cache, Encoded, Location, PackCache, Place};
use kelp::transactions::{Edit, Graph, Transaction};
use kelp::{object_id, FileEntry, Problem};

type Key = (String, String, String);

enum Row {
    Loose(Encoded, i64),
    Packed(usize, Location),
}

/// Objects in memory, kept as a database keeps them.
#[derive(Default)]
struct Store {
    rows: BTreeMap<Key, Row>,
    packs: Vec<(Vec<u8>, i64, Vec<u8>)>,
}

impl Store {
    fn put(&mut self, namespace: &str, kind: &str, bytes: &[u8]) -> String {
        let id = object_id(kind, bytes);
        let key = (namespace.to_owned(), kind.to_owned(), id.clone());
        if !self.rows.contains_key(&key) {
            let row = Row::Loose(storage::encode_loose(bytes).unwrap(), bytes.len() as i64);
            self.rows.insert(key, row);
        }
        id
    }

    fn get(&self, namespace: &str, kind: &str, id: &str) -> Result<Vec<u8>, kelp::Error> {
        let key = (namespace.to_owned(), kind.to_owned(), id.to_owned());
        match self.rows.get(&key) {
            None => catalog::get(kind, id, None),
            Some(Row::Loose(form, size)) => {
                catalog::get(kind, id, Some(Found::Loose { location: loose(*size), form }))
            }
            Some(Row::Packed(pack, location)) => {
                let (packed, size, hash) = &self.packs[*pack];
                let payload = storage::open_pack(packed, *size, hash)?;
                catalog::get(kind, id, Some(Found::Packed { location: *location, content: &payload }))
            }
        }
    }

    fn size(&self, namespace: &str, kind: &str, id: &str) -> Option<u64> {
        match self.rows.get(&(namespace.to_owned(), kind.to_owned(), id.to_owned()))? {
            Row::Loose(_, size) => Some(*size as u64),
            Row::Packed(_, location) => Some(location.size as u64),
        }
    }

    fn count(&self, namespace: &str, kind: &str) -> usize {
        self.rows.keys().filter(|key| key.0 == namespace && key.1 == kind).count()
    }

    fn payload(&self) -> u64 {
        let loose: usize = self
            .rows
            .values()
            .map(|row| match row {
                Row::Loose(encoded, _) => encoded.bytes.len(),
                Row::Packed(..) => 0,
            })
            .sum();
        (loose + self.packs.iter().map(|pack| pack.0.len()).sum::<usize>()) as u64
    }

    fn flush(&mut self, batch: kelp::packing::Batch, next: &mut Store) -> Result<(), kelp::Error> {
        if batch.group.len() < 2 {
            return Ok(());
        }
        for pack in pack_group(&batch.group, &batch.bytes)? {
            next.packs.push((pack.packed, pack.payload.len() as i64, pack.hash));
            for place in pack.places {
                let key = (batch.namespace.clone(), batch.kind.clone(), place.id.clone());
                let size = self.size(&batch.namespace, &batch.kind, &place.id).unwrap() as i64;
                let location = Location {
                    size,
                    loose: None,
                    pack: Some(0),
                    offset: Some(place.offset as i64),
                    encoding: place.encoding,
                    stored_size: Some(place.length as i64),
                };
                next.rows.insert(key, Row::Packed(next.packs.len() - 1, location));
            }
        }
        Ok(())
    }

    fn compact(&mut self, keep: &[String]) -> Result<Compaction, kelp::Error> {
        let before = self.payload();
        let mut next = Store::default();
        let mut grouping = Grouping::new();
        let keys: Vec<Key> = self.rows.keys().cloned().collect();
        for (namespace, kind, id) in &keys {
            let bytes = self.get(namespace, kind, id)?;
            let key = (namespace.clone(), kind.clone(), id.clone());
            next.rows.insert(key, Row::Loose(storage::encode_kept(&bytes)?, bytes.len() as i64));
            match compaction_action(bytes.len() as i64, keep.contains(id)) {
                Action::Pack => {
                    if let Some(batch) = grouping.make_room(namespace, kind, bytes.len() as i64)? {
                        self.flush(batch, &mut next)?;
                    }
                    grouping.add(id.clone(), &bytes);
                }
                Action::KeepLoose | Action::Leave => {}
            }
        }
        self.flush(grouping.finish(), &mut next)?;
        let report = Compaction {
            objects: keys.len(),
            packs: next.packs.len(),
            payload_before: before,
            payload_after: next.payload(),
        };
        *self = next;
        Ok(report)
    }

    fn corrupt(&mut self, kind: &str, id: &str, bytes: &[u8]) {
        let key = ("demo".to_owned(), kind.to_owned(), id.to_owned());
        if let Some(Row::Loose(encoded, _)) = self.rows.get_mut(&key) {
            encoded.bytes = bytes.to_vec();
        }
    }
}

fn loose(size: i64) -> Location {
    Location { size, loose: Some(0), pack: None, offset: None, encoding: 0, stored_size: None }
}

/// A transaction that creates files, as it is stored.
fn transaction(bytes: &[u8]) -> Transaction {
    let value: serde_json::Value = serde_json::from_slice(bytes).unwrap();
    let text = |value: &serde_json::Value| value.as_str().unwrap().to_owned();
    let mut transaction = Transaction {
        provenance: None,
        format: value["format"].as_u64().unwrap() as u32,
        nonce: text(&value["nonce"]),
        message: text(&value["message"]),
        edits: Default::default(),
    };
    for (path, edit) in value["edits"].as_object().unwrap() {
        let mut parents = TextSet::new();
        for parent in edit["parents"].as_array().unwrap() {
            parents.insert(text(parent));
        }
        let file = &edit["value"];
        let value = FileEntry {
            blob: text(&file["blob"]),
            size: file["size"].as_u64().unwrap(),
            executable: file["executable"].as_bool().unwrap(),
            kind: Default::default(),
        };
        transaction.edits.insert(path.clone(), Edit { parents, value: Some(value) });
    }
    transaction
}

#[test]
fn packing_preserves_every_object_hash_and_conflict_and_supports_more_writes() {
    let mut db = Store::default();
    let mut objects = Vec::new();
    for index in 0..200 {
        let bytes =
            format!("shared content\n{}variant {index}", "repeated line\n".repeat(1000)).into_bytes();
        let id = db.put("demo", "blob", &bytes);
        objects.push((id, bytes));
    }
    let mut graph = Graph::default();
    for (index, (blob, bytes)) in objects.iter().take(2).enumerate() {
        let mut transaction = Transaction {
            provenance: None,
            format: 1,
            nonce: format!("n{index}"),
            message: "Competing edit".into(),
            edits: Default::default(),
        };
        transaction.edits.insert(
            "file".into(),
            Edit {
                parents: TextSet::new(),
                value: Some(FileEntry {
                    blob: blob.clone(),
                    size: bytes.len() as u64,
                    executable: false,
                    kind: Default::default(),
                }),
            },
        );
        graph.transactions.insert(transaction.id().unwrap(), transaction);
    }
    let original_view = graph.view_id().unwrap();
    for i in 0..graph.transactions.len() {
        let text = graph.transactions.value_at(i).to_json();
        assert_eq!(db.put("demo", "transaction", text.as_bytes()), *graph.transactions.key_at(i));
    }
    let report = db.compact(&[objects.last().unwrap().0.clone()]).unwrap();
    assert_eq!(report.objects, 202);
    assert!(report.packs > 0 && report.payload_after < report.payload_before);
    for (id, bytes) in &objects {
        assert_eq!(db.get("demo", "blob", id).unwrap(), *bytes);
        assert_eq!(db.size("demo", "blob", id), Some(bytes.len() as u64));
    }
    let mut loaded = Graph::default();
    for id in graph.transactions.keys().to_vec() {
        let bytes = db.get("demo", "transaction", &id).unwrap();
        loaded.transactions.insert(id, transaction(&bytes));
    }
    assert_eq!(loaded.view_id().unwrap(), original_view);
    assert_eq!(loaded.view().unwrap().conflicts().to_vec(), ["file"]);
    let new = db.put("demo", "blob", b"new write after compaction");
    db.compact(&[]).unwrap();
    assert_eq!(db.get("demo", "blob", &new).unwrap(), b"new write after compaction");
    assert_eq!(db.count("demo", "blob"), 201);
    assert!(db.get("other", "blob", &new).is_err());
}

#[test]
fn corrupt_input_aborts_compaction_without_replacing_other_objects() {
    let mut db = Store::default();
    let good = db.put("demo", "blob", b"good");
    let bad = db.put("demo", "blob", b"bad");
    db.corrupt("blob", &bad, b"wrong");
    assert!(db.compact(&[]).is_err());
    assert_eq!(db.get("demo", "blob", &good).unwrap(), b"good");
    assert_eq!(db.count("demo", "blob"), 2);
}

#[test]
fn corrupted_pack_is_rejected_and_large_objects_remain_independently_readable() {
    let mut db = Store::default();
    let a = db.put("demo", "blob", b"aaa");
    db.put("demo", "blob", b"bbb");
    let large = vec![42; 9 * 1024 * 1024];
    let id = db.put("demo", "blob", &large);
    db.compact(&[]).unwrap();
    assert_eq!(db.get("demo", "blob", &id).unwrap(), large);
    for pack in &mut db.packs {
        pack.0 = b"broken pack".to_vec();
    }
    assert!(db.get("demo", "blob", &a).is_err());
}

#[test]
fn compact_metadata_roundtrips_legacy_and_compressed_records() {
    let plain = br#"{"data":"legacy"}"#;
    assert_eq!(storage::decode_record(plain).unwrap(), plain);
    let data = b"large repeated metadata".repeat(1000);
    let encoded = storage::encode_record(&data).unwrap();
    assert!(encoded.len() < data.len());
    assert_eq!(
        object_id("metadata", &storage::decode_record(&encoded).unwrap()),
        object_id("metadata", &data)
    );
    assert!(storage::decode_record(b"KZ01").is_err());
}

#[test]
fn snapshot_dictionary_caches_survive_packing_their_base() {
    let mut db = Store::default();
    let base = (0..1000)
        .map(|index| format!("path-{index}: {}\n", object_id("entry", index.to_string().as_bytes())))
        .collect::<String>()
        .into_bytes();
    let id = db.put("demo", "snapshot", &base);
    let mut edited = base.clone();
    edited.extend_from_slice(b"one extra field");
    let cache = storage::encode_cache(&edited, &id, &base).unwrap();
    assert!(cache.len() < edited.len() / 10);
    db.put("demo", "snapshot", &edited);
    db.compact(&[]).unwrap();
    let opened = storage::open_cache(&cache).unwrap();
    let wanted = match &opened {
        Cache::Delta { base, .. } => base.clone(),
        Cache::Whole(_) => panic!("the cache is a delta"),
    };
    assert_eq!(wanted, id);
    let stored = db.get("demo", "snapshot", &wanted).unwrap();
    assert_eq!(storage::resolve_cache(opened, &stored).unwrap(), edited);
    assert!(db.get("another-project", "snapshot", &wanted).is_err());
}

#[test]
fn incompressible_groups_split_within_the_decode_budget() {
    let mut db = Store::default();
    let mut originals = Vec::new();
    let mut random = 0x12345678_u32;
    for _ in 0..3 {
        let mut bytes = Vec::with_capacity(4 * 1024 * 1024);
        for _ in 0..(4 * 1024 * 1024 / 4) {
            random ^= random << 13;
            random ^= random >> 17;
            random ^= random << 5;
            bytes.extend_from_slice(&random.to_le_bytes());
        }
        let id = db.put("demo", "blob", &bytes);
        originals.push((id, bytes));
    }
    db.compact(&[]).unwrap();
    let largest = db.packs.iter().map(|pack| pack.1).max();
    assert!(largest.is_none_or(|size| size <= 8 * 1024 * 1024));
    for (id, bytes) in originals {
        assert_eq!(db.get("demo", "blob", &id).unwrap(), bytes);
    }
}

#[test]
fn compressed_storage_preserves_hashes_and_reads_legacy_rows() {
    let mut db = Store::default();
    let id = object_id("blob", b"legacy");
    db.rows.insert(
        ("demo".into(), "blob".into(), id.clone()),
        Row::Loose(Encoded { codec: 0, bytes: b"legacy".to_vec() }, 6),
    );
    assert_eq!(db.get("demo", "blob", &id).unwrap(), b"legacy");
    let bytes = b"repeated source content\n".repeat(5000);
    let id = db.put("demo", "blob", &bytes);
    assert_eq!(id, object_id("blob", &bytes));
    assert_eq!(db.get("demo", "blob", &id).unwrap(), bytes);
    assert!((db.payload() as usize) < bytes.len() / 2);
    db.corrupt("blob", &id, b"invalid");
    assert!(db.get("demo", "blob", &id).is_err());
}

#[test]
fn the_buffer_of_a_frame_fits_a_vector() {
    assert!(is_compressible(0));
    assert!(is_compressible(1 << 30));
    assert!(!is_compressible(isize::MAX as usize));
    assert!(!is_compressible(usize::MAX));
}

#[test]
fn small_objects_are_kept_as_they_are() {
    let small = vec![7u8; 511];
    let kept = storage::encode_loose(&small).unwrap();
    assert_eq!((kept.codec, kept.bytes.as_slice()), (0, small.as_slice()));
    let larger = vec![7u8; 512];
    let packed = storage::encode_loose(&larger).unwrap();
    assert_eq!(packed.codec, 1);
    assert_eq!(zstd::bulk::decompress(&packed.bytes, 512).unwrap(), larger);
    assert_eq!(storage::decode(&packed.bytes, 1, Some(512)).unwrap(), larger);
}

#[test]
fn stored_forms_are_checked() {
    let problem = |bytes: &[u8], codec: i64, size: Option<i64>| storage::decode(bytes, codec, size).unwrap_err();
    assert_eq!(problem(b"abc", 1, None).problem, Problem::MissingLength);
    assert_eq!(problem(b"abc", 7, Some(3)).message(), "unknown storage codec 7");
    assert_eq!(problem(b"abc", -1, Some(3)).message(), "unknown storage codec -1");
    assert_eq!(problem(b"abc", 0, Some(4)).problem, Problem::CorruptLength);
    assert_eq!(problem(b"abc", 1, Some(3)).problem, Problem::DecompressionFailed);
    assert_eq!(problem(b"abc", 1, Some(-3)).problem, Problem::InvalidLength);
    let id = object_id("blob", b"abc");
    assert_eq!(
        storage::verify_object("blob", &id, b"abc", 4).unwrap_err().problem,
        Problem::CorruptLogicalLength
    );
    assert_eq!(
        storage::verify_object("blob", &id, b"abd", 3).unwrap_err().message(),
        format!("corrupt blob object {id}")
    );
    assert_eq!(storage::missing("blob", &id).message(), format!("missing blob object {id}"));
    assert_eq!(storage::verify_size("a", 1, 2).unwrap_err().message(), "size mismatch for a");
    assert_eq!(storage::object_size(-1).unwrap_err().problem, Problem::InvalidLength);
    assert_eq!(storage::object_size(5).unwrap(), 5);
    assert_eq!(storage::hash_bytes("00ff").unwrap_err().problem, Problem::InvalidObjectId);
    assert_eq!(storage::hash_bytes(&"0f".repeat(32)).unwrap(), vec![15u8; 32]);
}

fn location(size: i64) -> Location {
    Location { size, loose: None, pack: Some(1), offset: Some(0), encoding: 0, stored_size: Some(size) }
}

#[test]
fn packed_objects_are_checked() {
    let pack = b"0123456789";
    assert_eq!(storage::read_packed(pack, &location(4)).unwrap(), b"0123");
    let offset = Location { offset: Some(8), ..location(4) };
    assert_eq!(storage::read_packed(pack, &offset).unwrap_err().problem, Problem::OutsidePack);
    let unplaced = Location { offset: None, ..location(4) };
    assert_eq!(storage::read_packed(pack, &unplaced).unwrap_err().problem, Problem::MissingOffset);
    let odd = Location { encoding: 9, ..location(4) };
    assert_eq!(storage::read_packed(pack, &odd).unwrap_err().problem, Problem::UnknownEncoding);
    let delta = Location { encoding: 2, ..location(4) };
    assert_eq!(storage::read_packed(pack, &delta).unwrap_err().problem, Problem::InvalidDeltaPack);
    assert_eq!(
        storage::read_packed(b"KDP1\0\0\0\x63", &Location { offset: Some(8), stored_size: Some(0), ..delta })
            .unwrap_err()
            .problem,
        Problem::InvalidPackBase
    );
    assert_eq!(location(4).place().unwrap(), Place::Packed(1));
    assert_eq!(Location { loose: Some(5), ..location(4) }.place().unwrap(), Place::Loose(5));
    assert_eq!(
        Location { pack: None, ..location(4) }.place().unwrap_err().problem,
        Problem::MissingLocation
    );
    assert_eq!(storage::open_pack(b"x", 9_000_000, &[]).unwrap_err().problem, Problem::InvalidPackSize);
    let packed = zstd::bulk::compress(b"0123456789", 9).unwrap();
    assert_eq!(storage::open_pack(&packed, 10, &[0; 32]).unwrap_err().problem, Problem::CorruptPack);
    let hash = storage::hash_bytes(&object_id("storage-pack", b"0123456789")).unwrap();
    assert_eq!(storage::open_pack(&packed, 10, &hash).unwrap(), b"0123456789");
}

#[test]
fn records_and_caches_are_checked() {
    assert_eq!(storage::decode_record(b"KZ01\0\0\0\0\0\0\0").unwrap_err().problem, Problem::TruncatedRecord);
    let mut record = b"KZ01".to_vec();
    record.extend_from_slice(&5u64.to_be_bytes());
    record.extend_from_slice(&zstd::bulk::compress(b"abcd", 9).unwrap());
    assert_eq!(storage::decode_record(&record).unwrap_err().problem, Problem::RecordLengthMismatch);
    assert_eq!(storage::open_cache(b"KCD1").unwrap_err().problem, Problem::TruncatedCache);
    match storage::open_cache(b"plain").unwrap() {
        Cache::Whole(bytes) => assert_eq!(bytes, b"plain"),
        Cache::Delta { .. } => panic!("plain bytes are no delta"),
    }
}

#[test]
fn plain_records_are_never_longer_than_their_metadata() {
    for bytes in [&b""[..], b"KZ0", b"K", &b"abc".repeat(500), &[7; 64]] {
        let record = storage::encode_record(bytes).unwrap();
        assert!(record.len() <= bytes.len());
        assert_eq!(storage::decode_record(&record).unwrap(), bytes);
        assert_eq!(storage::decode_record(bytes).unwrap(), bytes);
    }
    assert_eq!(storage::decode_record(b"KZ01").unwrap_err().problem, Problem::TruncatedRecord);
}

#[test]
fn objects_are_read_in_their_own_project_and_never_as_others() {
    let mut db = Store::default();
    let bytes = b"shared line\n".repeat(100);
    let id = db.put("demo", "blob", &bytes);
    assert_eq!(id, object_id("blob", &bytes));
    assert_eq!(db.get("demo", "blob", &id).unwrap(), bytes);
    assert_eq!(db.get("other", "blob", &id).unwrap_err().problem, Problem::MissingObject);
    assert_eq!(db.get("demo", "snapshot", &id).unwrap_err().problem, Problem::MissingObject);
    db.put("other", "blob", b"something else");
    assert_eq!(db.put("demo", "blob", &bytes), id);
    assert_eq!(db.get("demo", "blob", &id).unwrap(), bytes);
    let other = storage::encode_loose(&b"another line\n".repeat(100)).unwrap();
    db.corrupt("blob", &id, &other.bytes);
    assert!(db.get("demo", "blob", &id).is_err());
    let form = Encoded { codec: 0, bytes: b"abd".to_vec() };
    let id = object_id("blob", b"abc");
    assert_eq!(storage::read_loose("blob", &id, &loose(3), &form).unwrap_err().problem, Problem::CorruptObject);
    assert_eq!(storage::read_loose("blob", &id, &loose(4), &form).unwrap_err().problem, Problem::CorruptLength);
    assert_eq!(storage::read_member("blob", &id, &location(3), b"abcdef").unwrap(), b"abc");
    assert_eq!(
        storage::read_member("blob", &id, &location(3), b"bcdef").unwrap_err().problem,
        Problem::CorruptObject
    );
}

#[test]
fn a_frame_is_read_into_a_buffer_of_the_stored_size() {
    let frame = zstd::bulk::compress(b"0123456789", 1).unwrap();
    assert_eq!(storage::decode(&frame, 1, Some(10)).unwrap(), b"0123456789");
    assert_eq!(storage::decode(&frame, 1, Some(9)).unwrap_err().problem, Problem::DecompressionFailed);
    assert_eq!(storage::decode(&frame, 1, Some(11)).unwrap_err().problem, Problem::CorruptLength);
}

#[test]
fn every_member_of_a_group_has_one_place() {
    let mut grouping = Grouping::new();
    let mut batches = Vec::new();
    let mut offered = Vec::new();
    for i in 0..600usize {
        let (namespace, bytes) = (if i < 300 { "a" } else { "b" }, format!("object {i}").into_bytes());
        let id = object_id("blob", &bytes);
        if let Some(batch) = grouping.make_room(namespace, "blob", bytes.len() as i64).unwrap() {
            batches.push(batch);
        }
        grouping.add(id.clone(), &bytes);
        offered.push((namespace.to_owned(), id));
    }
    batches.push(grouping.finish());
    let handed: Vec<(String, String)> = batches
        .iter()
        .flat_map(|batch| batch.group.iter().map(|member| (batch.namespace.clone(), member.id.clone())))
        .collect();
    assert_eq!(handed, offered);
    for batch in batches.iter().filter(|batch| batch.group.len() > 1) {
        let packs = pack_group(&batch.group, &batch.bytes).unwrap();
        let placed: Vec<&String> = packs.iter().flat_map(|pack| pack.places.iter().map(|place| &place.id)).collect();
        assert_eq!(placed, batch.group.iter().map(|member| &member.id).collect::<Vec<_>>());
    }
}

#[test]
fn prefixes_bound_the_hashes_that_begin_with_them() {
    let (low, high) = storage::prefix_bounds("0f3").unwrap();
    assert_eq!(low[..2], [0x0f, 0x30]);
    assert_eq!(high[..2], [0x0f, 0x3f]);
    assert_eq!(low.len(), 32);
    assert_eq!(high.len(), 32);
    assert_eq!(high[31], 255);
}

#[test]
fn a_decoded_pack_is_kept_until_two_others_were() {
    let mut cache: PackCache<u8> = PackCache::new();
    cache.insert(vec![1], 10);
    cache.insert(vec![2], 20);
    assert_eq!(cache.get(&[1]), Some(&10));
    cache.insert(vec![3], 30);
    assert_eq!(cache.get(&[1]), None);
    assert_eq!(cache.get(&[2]), Some(&20));
    assert_eq!(cache.get(&[3]), Some(&30));
}

#[test]
fn only_objects_of_a_fitting_size_are_packed() {
    assert_eq!(compaction_action(10, true), Action::KeepLoose);
    assert_eq!(compaction_action(8 * 1024 * 1024, false), Action::Pack);
    assert_eq!(compaction_action(8 * 1024 * 1024 + 1, false), Action::Leave);
}

#[test]
fn a_cache_whose_length_does_not_fit_is_refused() {
    let mut cache = b"KCD1".to_vec();
    cache.extend_from_slice(&[0; 32]);
    cache.extend_from_slice(&u64::MAX.to_be_bytes());
    assert_eq!(storage::open_cache(&cache).unwrap_err().problem, Problem::CacheLengthOverflow);
}

#[test]
fn a_group_is_packed_in_the_smaller_form() {
    let first = b"some line of text that stays the same, one".repeat(20);
    let second = b"some line of text that stays the same, two".repeat(20);
    let bytes = [first.as_slice(), second.as_slice()].concat();
    let group = [
        Member { id: object_id("blob", &first), offset: 0 },
        Member { id: object_id("blob", &second), offset: first.len() },
    ];
    let plain = zstd::bulk::compress(&bytes, 9).unwrap();
    let pack = form_pack(&group, &bytes, plain.clone(), Vec::new()).unwrap();
    assert_eq!((pack.payload.as_slice(), pack.packed.as_slice()), (bytes.as_slice(), plain.as_slice()));
    let places: Vec<(usize, usize, i64)> =
        pack.places.iter().map(|place| (place.offset, place.length, place.encoding)).collect();
    assert_eq!(places, [(0, first.len(), 0), (first.len(), second.len(), 0)]);
    // What was handed over has to hold the bytes.
    assert!(form_pack(&group, &bytes, zstd::bulk::compress(&first, 9).unwrap(), Vec::new()).is_err());
    let packs = pack_group(&group, &bytes).unwrap();
    let delta = form_pack(&group, &bytes, Vec::new(), zstd::bulk::compress(b"KDP1", 9).unwrap());
    assert!(delta.is_err());
    assert_eq!(packs.len(), 1);
    assert!(pack_group(&group[..1], &first).unwrap().is_empty());
}
