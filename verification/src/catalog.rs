//! The objects of a store as a whole: what is read under each name, whatever
//! happens to the rows that it is read from.
use vstd::prelude::*;
use vstd::string::*;

use crate::codec::{opens_to, zstd_frame};
use crate::content::{
    blob_kept, chunks_kept, content_entry, parts_of, read_bytes, stored_content_is_read_back, tree_kept, tree_parsed,
    written_blobs, written_blobs_keep_the_file,
};
use crate::encoding::unhex;
use crate::error::{about, outcome, plain, Error, ErrorV, Problem};
use crate::objects::{object_hash, valid_hash, validate_hash, EntryKind, FileEntryV, MAX_BLOB_BYTES};
use crate::packing::{
    action_for, empty_batch, faithful, must_end, object_at, packable, packed_location, packs_of, restores, Action,
    BatchV, MemberV, PackV, PlacedV,
};
use crate::storage::{
    hash_value, inflated, kept_form, loose_form, loose_object, member_object, missing, object_label, pack_content,
    packed_object, place_of, read_loose, read_member, Encoded, EncodedV, Location, Place, COMPRESS_FROM, MAX_PACK_BYTES,
};

verus! {

/// The name of an object: its project, its kind and its identity.
#[verifier::ext_equal]
pub struct NameV {
    pub namespace: Seq<char>,
    pub kind: Seq<char>,
    pub id: Seq<char>,
}

/// A stored pack.
#[verifier::ext_equal]
pub struct PackRowV {
    pub bytes: Seq<u8>,
    pub size: i64,
    pub hash: Seq<u8>,
}

/// What a location leads to.
#[verifier::ext_equal]
pub enum RowV {
    Loose(EncodedV),
    Pack(PackRowV),
}

/// What a store holds of an object: its location and the row that this leads
/// to.
#[verifier::ext_equal]
pub struct EntryV {
    pub location: Location,
    pub row: RowV,
}

/// A store. Rows that no location leads to are not part of it.
#[verifier::ext_equal]
pub struct StoreV {
    pub entries: Map<NameV, EntryV>,
}

/// The object that an entry leads to.
pub open spec fn entry_object(kind: Seq<char>, id: Seq<char>, entry: EntryV) -> Result<Seq<u8>, ErrorV> {
    match place_of(entry.location) {
        Err(error) => Err(error),
        Ok(Place::Loose(_)) => match entry.row {
            RowV::Loose(form) => loose_object(kind, id, entry.location, form),
            RowV::Pack(_) => Err(plain(Problem::MissingLocation)),
        },
        Ok(Place::Packed(_)) => match entry.row {
            RowV::Loose(_) => Err(plain(Problem::MissingLocation)),
            RowV::Pack(pack) => match pack_content(pack.bytes, pack.size, pack.hash) {
                Err(error) => Err(error),
                Ok(content) => member_object(kind, id, entry.location, content),
            },
        },
    }
}

/// What is read under a name.
pub open spec fn got(store: StoreV, name: NameV) -> Result<Seq<u8>, ErrorV> {
    match hash_value(name.id) {
        Err(error) => Err(error),
        Ok(_) => if store.entries.contains_key(name) {
            entry_object(name.kind, name.id, store.entries[name])
        } else {
            Err(about(Problem::MissingObject, object_label(name.kind, name.id)))
        },
    }
}

/// What is read under a name is what the name stands for, or nothing is read:
/// damage is told, and never gives other bytes.
pub proof fn reads_are_genuine(store: StoreV, name: NameV)
    ensures
        got(store, name) matches Ok(bytes) ==> store.entries.contains_key(name) && object_hash(name.kind, bytes)
            == name.id && bytes.len() == store.entries[name].location.size,
{
}

/// What a store holds under a name: the location of the object, with the row
/// that lies there or the content of the pack.
#[derive(Debug)]
pub enum Found<'a> {
    Loose { location: Location, form: &'a Encoded },
    Packed { location: Location, content: &'a [u8] },
}

/// What is read of what was found.
pub open spec fn found_object(kind: Seq<char>, id: Seq<char>, found: Option<Found>) -> Result<Seq<u8>, ErrorV> {
    match hash_value(id) {
        Err(error) => Err(error),
        Ok(_) => match found {
            None => Err(about(Problem::MissingObject, object_label(kind, id))),
            Some(Found::Loose { location, form }) => loose_object(kind, id, location, form@),
            Some(Found::Packed { location, content }) => member_object(kind, id, location, content@),
        },
    }
}

/// This is what a store holds under a name.
pub open spec fn is_found(store: StoreV, name: NameV, found: Option<Found>) -> bool {
    match found {
        None => !store.entries.contains_key(name),
        Some(Found::Loose { location, form }) => {
            &&& store.entries.contains_key(name)
            &&& location.loose is Some
            &&& store.entries[name] == EntryV { location, row: RowV::Loose(form@) }
        },
        Some(Found::Packed { location, content }) => {
            &&& store.entries.contains_key(name)
            &&& place_of(location) matches Ok(Place::Packed(_))
            &&& store.entries[name].location == location
            &&& store.entries[name].row matches RowV::Pack(pack) && pack_content(pack.bytes, pack.size, pack.hash)
                == Ok::<Seq<u8>, ErrorV>(content@)
        },
    }
}

/// Read an object by what was found under its name, and check that it is what
/// the name stands for.
pub fn get(kind: &str, id: &str, found: Option<Found>) -> (result: Result<Vec<u8>, Error>)
    ensures
        outcome(result) == found_object(kind@, id@, found),
        forall|store: StoreV, namespace: Seq<char>|
            is_found(store, (NameV { namespace, kind: kind@, id: id@ }), found) ==> outcome(result) == #[trigger] got(
                store,
                (NameV { namespace, kind: kind@, id: id@ }),
            ),
        result matches Ok(bytes) ==> object_hash(kind@, bytes@) == id@,
{
    validate_hash(id)?;
    let result = match found {
        None => Err(missing(kind, id)),
        Some(Found::Loose { location, form }) => read_loose(kind, id, &location, form),
        Some(Found::Packed { location, content }) => read_member(kind, id, &location, content),
    };
    proof {
        if result is Ok {
            assert(result->Ok_0.deep_view() =~= result->Ok_0@);
        }
        assert forall|store: StoreV, namespace: Seq<char>|
            is_found(store, (NameV { namespace, kind: kind@, id: id@ }), found) implies outcome(result)
            == #[trigger] got(store, (NameV { namespace, kind: kind@, id: id@ })) by {
            let name = NameV { namespace, kind: kind@, id: id@ };
            assert(found_object(kind@, id@, found) == got(store, name));
        }
    }
    result
}

// New objects

/// The location of an object that lies in a row of its own.
pub open spec fn loose_location(number: i64, size: int) -> Location {
    Location {
        size: size as i64,
        loose: Some(number),
        pack: None,
        offset: None,
        encoding: 0,
        stored_size: None,
    }
}

/// The name that bytes are stored under.
pub open spec fn name_for(namespace: Seq<char>, kind: Seq<char>, bytes: Seq<u8>) -> NameV {
    NameV { namespace, kind, id: object_hash(kind, bytes) }
}

/// A store after an object was put into it, in a row with the given number. An
/// object that is there already stays as it is.
pub open spec fn with_object(
    store: StoreV,
    namespace: Seq<char>,
    kind: Seq<char>,
    bytes: Seq<u8>,
    number: i64,
) -> StoreV {
    let name = name_for(namespace, kind, bytes);
    if store.entries.contains_key(name) {
        store
    } else {
        StoreV {
            entries: store.entries.insert(
                name,
                EntryV { location: loose_location(number, bytes.len() as int), row: RowV::Loose(loose_form(bytes)) },
            ),
        }
    }
}

/// What was put into a store is read back under the hash of its kind and
/// bytes. Under every other name, and so in every other project, the store
/// gives what it gave before: where an object was never stored, it stays
/// missing.
pub proof fn stored_objects_are_read_back(
    store: StoreV,
    namespace: Seq<char>,
    kind: Seq<char>,
    bytes: Seq<u8>,
    number: i64,
)
    requires
        storable(kind, bytes),
    ensures
        ({
            let name = name_for(namespace, kind, bytes);
            let after = with_object(store, namespace, kind, bytes, number);
            &&& name.id == object_hash(kind, bytes)
            &&& after.entries.contains_key(name)
            &&& !store.entries.contains_key(name) ==> got(after, name) == Ok::<Seq<u8>, ErrorV>(bytes)
            &&& store.entries.contains_key(name) ==> got(after, name) == got(store, name)
            &&& forall|other: NameV| other != name ==> #[trigger] got(after, other) == got(store, other)
            &&& forall|other: Seq<char>|
                other != namespace && !store.entries.contains_key(
                    (NameV { namespace: other, ..name }),
                ) ==> #[trigger] got(after, (NameV { namespace: other, ..name })) is Err
        }),
{
    let name = name_for(namespace, kind, bytes);
    if !store.entries.contains_key(name) && bytes.len() >= COMPRESS_FROM {
        crate::storage::loose_objects_survive(bytes, zstd_frame(bytes, 1), 16);
    }
}

/// A store after several objects were put into it, each in a row with the
/// number that `rows` gives.
pub open spec fn with_objects(
    store: StoreV,
    namespace: Seq<char>,
    kind: Seq<char>,
    list: Seq<Seq<u8>>,
    rows: spec_fn(Seq<u8>) -> i64,
) -> StoreV
    decreases list.len(),
{
    if list.len() == 0 {
        store
    } else {
        with_object(
            with_objects(store, namespace, kind, list.drop_last(), rows),
            namespace,
            kind,
            list.last(),
            rows(list.last()),
        )
    }
}

/// An object that a machine can hold, and whose frame was made where it needs
/// one.
pub open spec fn storable(kind: Seq<char>, bytes: Seq<u8>) -> bool {
    &&& valid_hash(object_hash(kind, bytes))
    &&& bytes.len() <= isize::MAX
    &&& bytes.len() <= i64::MAX
    &&& bytes.len() >= COMPRESS_FROM ==> opens_to(zstd_frame(bytes, 1), bytes)
}

/// The names of some objects are free for them: none of them stands for other
/// bytes in the store, nor for other bytes among the objects themselves.
pub open spec fn names_free(store: StoreV, namespace: Seq<char>, kind: Seq<char>, list: Seq<Seq<u8>>) -> bool {
    &&& forall|k: int|
        0 <= k < list.len() && store.entries.contains_key(name_for(namespace, kind, list[k])) ==> got(
            store,
            name_for(namespace, kind, #[trigger] list[k]),
        ) == Ok::<Seq<u8>, ErrorV>(list[k])
    &&& forall|j: int, k: int|
        0 <= j < list.len() && 0 <= k < list.len() && object_hash(kind, list[j]) == object_hash(kind, list[k])
            ==> #[trigger] list[j] == #[trigger] list[k]
}

/// A name is one of those that some objects are stored under.
pub open spec fn names_one(name: NameV, namespace: Seq<char>, kind: Seq<char>, list: Seq<Seq<u8>>) -> bool {
    exists|k: int| 0 <= k < list.len() && name == name_for(namespace, kind, #[trigger] list[k])
}

/// One more object, by what is read and what is there before anything was put
/// (`read`, `there`), before this object was (`read_then`, `there_then`) and
/// after it was (`read_now`, `there_now`).
proof fn lemma_one_more(
    namespace: Seq<char>,
    kind: Seq<char>,
    list: Seq<Seq<u8>>,
    read: spec_fn(NameV) -> Result<Seq<u8>, ErrorV>,
    there: spec_fn(NameV) -> bool,
    read_then: spec_fn(NameV) -> Result<Seq<u8>, ErrorV>,
    there_then: spec_fn(NameV) -> bool,
    read_now: spec_fn(NameV) -> Result<Seq<u8>, ErrorV>,
    there_now: spec_fn(NameV) -> bool,
)
    requires
        list.len() > 0,
        there(name_for(namespace, kind, list.last())) ==> read(name_for(namespace, kind, list.last())) == Ok::<
            Seq<u8>,
            ErrorV,
        >(list.last()),
        forall|j: int, k: int|
            0 <= j < list.len() && 0 <= k < list.len() && object_hash(kind, list[j]) == object_hash(kind, list[k])
                ==> #[trigger] list[j] == #[trigger] list[k],
        forall|k: int|
            0 <= k < list.drop_last().len() ==> read_then(name_for(namespace, kind, #[trigger] list.drop_last()[k]))
                == Ok::<Seq<u8>, ErrorV>(list.drop_last()[k]),
        forall|name: NameV|
            !names_one(name, namespace, kind, list.drop_last()) ==> #[trigger] read_then(name) == read(name)
                && there_then(name) == there(name),
        !there_then(name_for(namespace, kind, list.last())) ==> read_now(name_for(namespace, kind, list.last())) == Ok::<
            Seq<u8>,
            ErrorV,
        >(list.last()),
        there_then(name_for(namespace, kind, list.last())) ==> read_now(name_for(namespace, kind, list.last()))
            == read_then(name_for(namespace, kind, list.last())),
        forall|name: NameV|
            name != name_for(namespace, kind, list.last()) ==> #[trigger] read_now(name) == read_then(name)
                && there_now(name) == there_then(name),
    ensures
        forall|k: int|
            0 <= k < list.len() ==> read_now(name_for(namespace, kind, #[trigger] list[k])) == Ok::<Seq<u8>, ErrorV>(
                list[k],
            ),
        forall|name: NameV|
            !names_one(name, namespace, kind, list) ==> #[trigger] read_now(name) == read(name) && there_now(name)
                == there(name),
{
    let front = list.drop_last();
    let last = list.last();
    let end = list.len() - 1;
    let name = name_for(namespace, kind, last);
    assert(list[end] == last);
    assert(read_now(name) == Ok::<Seq<u8>, ErrorV>(last)) by {
        if there_then(name) {
            if names_one(name, namespace, kind, front) {
                let k = choose|k: int| 0 <= k < front.len() && name == name_for(namespace, kind, #[trigger] front[k]);
                assert(front[k] == list[k]);
                assert(object_hash(kind, list[k]) == object_hash(kind, list[end]));
                assert(list[k] == list[end]);
            } else {
                assert(read_then(name) == read(name));
            }
        }
    }
    assert forall|k: int| 0 <= k < list.len() implies read_now(name_for(namespace, kind, #[trigger] list[k])) == Ok::<
        Seq<u8>,
        ErrorV,
    >(list[k]) by {
        let other = name_for(namespace, kind, list[k]);
        if other == name {
            assert(object_hash(kind, list[k]) == object_hash(kind, list[end]));
            assert(list[k] == list[end]);
        } else {
            assert(front[k] == list[k]);
            assert(read_now(other) == read_then(other));
        }
    }
    assert forall|other: NameV| !names_one(other, namespace, kind, list) implies #[trigger] read_now(other) == read(
        other,
    ) && there_now(other) == there(other) by {
        assert(!names_one(other, namespace, kind, front)) by {
            if names_one(other, namespace, kind, front) {
                let k = choose|k: int| 0 <= k < front.len() && other == name_for(namespace, kind, #[trigger] front[k]);
                assert(list[k] == front[k]);
            }
        }
        assert(read_then(other) == read(other));
    }
}

proof fn lemma_names_free(store: StoreV, namespace: Seq<char>, kind: Seq<char>, list: Seq<Seq<u8>>)
    requires
        list.len() > 0,
        names_free(store, namespace, kind, list),
    ensures
        names_free(store, namespace, kind, list.drop_last()),
{
    let front = list.drop_last();
    assert forall|k: int|
        0 <= k < front.len() && store.entries.contains_key(name_for(namespace, kind, front[k])) implies got(
        store,
        name_for(namespace, kind, #[trigger] front[k]),
    ) == Ok::<Seq<u8>, ErrorV>(front[k]) by {
        assert(front[k] == list[k]);
    }
    assert forall|j: int, k: int|
        0 <= j < front.len() && 0 <= k < front.len() && object_hash(kind, front[j]) == object_hash(
            kind,
            front[k],
        ) implies #[trigger] front[j] == #[trigger] front[k] by {
        assert(front[j] == list[j] && front[k] == list[k]);
    }
}

/// Everything that was put into a store is read back, and what the store gives
/// under other names stays.
pub proof fn stored_lists_are_read_back(
    store: StoreV,
    namespace: Seq<char>,
    kind: Seq<char>,
    list: Seq<Seq<u8>>,
    rows: spec_fn(Seq<u8>) -> i64,
)
    requires
        forall|k: int| 0 <= k < list.len() ==> storable(kind, #[trigger] list[k]),
        names_free(store, namespace, kind, list),
    ensures
        forall|k: int|
            0 <= k < list.len() ==> got(
                with_objects(store, namespace, kind, list, rows),
                name_for(namespace, kind, #[trigger] list[k]),
            ) == Ok::<Seq<u8>, ErrorV>(list[k]),
        forall|name: NameV|
            !names_one(name, namespace, kind, list) ==> #[trigger] got(
                with_objects(store, namespace, kind, list, rows),
                name,
            ) == got(store, name) && with_objects(store, namespace, kind, list, rows).entries.contains_key(name)
                == store.entries.contains_key(name),
    decreases list.len(),
{
    if list.len() > 0 {
        let front = list.drop_last();
        let last = list.last();
        let middle = with_objects(store, namespace, kind, front, rows);
        let after = with_objects(store, namespace, kind, list, rows);
        assert forall|k: int| 0 <= k < front.len() implies storable(kind, #[trigger] front[k]) by {
            assert(front[k] == list[k]);
        }
        lemma_names_free(store, namespace, kind, list);
        stored_lists_are_read_back(store, namespace, kind, front, rows);
        assert(last == list[list.len() - 1]);
        assert(storable(kind, last));
        stored_objects_are_read_back(middle, namespace, kind, last, rows(last));
        let read = |name: NameV| got(store, name);
        let there = |name: NameV| store.entries.contains_key(name);
        let read_then = |name: NameV| got(middle, name);
        let there_then = |name: NameV| middle.entries.contains_key(name);
        let read_now = |name: NameV| got(after, name);
        let there_now = |name: NameV| after.entries.contains_key(name);
        lemma_one_more(namespace, kind, list, read, there, read_then, there_then, read_now, there_now);
        assert forall|k: int| 0 <= k < list.len() implies got(
            after,
            name_for(namespace, kind, #[trigger] list[k]),
        ) == Ok::<Seq<u8>, ErrorV>(list[k]) by {
            assert(read_now(name_for(namespace, kind, list[k])) == Ok::<Seq<u8>, ErrorV>(list[k]));
        }
        assert forall|name: NameV| !names_one(name, namespace, kind, list) implies #[trigger] got(after, name) == got(
            store,
            name,
        ) && after.entries.contains_key(name) == store.entries.contains_key(name) by {
            assert(read_now(name) == read(name));
        }
    }
}

/// The blobs of a project.
pub open spec fn blobs_in(store: StoreV, namespace: Seq<char>) -> spec_fn(Seq<char>) -> Result<Seq<u8>, ErrorV> {
    |id: Seq<char>| got(store, NameV { namespace, kind: "blob"@, id })
}

/// Storing a file puts everything into the store that reading it needs, and
/// reading it gives its bytes, as long as no name held other bytes before.
pub proof fn stored_files_are_read_back(
    store: StoreV,
    namespace: Seq<char>,
    bytes: Seq<u8>,
    executable: bool,
    rows: spec_fn(Seq<u8>) -> i64,
    parse: spec_fn(Seq<u8>) -> Result<Seq<FileEntryV>, ErrorV>,
)
    requires
        bytes.len() <= u64::MAX,
        forall|k: int| 0 <= k < written_blobs(bytes).len() ==> storable("blob"@, #[trigger] written_blobs(bytes)[k]),
        names_free(store, namespace, "blob"@, written_blobs(bytes)),
        tree_parsed(parts_of(bytes), parse),
    ensures
        ({
            let after = with_objects(store, namespace, "blob"@, written_blobs(bytes), rows);
            let entry = content_entry(bytes, executable);
            &&& chunks_kept(bytes, blobs_in(after, namespace))
            &&& tree_kept(parts_of(bytes), blobs_in(after, namespace), parse)
            &&& entry.size == bytes.len()
            &&& entry.executable == executable
            &&& bytes.len() <= MAX_BLOB_BYTES ==> entry.kind == EntryKind::Regular && entry.blob == object_hash(
                "blob"@,
                bytes,
            )
            &&& bytes.len() > MAX_BLOB_BYTES ==> entry.kind == EntryKind::Chunked
            &&& exists|steps: nat| #[trigger]
                read_bytes(seq![entry], blobs_in(after, namespace), parse, steps) == Some(
                    Ok::<Seq<u8>, ErrorV>(bytes),
                )
        }),
{
    let list = written_blobs(bytes);
    let after = with_objects(store, namespace, "blob"@, list, rows);
    let blob = blobs_in(after, namespace);
    stored_lists_are_read_back(store, namespace, "blob"@, list, rows);
    assert forall|i: int| 0 <= i < list.len() implies blob_kept(#[trigger] list[i], blob) by {
        assert(storable("blob"@, list[i]));
        assert(got(after, name_for(namespace, "blob"@, list[i])) == Ok::<Seq<u8>, ErrorV>(list[i]));
    }
    written_blobs_keep_the_file(bytes, blob, parse);
    stored_content_is_read_back(bytes, executable, blob, parse);
}

// Compaction

/// An object of a store as compaction meets it.
#[verifier::ext_equal]
pub struct RecordV {
    pub name: NameV,
    pub size: i64,
}

/// Every object of a store, each once.
pub open spec fn records_all(store: StoreV, records: Seq<RecordV>) -> bool {
    &&& forall|i: int|
        0 <= i < records.len() ==> store.entries.contains_key((#[trigger] records[i]).name) && records[i].size
            == store.entries[records[i].name].location.size
    &&& forall|i: int, j: int|
        0 <= i < j < records.len() ==> (#[trigger] records[i]).name != (#[trigger] records[j]).name
    &&& forall|name: NameV| #[trigger]
        store.entries.contains_key(name) ==> exists|i: int| 0 <= i < records.len() && #[trigger] records[i].name == name
}

/// A compaction that is under way: the store so far, the batch that is being
/// collected, and those that were handed out.
#[verifier::ext_equal]
pub struct RunV {
    pub store: StoreV,
    pub batch: BatchV,
    pub done: Seq<BatchV>,
}

/// The name of an object in a batch.
pub open spec fn name_in(batch: BatchV, id: Seq<char>) -> NameV {
    NameV { namespace: batch.namespace, kind: batch.kind, id }
}

/// The packs that were made of a batch.
pub open spec fn packs_made(batch: BatchV, packs: Seq<PackV>) -> bool {
    &&& packs_of(batch.group, batch.bytes) == Ok::<Seq<PackV>, ErrorV>(packs)
    &&& forall|p: int| 0 <= p < packs.len() ==> faithful(#[trigger] packs[p], batch.group, batch.bytes)
}

/// An object has a place in a pack.
pub open spec fn placed_at(batch: BatchV, packs: Seq<PackV>, name: NameV, p: int, j: int) -> bool {
    &&& 0 <= p < packs.len()
    &&& 0 <= j < packs[p].places.len()
    &&& name == name_in(batch, packs[p].places[j].id)
}

/// The row of a pack: the one that is written for it, or one that holds the
/// same content under the same hash already.
pub open spec fn holds_pack(row: PackRowV, pack: PackV) -> bool {
    ||| row == PackRowV { bytes: pack.packed, size: pack.payload.len() as i64, hash: pack.hash }
    ||| row.hash == pack.hash && pack_content(row.bytes, row.size, row.hash) == Ok::<Seq<u8>, ErrorV>(pack.payload)
}

/// An entry after its object was moved into a pack.
pub open spec fn is_moved(before: EntryV, after: EntryV, pack: PackV, place: PlacedV) -> bool {
    &&& after.location.pack is Some
    &&& after.location == packed_location(after.location.pack->0, place, before.location.size as int)
    &&& after.row matches RowV::Pack(row) && holds_pack(row, pack)
}

/// What becomes of an entry when a batch is packed: the objects that have a
/// place move there, the others stay.
pub open spec fn is_repacked(
    before: EntryV,
    after: EntryV,
    batch: BatchV,
    packs: Seq<PackV>,
    name: NameV,
) -> bool {
    if exists|p: int, j: int| #[trigger] placed_at(batch, packs, name, p, j) {
        exists|p: int, j: int| #[trigger]
            placed_at(batch, packs, name, p, j) && is_moved(before, after, packs[p], packs[p].places[j])
    } else {
        after == before
    }
}

/// What becomes of a store when a batch is packed.
pub open spec fn packed_into(before: StoreV, after: StoreV, batch: BatchV, packs: Seq<PackV>) -> bool {
    &&& after.entries.dom() == before.entries.dom()
    &&& forall|name: NameV| #[trigger]
        before.entries.contains_key(name) ==> is_repacked(
            before.entries[name],
            after.entries[name],
            batch,
            packs,
            name,
        )
}

/// Make ready for an object: a batch that cannot take it is packed.
pub open spec fn made_room(before: RunV, after: RunV, record: RecordV, packs: Seq<PackV>) -> bool {
    if must_end(before.batch, record.name.namespace, record.name.kind, record.size as int) {
        &&& packs_made(before.batch, packs)
        &&& packed_into(before.store, after.store, before.batch, packs)
        &&& after.batch == empty_batch(record.name.namespace, record.name.kind)
        &&& after.done == before.done.push(before.batch)
    } else {
        &&& record.size >= 0
        &&& after == before
    }
}

/// A batch after an object joined it.
pub open spec fn joined(batch: BatchV, id: Seq<char>, object: Seq<u8>) -> BatchV {
    BatchV {
        group: batch.group.push(MemberV { id, offset: batch.bytes.len() as int }),
        bytes: batch.bytes + object,
        ..batch
    }
}

/// What becomes of an object: it gets a row of its own, stays where it is, or
/// joins the batch. It is read first unless it stays.
pub open spec fn took(before: RunV, after: RunV, record: RecordV, keep: bool) -> bool {
    match action_for(record.size, keep) {
        Action::Leave => after == before,
        Action::KeepLoose => {
            &&& got(before.store, record.name) matches Ok(object)
            &&& object.len() <= isize::MAX
            &&& opens_to(zstd_frame(object, 1), object)
            &&& after.batch == before.batch
            &&& after.done == before.done
            &&& exists|number: i64|
                after.store.entries == before.store.entries.insert(
                    record.name,
                    EntryV {
                        location: #[trigger] loose_location(number, record.size as int),
                        row: RowV::Loose(kept_form(object)),
                    },
                )
        },
        Action::Pack => {
            &&& got(before.store, record.name) matches Ok(object)
            &&& after == RunV { batch: joined(before.batch, record.name.id, object), ..before }
        },
    }
}

/// The beginning of a compaction.
pub open spec fn compaction_start(store: StoreV) -> RunV {
    RunV { store, batch: empty_batch(Seq::empty(), Seq::empty()), done: Seq::empty() }
}

/// A compaction that went through: the records one after another, each first
/// given room and then taken, and the last batch packed at the end.
pub open spec fn compacted(
    store: StoreV,
    records: Seq<RecordV>,
    keep: Set<Seq<char>>,
    runs: Seq<RunV>,
    rooms: Seq<RunV>,
    packs: Seq<Seq<PackV>>,
    last: RunV,
) -> bool {
    &&& runs.len() == records.len() + 1
    &&& rooms.len() == records.len()
    &&& packs.len() == records.len() + 1
    &&& runs[0] == compaction_start(store)
    &&& forall|i: int|
        0 <= i < records.len() ==> made_room(runs[i], #[trigger] rooms[i], records[i], packs[i]) && took(
            rooms[i],
            runs[i + 1],
            records[i],
            keep.contains(records[i].name.id),
        )
    &&& packs_made(runs.last().batch, packs.last())
    &&& packed_into(runs.last().store, last.store, runs.last().batch, packs.last())
    &&& last.done == runs.last().done.push(runs.last().batch)
}

/// The store so far gives what the first one gave, and the batch holds what
/// the first one gives for its members.
#[verifier::opaque]
pub open spec fn keeps(first: StoreV, run: RunV) -> bool {
    &&& run.store.entries.dom() == first.entries.dom()
    &&& forall|name: NameV| #[trigger]
        first.entries.contains_key(name) ==> got(run.store, name) == got(first, name)
            && run.store.entries[name].location.size == first.entries[name].location.size
    &&& packable(run.batch)
    &&& forall|i: int|
        0 <= i < run.batch.group.len() ==> got(first, name_in(run.batch, (#[trigger] run.batch.group[i]).id)) == Ok::<
            Seq<u8>,
            ErrorV,
        >(object_at(run.batch.group, run.batch.bytes, i))
    &&& forall|i: int|
        0 <= i < run.batch.group.len() ==> object_at(run.batch.group, run.batch.bytes, i).len() <= MAX_PACK_BYTES
            && (#[trigger] run.batch.group[i]).offset <= run.batch.bytes.len()
}

/// The packs that were made of a group hold their content under their hash.
proof fn lemma_packs_are_sealed(group: Seq<MemberV>, bytes: Seq<u8>)
    requires
        packs_of(group, bytes) is Ok,
    ensures
        forall|p: int|
            0 <= p < packs_of(group, bytes)->Ok_0.len() ==> {
                let pack = #[trigger] packs_of(group, bytes)->Ok_0[p];
                &&& inflated(pack.packed, pack.payload.len() as int) == Ok::<Seq<u8>, ErrorV>(pack.payload)
                &&& pack.hash == unhex(object_hash("storage-pack"@, pack.payload))
            },
    decreases group.len(),
{
    if group.len() >= 2 && crate::packing::must_split(group, bytes) {
        lemma_packs_are_sealed(crate::packing::head_of(group), bytes.take(crate::packing::boundary_of(group)));
        lemma_packs_are_sealed(crate::packing::tail_of(group), bytes.skip(crate::packing::boundary_of(group)));
    }
}

/// A pack is read as its content.
proof fn lemma_pack_row(row: PackRowV, pack: PackV)
    requires
        holds_pack(row, pack),
        pack.payload.len() <= MAX_PACK_BYTES,
        inflated(pack.packed, pack.payload.len() as int) == Ok::<Seq<u8>, ErrorV>(pack.payload),
        pack.hash == unhex(object_hash("storage-pack"@, pack.payload)),
    ensures
        pack_content(row.bytes, row.size, row.hash) == Ok::<Seq<u8>, ErrorV>(pack.payload),
{
}

/// An entry that leads into a pack is read as the object that the pack holds
/// there.
proof fn lemma_packed_entry(name: NameV, entry: EntryV, pack: PackV, place: PlacedV, object: Seq<u8>)
    requires
        object.len() <= MAX_PACK_BYTES,
        entry.location.pack is Some,
        entry.location == packed_location(entry.location.pack->0, place, object.len() as int),
        entry.row is Pack,
        pack_content(entry.row->Pack_0.bytes, entry.row->Pack_0.size, entry.row->Pack_0.hash) == Ok::<
            Seq<u8>,
            ErrorV,
        >(pack.payload),
        packed_object(pack.payload, entry.location) == Ok::<Seq<u8>, ErrorV>(object),
        object_hash(name.kind, object) == name.id,
    ensures
        entry_object(name.kind, name.id, entry) == Ok::<Seq<u8>, ErrorV>(object),
{
}

proof fn lemma_moved_entry(
    first: StoreV,
    run: RunV,
    after: EntryV,
    packs: Seq<PackV>,
    name: NameV,
    p: int,
    j: int,
)
    requires
        keeps(first, run),
        packs_made(run.batch, packs),
        first.entries.contains_key(name),
        placed_at(run.batch, packs, name, p, j),
        is_moved(run.store.entries[name], after, packs[p], packs[p].places[j]),
    ensures
        got(first, name) is Ok,
        entry_object(name.kind, name.id, after) == got(first, name),
        after.location.size == first.entries[name].location.size,
{
    reveal(keeps);
    let batch = run.batch;
    let pack = packs[p];
    let place = pack.places[j];
    assert(faithful(pack, batch.group, batch.bytes));
    assert(crate::packing::restores_some(pack, place, batch.group, batch.bytes));
    let i = choose|i: int| #[trigger] restores(pack, place, batch.group, batch.bytes, i);
    let object = object_at(batch.group, batch.bytes, i);
    assert(name == name_in(batch, batch.group[i].id));
    assert(got(first, name) == Ok::<Seq<u8>, ErrorV>(object));
    reads_are_genuine(first, name);
    assert(after.location == packed_location(after.location.pack->0, place, object.len() as int));
    assert(packed_object(pack.payload, after.location) == Ok::<Seq<u8>, ErrorV>(object));
    lemma_packs_are_sealed(batch.group, batch.bytes);
    assert(packs_of(batch.group, batch.bytes)->Ok_0[p] == pack);
    lemma_pack_row(after.row->Pack_0, pack);
    lemma_packed_entry(name, after, pack, place, object);
}

/// Packing a batch changes nothing that is read.
proof fn lemma_packing_keeps(first: StoreV, run: RunV, after: StoreV, packs: Seq<PackV>, next: BatchV, done: Seq<BatchV>)
    requires
        keeps(first, run),
        packs_made(run.batch, packs),
        packed_into(run.store, after, run.batch, packs),
        next.group.len() == 0,
        next.bytes.len() == 0,
    ensures
        keeps(first, (RunV { store: after, batch: next, done })),
{
    reveal(keeps);
    assert forall|name: NameV| #[trigger] first.entries.contains_key(name) implies got(after, name) == got(first, name)
        && after.entries[name].location.size == first.entries[name].location.size by {
        assert(run.store.entries.dom().contains(name));
        assert(run.store.entries.contains_key(name));
        assert(after.entries.dom().contains(name));
        if exists|p: int, j: int| #[trigger] placed_at(run.batch, packs, name, p, j) {
            let (p, j) = choose|p: int, j: int| #[trigger]
                placed_at(run.batch, packs, name, p, j) && is_moved(
                    run.store.entries[name],
                    after.entries[name],
                    packs[p],
                    packs[p].places[j],
                );
            lemma_moved_entry(first, run, after.entries[name], packs, name, p, j);
        }
    }
}

proof fn lemma_room_keeps(first: StoreV, run: RunV, room: RunV, record: RecordV, packs: Seq<PackV>)
    requires
        keeps(first, run),
        made_room(run, room, record, packs),
    ensures
        keeps(first, room),
        !must_end(room.batch, record.name.namespace, record.name.kind, record.size as int) || room.batch
            == empty_batch(record.name.namespace, record.name.kind),
{
    reveal(keeps);
    if must_end(run.batch, record.name.namespace, record.name.kind, record.size as int) {
        lemma_packing_keeps(first, run, room.store, packs, room.batch, room.done);
        assert(room =~= RunV { store: room.store, batch: room.batch, done: room.done });
    }
}

proof fn lemma_taking_keeps(first: StoreV, room: RunV, after: RunV, record: RecordV, keep: bool)
    requires
        keeps(first, room),
        first.entries.contains_key(record.name),
        record.size == first.entries[record.name].location.size,
        took(room, after, record, keep),
        !must_end(room.batch, record.name.namespace, record.name.kind, record.size as int) || room.batch
            == empty_batch(record.name.namespace, record.name.kind),
    ensures
        keeps(first, after),
{
    reveal(keeps);
    reads_are_genuine(first, record.name);
    match action_for(record.size, keep) {
        Action::Leave => {},
        Action::KeepLoose => {
            let object = got(room.store, record.name)->Ok_0;
            crate::storage::loose_objects_survive(object, zstd_frame(object, 1), 0);
            assert(after.store.entries.dom() =~= first.entries.dom());
            assert forall|name: NameV| #[trigger] first.entries.contains_key(name) implies got(after.store, name)
                == got(first, name) && after.store.entries[name].location.size
                == first.entries[name].location.size by {
                assert(room.store.entries.dom().contains(name));
            }
        },
        Action::Pack => {
            let object = got(room.store, record.name)->Ok_0;
            let old = room.batch;
            let new = after.batch;
            assert(object.len() == record.size);
            assert forall|i: int| 0 <= i < new.group.len() implies got(
                first,
                name_in(new, (#[trigger] new.group[i]).id),
            ) == Ok::<Seq<u8>, ErrorV>(object_at(new.group, new.bytes, i)) && object_at(
                new.group,
                new.bytes,
                i,
            ).len() <= MAX_PACK_BYTES && new.group[i].offset <= new.bytes.len() by {
                if i < old.group.len() {
                    assert(new.group[i] == old.group[i]);
                    assert(object_at(new.group, new.bytes, i) =~= object_at(old.group, old.bytes, i));
                } else {
                    assert(object_at(new.group, new.bytes, i) =~= object);
                }
            }
        },
    }
}

proof fn lemma_step(
    store: StoreV,
    records: Seq<RecordV>,
    keep: Set<Seq<char>>,
    runs: Seq<RunV>,
    rooms: Seq<RunV>,
    packs: Seq<Seq<PackV>>,
    last: RunV,
    i: int,
)
    requires
        compacted(store, records, keep, runs, rooms, packs, last),
        0 <= i < records.len(),
    ensures
        made_room(runs[i], rooms[i], records[i], packs[i]),
        took(rooms[i], runs[i + 1], records[i], keep.contains(records[i].name.id)),
{
}

proof fn lemma_start_keeps(store: StoreV)
    ensures
        keeps(store, compaction_start(store)),
{
    reveal(keeps);
}

/// One record of a compaction.
proof fn lemma_record_keeps(
    store: StoreV,
    run: RunV,
    room: RunV,
    after: RunV,
    record: RecordV,
    packs: Seq<PackV>,
    keep: bool,
)
    requires
        keeps(store, run),
        store.entries.contains_key(record.name),
        record.size == store.entries[record.name].location.size,
        made_room(run, room, record, packs),
        took(room, after, record, keep),
    ensures
        keeps(store, room),
        keeps(store, after),
{
    lemma_room_keeps(store, run, room, record, packs);
    lemma_taking_keeps(store, room, after, record, keep);
}

#[verifier::spinoff_prover]
proof fn lemma_runs_keep(
    store: StoreV,
    records: Seq<RecordV>,
    keep: Set<Seq<char>>,
    runs: Seq<RunV>,
    rooms: Seq<RunV>,
    packs: Seq<Seq<PackV>>,
    last: RunV,
    n: int,
)
    requires
        records_all(store, records),
        compacted(store, records, keep, runs, rooms, packs, last),
        0 <= n <= records.len(),
    ensures
        keeps(store, runs[n]),
        n < records.len() ==> keeps(store, rooms[n]),
    decreases n,
{
    if n == 0 {
        lemma_start_keeps(store);
    } else {
        let i = n - 1;
        lemma_runs_keep(store, records, keep, runs, rooms, packs, last, i);
        lemma_step(store, records, keep, runs, rooms, packs, last, i);
        let record = records[i];
        lemma_record_keeps(store, runs[i], rooms[i], runs[n], record, packs[i], keep.contains(record.name.id));
    }
    if n < records.len() {
        lemma_step(store, records, keep, runs, rooms, packs, last, n);
        lemma_room_keeps(store, runs[n], rooms[n], records[n], packs[n]);
    }
}

/// Compaction changes how objects are kept, and nothing else: under every name
/// the store gives what it gave before, with the same size, and it holds the
/// same objects, as many as compaction counts.
pub proof fn compaction_keeps_every_object(
    store: StoreV,
    records: Seq<RecordV>,
    keep: Set<Seq<char>>,
    runs: Seq<RunV>,
    rooms: Seq<RunV>,
    packs: Seq<Seq<PackV>>,
    last: RunV,
)
    requires
        records_all(store, records),
        compacted(store, records, keep, runs, rooms, packs, last),
    ensures
        last.store.entries.dom() == store.entries.dom(),
        store.entries.dom().len() == records.len(),
        forall|name: NameV| #[trigger] got(last.store, name) == got(store, name),
        forall|name: NameV| #[trigger]
            store.entries.contains_key(name) ==> last.store.entries[name].location.size
                == store.entries[name].location.size,
{
    reveal(keeps);
    let n = records.len() as int;
    lemma_runs_keep(store, records, keep, runs, rooms, packs, last, n);
    let end = runs[n];
    lemma_packing_keeps(
        store,
        end,
        last.store,
        packs.last(),
        empty_batch(Seq::empty(), Seq::empty()),
        Seq::empty(),
    );
    assert forall|name: NameV| #[trigger] got(last.store, name) == got(store, name) by {
        if store.entries.contains_key(name) {
            assert(got(last.store, name) == got(store, name));
        } else {
            assert(!last.store.entries.dom().contains(name));
        }
    }
    let names = records.map_values(|record: RecordV| record.name);
    assert(names.no_duplicates());
    names.unique_seq_to_set();
    assert(names.to_set() =~= store.entries.dom()) by {
        assert forall|name: NameV| #[trigger] store.entries.dom().contains(name) implies names.to_set().contains(
            name,
        ) by {
            assert(store.entries.contains_key(name));
            let i = choose|i: int| 0 <= i < records.len() && #[trigger] records[i].name == name;
            assert(names[i] == name);
        }
    }
}

/// Compaction reads every object that it moves. Where one of them is damaged,
/// it does not go through: no compaction of the store leads to an end.
pub proof fn compaction_reads_what_it_moves(
    store: StoreV,
    records: Seq<RecordV>,
    keep: Set<Seq<char>>,
    runs: Seq<RunV>,
    rooms: Seq<RunV>,
    packs: Seq<Seq<PackV>>,
    last: RunV,
)
    requires
        records_all(store, records),
    ensures
        (exists|i: int|
            0 <= i < records.len() && action_for((#[trigger] records[i]).size, keep.contains(records[i].name.id))
                != Action::Leave && got(store, records[i].name) is Err) ==> !compacted(
            store,
            records,
            keep,
            runs,
            rooms,
            packs,
            last,
        ),
{
    reveal(keeps);
    if compacted(store, records, keep, runs, rooms, packs, last) {
        assert forall|i: int|
            0 <= i < records.len() && action_for((#[trigger] records[i]).size, keep.contains(records[i].name.id))
                != Action::Leave implies got(store, records[i].name) is Ok by {
            lemma_runs_keep(store, records, keep, runs, rooms, packs, last, i);
            assert(took(rooms[i], runs[i + 1], records[i], keep.contains(records[i].name.id)));
            assert(store.entries.contains_key(records[i].name));
        }
    }
}

/// A file whose chunks and manifests are in a store is read from it, before a
/// compaction and after.
pub proof fn stored_files_outlast_compaction(
    store: StoreV,
    records: Seq<RecordV>,
    keep: Set<Seq<char>>,
    runs: Seq<RunV>,
    rooms: Seq<RunV>,
    packs: Seq<Seq<PackV>>,
    last: RunV,
    namespace: Seq<char>,
    bytes: Seq<u8>,
    executable: bool,
    parse: spec_fn(Seq<u8>) -> Result<Seq<FileEntryV>, ErrorV>,
)
    requires
        records_all(store, records),
        compacted(store, records, keep, runs, rooms, packs, last),
        bytes.len() <= u64::MAX,
        chunks_kept(bytes, blobs_in(store, namespace)),
        tree_kept(parts_of(bytes), blobs_in(store, namespace), parse),
    ensures
        exists|steps: nat|
            #![trigger read_bytes(seq![content_entry(bytes, executable)], blobs_in(store, namespace), parse, steps)]
            read_bytes(seq![content_entry(bytes, executable)], blobs_in(store, namespace), parse, steps) == Some(
                Ok::<Seq<u8>, ErrorV>(bytes),
            ) && read_bytes(seq![content_entry(bytes, executable)], blobs_in(last.store, namespace), parse, steps)
                == Some(Ok::<Seq<u8>, ErrorV>(bytes)),
{
    stored_content_is_read_back(bytes, executable, blobs_in(store, namespace), parse);
    compaction_keeps_every_object(store, records, keep, runs, rooms, packs, last);
    assert(blobs_in(last.store, namespace) =~= blobs_in(store, namespace));
}

// Batches

/// The names of the members of a batch.
pub open spec fn names_in(batch: BatchV) -> Seq<NameV> {
    batch.group.map_values(|member: MemberV| name_in(batch, member.id))
}

/// The names of the members of some batches.
pub open spec fn names_in_all(batches: Seq<BatchV>) -> Seq<NameV>
    decreases batches.len(),
{
    if batches.len() == 0 {
        Seq::empty()
    } else {
        names_in_all(batches.drop_last()) + names_in(batches.last())
    }
}

/// The names of the objects that are to be packed.
pub open spec fn names_to_pack(records: Seq<RecordV>, keep: Set<Seq<char>>) -> Seq<NameV>
    decreases records.len(),
{
    if records.len() == 0 {
        Seq::empty()
    } else {
        let record = records.last();
        let others = names_to_pack(records.drop_last(), keep);
        if action_for(record.size, keep.contains(record.name.id)) == Action::Pack {
            others.push(record.name)
        } else {
            others
        }
    }
}

proof fn lemma_batched(
    store: StoreV,
    records: Seq<RecordV>,
    keep: Set<Seq<char>>,
    runs: Seq<RunV>,
    rooms: Seq<RunV>,
    packs: Seq<Seq<PackV>>,
    last: RunV,
    n: int,
)
    requires
        compacted(store, records, keep, runs, rooms, packs, last),
        0 <= n <= records.len(),
    ensures
        names_in_all(runs[n].done) + names_in(runs[n].batch) == names_to_pack(records.take(n), keep),
    decreases n,
{
    if n == 0 {
        assert(records.take(0) =~= Seq::<RecordV>::empty());
        assert(names_in(runs[0].batch) =~= Seq::<NameV>::empty());
    } else {
        lemma_batched(store, records, keep, runs, rooms, packs, last, n - 1);
        let before = runs[n - 1];
        let room = rooms[n - 1];
        let after = runs[n];
        let record = records[n - 1];
        let head = records.take(n);
        assert(head.drop_last() =~= records.take(n - 1));
        assert(head.last() == record);
        assert(made_room(before, room, record, packs[n - 1]));
        assert(names_in_all(room.done) + names_in(room.batch) =~= names_in_all(before.done) + names_in(
            before.batch,
        )) by {
            if must_end(before.batch, record.name.namespace, record.name.kind, record.size as int) {
                assert(room.done.drop_last() =~= before.done);
                assert(names_in(room.batch) =~= Seq::<NameV>::empty());
            }
        }
        if action_for(record.size, keep.contains(record.name.id)) == Action::Pack {
            assert(name_in(after.batch, record.name.id) == record.name);
            assert(names_in(after.batch) =~= names_in(room.batch).push(record.name));
            assert(names_in_all(after.done) + names_in(after.batch) =~= (names_in_all(room.done) + names_in(
                room.batch,
            )).push(record.name));
        }
    }
}

/// Every object that is to be packed is handed out in exactly one batch, in
/// the order of the records; no other object is.
pub proof fn objects_are_batched_once(
    store: StoreV,
    records: Seq<RecordV>,
    keep: Set<Seq<char>>,
    runs: Seq<RunV>,
    rooms: Seq<RunV>,
    packs: Seq<Seq<PackV>>,
    last: RunV,
)
    requires
        compacted(store, records, keep, runs, rooms, packs, last),
    ensures
        names_in_all(last.done) == names_to_pack(records, keep),
{
    let n = records.len() as int;
    lemma_batched(store, records, keep, runs, rooms, packs, last, n);
    assert(records.take(n) =~= records);
    assert(last.done.drop_last() =~= runs[n].done);
}

} // verus!
