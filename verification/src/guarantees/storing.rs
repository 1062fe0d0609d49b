//! How objects are kept, and what is read back of them.
use vstd::prelude::*;

use crate::checkout::batch_from;
use crate::content::{accepted_children, children_check, chunk_length, chunks_of, part_check, split_from, total_size};
use crate::encoding::{hex, unhex_round_trip};
use crate::error::ErrorV;
use crate::objects::{entry_check, object_hash, valid_hash, EntryKind, FileEntryV};
use crate::packing::{
    action_for, delta_bytes, delta_encoding, delta_payload, formed_pack, must_end, must_split, prefers_delta, Action,
    BatchV, MemberV,
};
use crate::storage::{
    bounds_of, cache_form, cached, hash_value, kept_form, loose_form, loose_object, member_object, object_check,
    pack_base, pack_content, packed_object, padded, place_of, record_content, record_form, smaller_form, stored, Location, Place,
};

verus! {

// Objects on their own

/// A hash is kept as the bytes that it writes out, and nothing else is.
pub proof fn hashes_are_kept_as_bytes(id: Seq<char>)
    ensures
        hash_value(id) is Ok <==> valid_hash(id),
        hash_value(id) is Ok ==> hash_value(id)->Ok_0.len() == 32 && hex(hash_value(id)->Ok_0) == id,
{
    if valid_hash(id) {
        unhex_round_trip(id);
    }
}

/// An object is kept compressed if and only if that saves more than the
/// margin. It is never kept longer than it is.
pub proof fn objects_are_kept_in_the_shorter_form(bytes: Seq<u8>, compressed: Seq<u8>, margin: int)
    requires
        margin >= 0,
    ensures
        ({
            let form = smaller_form(bytes, compressed, margin);
            &&& form.bytes.len() <= bytes.len()
            &&& form.codec == 1 <==> 0 < compressed.len() && compressed.len() + margin < bytes.len()
            &&& form.codec == 1 ==> form.bytes == compressed
            &&& form.codec != 1 ==> form.codec == 0 && form.bytes == bytes
        }),
{
}

/// An object of less than 512 bytes is kept as it is. A longer one is kept
/// compressed where that saves more than 16 bytes.
pub proof fn short_objects_are_kept_as_they_are(bytes: Seq<u8>)
    ensures
        bytes.len() < 512 ==> loose_form(bytes).codec == 0 && loose_form(bytes).bytes == bytes,
        bytes.len() >= 512 ==> loose_form(bytes) == smaller_form(
            bytes,
            crate::codec::zstd_frame(bytes, 1),
            16,
        ),
        loose_form(bytes).bytes.len() <= bytes.len(),
{
}

/// What is to stay by itself is kept compressed wherever that is shorter.
pub proof fn kept_objects_are_compressed(bytes: Seq<u8>)
    ensures
        kept_form(bytes) == smaller_form(bytes, crate::codec::zstd_frame(bytes, 1), 0),
        0 < crate::codec::zstd_frame(bytes, 1).len() < bytes.len() ==> kept_form(bytes).codec == 1,
        kept_form(bytes).bytes.len() <= bytes.len(),
{
}

/// What was kept as it is is read as it is, if it has its length. What was kept
/// compressed is read as what it opens to, if that has its length; so it needs
/// one. There is no other form.
pub proof fn kept_forms_are_read(bytes: Seq<u8>, codec: i64, size: Option<i64>)
    ensures
        codec == 0 ==> (stored(bytes, codec, size) is Ok <==> (size is Some ==> size->0 == bytes.len())),
        codec == 0 && stored(bytes, codec, size) is Ok ==> stored(bytes, codec, size)->Ok_0 == bytes,
        codec == 1 && stored(bytes, codec, size) is Ok ==> size is Some && 0 <= size->0 <= isize::MAX
            && crate::codec::zstd_content(bytes, size->0 as usize) == Some(stored(bytes, codec, size)->Ok_0),
        codec == 1 && size is Some && 0 <= size->0 <= isize::MAX && crate::codec::zstd_content(
            bytes,
            size->0 as usize,
        ) is Some && crate::codec::zstd_content(bytes, size->0 as usize)->0.len() == size->0 ==> stored(
            bytes,
            codec,
            size,
        ) is Ok,
        codec != 0 && codec != 1 ==> stored(bytes, codec, size) is Err,
        stored(bytes, codec, size) is Ok && size is Some ==> stored(bytes, codec, size)->Ok_0.len() == size->0,
{
}

/// What is read of an object is accepted if and only if it has the length and
/// the hash of the object.
pub proof fn objects_are_verified_when_read(kind: Seq<char>, id: Seq<char>, bytes: Seq<u8>, size: i64)
    ensures
        object_check(kind, id, bytes, size) is Ok <==> bytes.len() == size && object_hash(kind, bytes) == id,
{
}

/// An object is found in its own row where it has one, and otherwise in its
/// pack, if it is not longer than a pack can be.
pub proof fn rows_come_before_packs(location: Location)
    ensures
        location.loose is Some ==> place_of(location) == Ok::<Place, ErrorV>(Place::Loose(location.loose->0)),
        location.loose is None ==> (place_of(location) is Ok <==> 0 <= location.size <= 8_388_608
            && location.pack is Some),
        location.loose is None && place_of(location) is Ok ==> place_of(location)->Ok_0 == Place::Packed(
            location.pack->0,
        ),
{
}

/// A pack is read if and only if it has at most 8 MiB, opens to the length that
/// is known of it, and has its hash.
pub proof fn packs_are_verified_when_read(bytes: Seq<u8>, size: i64, hash: Seq<u8>)
    ensures
        pack_content(bytes, size, hash) is Ok ==> {
            &&& 0 <= size <= 8_388_608
            &&& stored(bytes, 1, Some(size)) == Ok::<Seq<u8>, ErrorV>(pack_content(bytes, size, hash)->Ok_0)
            &&& crate::encoding::unhex(object_hash("storage-pack"@, pack_content(bytes, size, hash)->Ok_0)) == hash
        },
        0 <= size <= 8_388_608 && stored(bytes, 1, Some(size)) is Ok && crate::encoding::unhex(
            object_hash("storage-pack"@, stored(bytes, 1, Some(size))->Ok_0),
        ) == hash ==> pack_content(bytes, size, hash) is Ok,
{
}

/// An object that is whole in its pack is the bytes at its place there. It is
/// read if and only if that place lies in the pack.
pub proof fn whole_members_are_cut_out_of_their_pack(pack: Seq<u8>, location: Location)
    requires
        location.encoding == 0,
        location.offset is Some,
        pack.len() <= usize::MAX,
    ensures
        ({
            let offset = location.offset->0;
            let length = if location.stored_size is Some {
                location.stored_size->0
            } else {
                location.size
            };
            &&& packed_object(pack, location) is Ok <==> offset >= 0 && length >= 0 && offset + length <= pack.len()
            &&& packed_object(pack, location) is Ok ==> packed_object(pack, location)->Ok_0 == pack.subrange(
                offset as int,
                offset + length,
            )
        }),
{
}

/// An object is read from its row or its pack if and only if what is there can
/// be read, and has the length and the hash of the object. What is read is
/// that.
pub proof fn objects_are_read_where_they_are(
    kind: Seq<char>,
    id: Seq<char>,
    location: Location,
    form: crate::storage::EncodedV,
    pack: Seq<u8>,
)
    ensures
        loose_object(kind, id, location, form) is Ok <==> {
            let found = stored(form.bytes, form.codec, Some(location.size));
            found is Ok && found->Ok_0.len() == location.size && object_hash(kind, found->Ok_0) == id
        },
        loose_object(kind, id, location, form) is Ok ==> loose_object(kind, id, location, form) == stored(
            form.bytes,
            form.codec,
            Some(location.size),
        ),
        member_object(kind, id, location, pack) is Ok <==> {
            let found = packed_object(pack, location);
            found is Ok && found->Ok_0.len() == location.size && object_hash(kind, found->Ok_0) == id
        },
        member_object(kind, id, location, pack) is Ok ==> member_object(kind, id, location, pack) == packed_object(
            pack,
            location,
        ),
{
}

/// The bounds of the hashes with a beginning are that with zeros and with the
/// highest digits after it. There are some if and only if the beginning is one
/// of a hash.
pub proof fn bounds_are_the_first_and_the_last_hash(prefix: Seq<char>)
    ensures
        bounds_of(prefix) is Ok <==> prefix.len() <= 64 && forall|i: int|
            0 <= i < prefix.len() ==> '0' <= #[trigger] prefix[i] <= '9' || 'a' <= prefix[i] <= 'f',
        bounds_of(prefix) is Ok ==> {
            let low = hex(bounds_of(prefix)->Ok_0.0);
            let high = hex(bounds_of(prefix)->Ok_0.1);
            &&& low.len() == 64 && high.len() == 64
            &&& low.take(prefix.len() as int) == prefix && high.take(prefix.len() as int) == prefix
            &&& forall|i: int| prefix.len() <= i < 64 ==> #[trigger] low[i] == '0'
            &&& forall|i: int| prefix.len() <= i < 64 ==> #[trigger] high[i] == 'f'
        },
{
    let low = padded(prefix, '0');
    let high = padded(prefix, 'f');
    hashes_are_kept_as_bytes(low);
    hashes_are_kept_as_bytes(high);
    if bounds_of(prefix) is Ok {
        assert(valid_hash(low));
        assert forall|i: int| 0 <= i < prefix.len() implies '0' <= #[trigger] prefix[i] <= '9' || 'a' <= prefix[i]
            <= 'f' by {
            assert(low[i] == prefix[i]);
            assert(crate::text::lower_hex(low[i]));
        }
        assert(low.take(prefix.len() as int) =~= prefix);
        assert(high.take(prefix.len() as int) =~= prefix);
    }
    if prefix.len() <= 64 && forall|i: int|
        0 <= i < prefix.len() ==> '0' <= #[trigger] prefix[i] <= '9' || 'a' <= prefix[i] <= 'f' {
        assert forall|i: int| 0 <= i < low.len() implies crate::text::lower_hex(#[trigger] low[i]) by {
            if i < prefix.len() {
                assert(low[i] == prefix[i]);
            }
        }
        assert forall|i: int| 0 <= i < high.len() implies crate::text::lower_hex(#[trigger] high[i]) by {
            if i < prefix.len() {
                assert(high[i] == prefix[i]);
            }
        }
    }
}

/// Content that did not change is kept as one copy of what it differs from, in
/// nine bytes.
pub proof fn unchanged_content_is_one_copy(bytes: Seq<u8>)
    requires
        bytes.len() >= 16,
    ensures
        crate::delta::encoded(bytes, bytes).len() == 9,
{
    let at = crate::delta::first_block(bytes, crate::delta::fnv(crate::delta::block(bytes, 0)), 0);
    assert(at == Some(0int));
    assert(crate::delta::matched(bytes, bytes, 0) == Some(0int));
    lemma_common_self(bytes);
    assert(bytes.skip(0) =~= bytes);
    let n = bytes.len() as int;
    reveal_with_fuel(crate::delta::encoded_from, 3);
    assert(crate::delta::encoded_from(bytes, bytes, n, n) == crate::delta::insertion(bytes.skip(n)));
    assert(bytes.skip(n).len() == 0);
    assert(bytes.subrange(0, 0).len() == 0);
    crate::encoding::be32_round_trip(0u32);
    crate::encoding::be32_round_trip(bytes.len() as u32);
}

proof fn lemma_common_self(bytes: Seq<u8>)
    ensures
        crate::delta::common(bytes, bytes) == bytes.len(),
    decreases bytes.len(),
{
    if bytes.len() > 0 {
        lemma_common_self(bytes.drop_first());
    }
}

/// A cache of packs gives what was put in first under a hash that it still
/// holds, and nothing under another.
pub proof fn caches_give_what_was_put_in<T>(entries: Seq<(Seq<u8>, T)>, hash: Seq<u8>, value: T, other: Seq<u8>)
    ensures
        cached(entries.push((hash, value)), other) == (if cached(entries, other) is Some {
            cached(entries, other)
        } else if other == hash {
            Some(value)
        } else {
            None
        }),
        cached(Seq::<(Seq<u8>, T)>::empty(), other) is None,
    decreases entries.len(),
{
    let all = entries.push((hash, value));
    if entries.len() > 0 {
        caches_give_what_was_put_in(entries.drop_first(), hash, value, other);
        assert(all.drop_first() =~= entries.drop_first().push((hash, value)));
        assert(all[0] == entries[0]);
    } else {
        assert(all.drop_first() =~= Seq::<(Seq<u8>, T)>::empty());
        assert(all[0] == (hash, value));
    }
}

/// A record is never longer than what it keeps.
pub proof fn records_are_not_longer(bytes: Seq<u8>, compressed: Seq<u8>)
    ensures
        record_form(bytes, compressed).len() <= bytes.len(),
        record_form(bytes, compressed) != bytes ==> compressed.len() + 12 < bytes.len(),
{
}

/// A cache that keeps a difference is shorter than the record of the whole,
/// and names the hash of what it differs from. Otherwise it is that record.
pub proof fn caches_are_not_longer(
    bytes: Seq<u8>,
    base_id: Seq<char>,
    record: Seq<u8>,
    compressed_delta: Seq<u8>,
)
    ensures
        compressed_delta.len() + 44 >= record.len() ==> cache_form(bytes, base_id, record, compressed_delta) == Ok::<
            Seq<u8>,
            ErrorV,
        >(record),
        compressed_delta.len() + 44 < record.len() ==> (cache_form(bytes, base_id, record, compressed_delta) is Ok
            <==> valid_hash(base_id)),
        cache_form(bytes, base_id, record, compressed_delta) is Ok ==> cache_form(
            bytes,
            base_id,
            record,
            compressed_delta,
        )->Ok_0.len() <= record.len(),
{
    crate::encoding::be64_round_trip(bytes.len() as u64);
}

// Packs

/// When objects are gathered, one that is to stay by itself does, one of more
/// than 8 MiB is left where it is, and any other is packed.
pub proof fn small_objects_are_packed(size: i64, keep: bool)
    ensures
        keep <==> action_for(size, keep) == Action::KeepLoose,
        action_for(size, keep) == Action::Leave <==> !keep && size > 8_388_608,
        action_for(size, keep) == Action::Pack <==> !keep && size <= 8_388_608,
{
}

/// A group goes on as long as it has less than 256 objects and stays within
/// 16 MiB, and the next object has its project and kind.
pub proof fn groups_hold_what_belongs_together(batch: BatchV, namespace: Seq<char>, kind: Seq<char>, size: int)
    requires
        batch.group.len() <= 256,
    ensures
        !must_end(batch, namespace, kind, size) <==> batch.group.len() < 256 && batch.bytes.len() + size <= 16_777_216
            && batch.namespace == namespace && batch.kind == kind,
{
}

/// A group is split if and only if neither form of it fits a pack of 8 MiB.
pub proof fn groups_that_fit_are_not_split(group: Seq<MemberV>, bytes: Seq<u8>)
    ensures
        must_split(group, bytes) <==> bytes.len() > 8_388_608 && delta_payload(group, bytes, group.len() as int).len()
            > 8_388_608,
{
}

/// Of the two forms of a pack, the shorter is taken: differences where they are
/// shorter or there is no other form, and whole objects otherwise.
pub proof fn the_shorter_pack_is_taken(plain_packed: Seq<u8>, delta_packed: Seq<u8>)
    ensures
        plain_packed.len() > 0 && delta_packed.len() > 0 ==> (prefers_delta(plain_packed, delta_packed)
            <==> delta_packed.len() < plain_packed.len()),
        plain_packed.len() == 0 && delta_packed.len() > 0 ==> prefers_delta(plain_packed, delta_packed),
        delta_packed.len() == 0 ==> !prefers_delta(plain_packed, delta_packed),
{
}

/// A group is kept as one pack, in the form that is taken.
pub proof fn groups_are_kept_as_one_pack(
    group: Seq<MemberV>,
    bytes: Seq<u8>,
    plain_packed: Seq<u8>,
    delta_packed: Seq<u8>,
)
    requires
        formed_pack(group, bytes, plain_packed, delta_packed) is Ok,
    ensures
        ({
            let packs = formed_pack(group, bytes, plain_packed, delta_packed)->Ok_0;
            let shorter = delta_packed.len() > 0 && (plain_packed.len() == 0 || delta_packed.len() < plain_packed.len());
            &&& packs.len() == 1
            &&& packs[0].packed == (if shorter {
                delta_packed
            } else {
                plain_packed
            })
            &&& !shorter ==> packs[0].payload == bytes
            &&& crate::codec::zstd_content(packs[0].packed, packs[0].payload.len() as usize) == Some(packs[0].payload)
            &&& packs[0].hash == crate::encoding::unhex(object_hash("storage-pack"@, packs[0].payload))
        }),
{
}

/// A member of a pack of differences is kept as its difference exactly where
/// that is shorter than the object.
pub proof fn members_are_kept_in_the_shorter_form(base: Seq<u8>, object: Seq<u8>)
    ensures
        delta_bytes(base, object).len() <= object.len(),
        delta_encoding(base, object) == 2 || delta_encoding(base, object) == 0,
        delta_encoding(base, object) == 0 ==> delta_bytes(base, object) == object,
        delta_encoding(base, object) == 2 ==> delta_bytes(base, object).len() < object.len() && delta_bytes(base, object)
            == crate::delta::encoded(base, object),
        delta_encoding(base, object) == 0 ==> crate::delta::encoded(base, object).len() >= object.len(),
{
}

// Files in chunks

proof fn lemma_children(children: Seq<FileEntryV>, size: u64, i: int)
    requires
        0 <= i <= children.len(),
        0 <= total_size(children.take(i)) <= u64::MAX,
    ensures
        children_check(children, size, i, total_size(children.take(i))) is Ok <==> total_size(children) == size
            && forall|k: int|
            i <= k < children.len() ==> entry_check(#[trigger] children[k]) is Ok && !children[k].executable
                && children[k].kind != EntryKind::Symlink && children[k].kind != EntryKind::SymlinkDirectory && 0
                < children[k].size < size,
        total_size(children.take(i)) <= total_size(children),
    decreases children.len() - i,
{
    if i == children.len() {
        assert(children.take(i) =~= children);
    } else {
        assert(children.take(i + 1).drop_last() =~= children.take(i));
        if total_size(children.take(i + 1)) <= u64::MAX {
            lemma_children(children, size, i + 1);
        } else {
            lemma_total_grows(children, i + 1);
        }
    }
}

proof fn lemma_total_grows(children: Seq<FileEntryV>, i: int)
    requires
        0 <= i <= children.len(),
    ensures
        total_size(children.take(i)) <= total_size(children),
    decreases children.len() - i,
{
    if i == children.len() {
        assert(children.take(i) =~= children);
    } else {
        assert(children.take(i + 1).drop_last() =~= children.take(i));
        lemma_total_grows(children, i + 1);
    }
}

/// The parts of a file in chunks are accepted if and only if the file is one,
/// its list has at most 16 MiB, there are 2 to 1024 of them, each valid, not a
/// link, not executable, not empty and shorter than the file, and their sizes
/// add up to that of the file. They are taken as they are listed.
pub proof fn chunks_add_up_to_their_file(entry: FileEntryV, length: int, children: Seq<FileEntryV>)
    ensures
        accepted_children(entry, length, children) is Ok <==> {
            &&& entry_check(entry) is Ok && entry.kind == EntryKind::Chunked
            &&& length <= 16_777_216
            &&& 2 <= children.len() <= 1024
            &&& total_size(children) == entry.size
            &&& forall|k: int|
                0 <= k < children.len() ==> entry_check(#[trigger] children[k]) is Ok && !children[k].executable
                    && children[k].kind != EntryKind::Symlink && children[k].kind != EntryKind::SymlinkDirectory && 0
                    < children[k].size < entry.size
        },
        accepted_children(entry, length, children) is Ok ==> accepted_children(entry, length, children)->Ok_0 == children,
{
    assert(children.take(0) =~= Seq::<FileEntryV>::empty());
    lemma_children(children, entry.size, 0);
}

/// A part of a file is there if it is found: in its own size, or in any where
/// it is a tree of chunks, whose parts are then looked for.
pub proof fn parts_are_looked_for(part: FileEntryV, size: Option<u64>)
    ensures
        part_check(part, size) is Ok <==> size is Some && (part.kind == EntryKind::Chunked || size->0 == part.size),
        part_check(part, size) is Ok ==> (part_check(part, size)->Ok_0 <==> part.kind == EntryKind::Chunked),
{
}

/// A file of at most 16 MiB is read at once, and a longer one in chunks of
/// 4 MiB, the last of which has what is left.
pub proof fn long_files_are_read_in_chunks(size: u64, remaining: u64)
    ensures
        size <= 16_777_216 ==> chunk_length(size, remaining) == size,
        size > 16_777_216 && remaining >= 4_194_304 ==> chunk_length(size, remaining) == 4_194_304,
        size > 16_777_216 && remaining < 4_194_304 ==> chunk_length(size, remaining) == remaining,
{
}

proof fn lemma_split_lengths(size: u64, rest: Seq<u8>)
    requires
        size > 16_777_216,
        rest.len() <= size,
    ensures
        ({
            let list = split_from(size, rest);
            &&& list.len() > 0
            &&& forall|i: int| 0 <= i < list.len() - 1 ==> (#[trigger] list[i]).len() == 4_194_304
            &&& list.last().len() <= 4_194_304
        }),
    decreases rest.len(),
{
    let length = chunk_length(size, rest.len() as u64);
    if !(length <= 0 || length >= rest.len()) {
        let tail = split_from(size, rest.skip(length));
        lemma_split_lengths(size, rest.skip(length));
        let list = split_from(size, rest);
        assert(list == seq![rest.take(length)] + tail);
        assert forall|i: int| 0 <= i < list.len() - 1 implies (#[trigger] list[i]).len() == 4_194_304 by {
            if i > 0 {
                assert(list[i] == tail[i - 1]);
            }
        }
        assert(list.last() == tail.last());
    }
}

/// A file of at most 16 MiB is one chunk. All chunks of a longer file but the
/// last have 4 MiB, and the last has no more.
pub proof fn chunks_have_one_length(bytes: Seq<u8>)
    requires
        bytes.len() <= u64::MAX,
    ensures
        bytes.len() <= 16_777_216 ==> chunks_of(bytes) == seq![bytes],
        bytes.len() > 16_777_216 ==> {
            &&& forall|i: int| 0 <= i < chunks_of(bytes).len() - 1 ==> (#[trigger] chunks_of(bytes)[i]).len() == 4_194_304
            &&& chunks_of(bytes).last().len() <= 4_194_304
        },
{
    if bytes.len() > 16_777_216 {
        lemma_split_lengths(bytes.len() as u64, bytes);
    }
}

// Reading files in batches

/// The sizes of some files in a row.
pub open spec fn run_of(sizes: Seq<u64>, from: int, to: int) -> int
    decreases to - from,
{
    if to <= from {
        0
    } else {
        run_of(sizes, from, to - 1) + sizes[to - 1]
    }
}

proof fn lemma_batch(sizes: Seq<u64>, offset: int, end: int)
    requires
        0 <= offset <= end <= sizes.len(),
        end - offset <= 16,
        end > offset + 1 ==> run_of(sizes, offset, end) <= 33_554_432,
    ensures
        ({
            let stop = batch_from(sizes, offset, end, run_of(sizes, offset, end));
            &&& end <= stop <= sizes.len()
            &&& stop - offset <= 16
            &&& stop > offset + 1 ==> run_of(sizes, offset, stop) <= 33_554_432
            &&& stop == sizes.len() || stop - offset == 16 || stop > offset && run_of(sizes, offset, stop + 1)
                > 33_554_432
        }),
    decreases sizes.len() - end,
{
    if !(end >= sizes.len() || end - offset >= 16) && !(end > offset && run_of(sizes, offset, end) + sizes[end]
        > 33_554_432) {
        lemma_batch(sizes, offset, end + 1);
    }
}

/// Files are read in batches of at most 16 that have at most 32 MiB together,
/// where they are more than one. A batch ends only where the files do, or where
/// one more would be too much.
pub proof fn batches_are_as_long_as_they_can_be(sizes: Seq<u64>, offset: int)
    requires
        0 <= offset <= sizes.len(),
    ensures
        ({
            let end = batch_from(sizes, offset, offset, 0);
            &&& offset <= end <= sizes.len()
            &&& offset < sizes.len() ==> offset < end
            &&& end - offset <= 16
            &&& end > offset + 1 ==> run_of(sizes, offset, end) <= 33_554_432
            &&& end == sizes.len() || end - offset == 16 || run_of(sizes, offset, end + 1) > 33_554_432
        }),
{
    lemma_batch(sizes, offset, offset);
}

/// What is read of a compressed record has the length that the record says,
/// and what the differences of a pack differ from is there only behind its mark.
pub proof fn marks_and_lengths_are_checked(record: Seq<u8>, pack: Seq<u8>)
    ensures
        record_content(record) is Ok && record.len() >= 4 && record.take(4) == seq![75u8, 90u8, 48u8, 49u8]
            ==> record.len() >= 12 && record_content(record)->Ok_0.len() == crate::encoding::unbe64(
            record.subrange(4, 12),
        ),
        !(record.len() >= 4 && record.take(4) == seq![75u8, 90u8, 48u8, 49u8]) ==> record_content(record) == Ok::<
            Seq<u8>,
            ErrorV,
        >(record),
        pack_base(pack) is Ok ==> pack.len() >= 8 && pack.take(4) == seq![75u8, 68u8, 80u8, 49u8] && pack_base(
            pack,
        )->Ok_0.len() == crate::encoding::unbe32(pack.subrange(4, 8)),
{
}

} // verus!
