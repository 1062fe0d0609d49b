//! What goes over the wire in batches of objects.
use vstd::prelude::*;
use vstd::utf8::*;

use crate::encoding::{be32, unbe32};
use crate::error::ErrorV;
use crate::objects::{object_hash, valid_hash};
use crate::server::{batch_bytes, download_check};
use crate::transfer::{
    batch_header, framed, framed_from, key_check, keys_check, keys_of_objects, kind_byte, object_record, parsed_from,
    record_check, record_object, request_check, unframed, Info, KeyV, ObjectV,
};

verus! {

// Requests

proof fn lemma_keys_checked(keys: Seq<KeyV>, i: int)
    requires
        0 <= i <= keys.len(),
    ensures
        keys_check(keys, i) is Ok <==> forall|j: int|
            i <= j < keys.len() ==> key_check(#[trigger] keys[j]) is Ok && !keys.take(j).contains(keys[j]),
    decreases keys.len() - i,
{
    if i < keys.len() {
        lemma_keys_checked(keys, i + 1);
    }
}

/// A request is accepted if and only if it asks for at most 128 objects, each
/// once, each a blob or a transaction under a hash.
pub proof fn requests_name_each_object_once(keys: Seq<KeyV>)
    ensures
        request_check(keys) is Ok <==> {
            &&& keys.len() <= 128
            &&& forall|i: int|
                0 <= i < keys.len() ==> ((#[trigger] keys[i]).kind == "blob"@ || keys[i].kind == "transaction"@)
                    && valid_hash(keys[i].id)
            &&& forall|i: int, j: int| 0 <= i < j < keys.len() ==> #[trigger] keys[i] != #[trigger] keys[j]
        },
{
    lemma_keys_checked(keys, 0);
    if request_check(keys) is Ok {
        assert forall|i: int| 0 <= i < keys.len() implies ((#[trigger] keys[i]).kind == "blob"@ || keys[i].kind
            == "transaction"@) && valid_hash(keys[i].id) by {
            assert(key_check(keys[i]) is Ok);
        }
        assert forall|i: int, j: int| 0 <= i < j < keys.len() implies #[trigger] keys[i] != #[trigger] keys[j] by {
            assert(!keys.take(j).contains(keys[j]));
            assert(keys.take(j)[i] == keys[i]);
        }
    }
    if keys.len() <= 128 && (forall|i: int|
        0 <= i < keys.len() ==> ((#[trigger] keys[i]).kind == "blob"@ || keys[i].kind == "transaction"@) && valid_hash(
            keys[i].id,
        )) && forall|i: int, j: int| 0 <= i < j < keys.len() ==> #[trigger] keys[i] != #[trigger] keys[j] {
        assert forall|j: int| 0 <= j < keys.len() implies key_check(#[trigger] keys[j]) is Ok && !keys.take(j).contains(
            keys[j],
        ) by {
            let head = keys.take(j);
            if head.contains(keys[j]) {
                let i = choose|i: int| 0 <= i < head.len() && head[i] == keys[j];
                assert(keys[i] != keys[j]);
            }
        }
    }
}

// Batches

/// How long the batch of some objects is: four bytes, and for each object its
/// content and 69 bytes.
pub open spec fn batch_length(objects: Seq<ObjectV>) -> int
    decreases objects.len(),
{
    if objects.len() == 0 {
        4
    } else {
        batch_length(objects.drop_last()) + 69 + objects.last().bytes.len()
    }
}

proof fn lemma_longer(objects: Seq<ObjectV>, i: int)
    requires
        0 <= i <= objects.len(),
    ensures
        batch_length(objects.take(i)) <= batch_length(objects),
        i < objects.len() ==> batch_length(objects.take(i + 1)) == batch_length(objects.take(i)) + 69
            + objects[i].bytes.len(),
    decreases objects.len() - i,
{
    if i == objects.len() {
        assert(objects.take(i) =~= objects);
    } else {
        lemma_longer(objects, i + 1);
        assert(objects.take(i + 1).drop_last() =~= objects.take(i));
    }
}

proof fn lemma_record_length(object: ObjectV)
    requires
        valid_hash(object.key.id),
    ensures
        object_record(object).len() == 69 + object.bytes.len(),
{
    assert(is_ascii_chars(object.key.id)) by {
        assert forall|i: int| 0 <= i < object.key.id.len() implies '\0' <= #[trigger] object.key.id[i] <= '\u{7f}' by {
            assert(crate::text::lower_hex(object.key.id[i]));
        }
    }
    is_ascii_chars_encode_utf8(object.key.id);
}

/// An object fits a batch: a blob of at most 16 MiB or a transaction of at
/// most 2 MiB, under the hash of its content.
pub open spec fn sendable(object: ObjectV) -> bool {
    &&& object.key.kind == "blob"@ ==> object.bytes.len() <= 16_777_216
    &&& object.key.kind != "blob"@ ==> object.bytes.len() <= 2_097_152
    &&& object_hash(object.key.kind, object.bytes) == object.key.id
}

proof fn lemma_framed_from(objects: Seq<ObjectV>, i: int, raw: Seq<u8>)
    requires
        0 <= i <= objects.len(),
        raw.len() == batch_length(objects.take(i)),
        raw.len() <= 33_554_432,
        forall|j: int| i <= j < objects.len() ==> valid_hash((#[trigger] objects[j]).key.id),
    ensures
        framed_from(objects, i, raw) is Ok <==> batch_length(objects) <= 33_554_432 && forall|j: int|
            i <= j < objects.len() ==> sendable(#[trigger] objects[j]),
        framed_from(objects, i, raw) is Ok ==> framed_from(objects, i, raw)->Ok_0.len() == batch_length(objects),
    decreases objects.len() - i,
{
    lemma_longer(objects, i);
    if i == objects.len() {
        assert(objects.take(i) =~= objects);
    } else {
        lemma_record_length(objects[i]);
        lemma_longer(objects, i + 1);
        if raw.len() + 69 + objects[i].bytes.len() <= 33_554_432 {
            lemma_framed_from(objects, i + 1, raw + object_record(objects[i]));
        }
    }
}

/// Objects can be sent together if and only if they can be asked for together,
/// each fits, and the batch has at most 32 MiB.
pub proof fn batches_hold_what_fits(objects: Seq<ObjectV>)
    ensures
        framed(objects) is Ok <==> {
            &&& request_check(keys_of_objects(objects)) is Ok
            &&& forall|i: int| 0 <= i < objects.len() ==> sendable(#[trigger] objects[i])
            &&& batch_length(objects) <= 33_554_432
        },
        framed(objects) is Ok ==> framed(objects)->Ok_0.len() == batch_length(objects),
{
    let keys = keys_of_objects(objects);
    if request_check(keys) is Ok {
        requests_name_each_object_once(keys);
        assert forall|j: int| 0 <= j < objects.len() implies valid_hash((#[trigger] objects[j]).key.id) by {
            assert(keys[j] == objects[j].key);
        }
        assert(objects.take(0) =~= Seq::<ObjectV>::empty());
        lemma_framed_from(objects, 0, batch_header());
    }
}

proof fn lemma_number_read(bytes: Seq<u8>)
    requires
        bytes.len() == 4,
    ensures
        0 <= unbe32(bytes) <= u32::MAX,
        be32(unbe32(bytes) as u32) == bytes,
{
    let n = unbe32(bytes);
    assert(n / 16777216 == bytes[0]);
    assert(n / 65536 == bytes[0] * 256 + bytes[1]);
    assert(n / 65536 % 256 == bytes[1]);
    assert(n / 256 == bytes[0] * 65536 + bytes[1] * 256 + bytes[2]);
    assert(n / 256 % 256 == bytes[2]);
    assert(n % 256 == bytes[3]);
    assert(be32(n as u32) =~= bytes);
}

proof fn lemma_record_read(input: Seq<u8>)
    requires
        input.len() > 0,
        record_check(input) is Ok,
    ensures
        ({
            let n = 69 + unbe32(input.subrange(65, 69));
            &&& 69 <= n <= input.len()
            &&& object_record(record_object(input)) == input.take(n)
            &&& sendable(record_object(input))
            &&& record_object(input).bytes.len() == n - 69
        }),
{
    reveal_strlit("blob");
    reveal_strlit("transaction");
    assert("blob"@.len() != "transaction"@.len());
    let object = record_object(input);
    let length = unbe32(input.subrange(65, 69));
    lemma_number_read(input.subrange(65, 69));
    decode_utf8_encode_utf8(input.subrange(1, 65));
    assert(kind_byte(object.key.kind) == input[0]);
    assert(object.bytes.len() == length);
    assert(object_record(object) =~= input.take(69 + length));
}

proof fn lemma_parsed_from(input: Seq<u8>, earlier: Seq<ObjectV>, raw: Seq<u8>)
    requires
        parsed_from(input, earlier) is Ok,
        raw.len() + input.len() <= 33_554_432,
    ensures
        ({
            let objects = parsed_from(input, earlier)->Ok_0;
            &&& earlier.len() <= objects.len()
            &&& objects.take(earlier.len() as int) == earlier
            &&& framed_from(objects, earlier.len() as int, raw) == Ok::<Seq<u8>, ErrorV>(raw + input)
        }),
    decreases input.len(),
{
    let objects = parsed_from(input, earlier)->Ok_0;
    let n = earlier.len() as int;
    if input.len() == 0 {
        assert(objects.take(n) =~= earlier);
        assert(raw + input =~= raw);
    } else {
        lemma_record_read(input);
        let object = record_object(input);
        let length = 69 + unbe32(input.subrange(65, 69));
        let rest = input.skip(length);
        let more = earlier.push(object);
        lemma_parsed_from(rest, more, raw + object_record(object));
        assert(objects.take(n) =~= objects.take(n + 1).take(n));
        assert(more.take(n) =~= earlier);
        assert(objects[n] == objects.take(n + 1)[n]);
        assert(objects[n] == object);
        assert(raw + object_record(object) + rest =~= raw + input);
    }
}

/// A batch is read if and only if it is what some objects are sent as, and
/// what is read is those objects.
pub proof fn batches_are_read_as_they_were_sent(raw: Seq<u8>, objects: Seq<ObjectV>)
    requires
        raw.len() <= 33_554_432,
        unframed(raw) == Ok::<Seq<ObjectV>, ErrorV>(objects),
    ensures
        framed(objects) == Ok::<Seq<u8>, ErrorV>(raw),
{
    lemma_parsed_from(raw.skip(4), Seq::empty(), raw.take(4));
    assert(raw.take(4) + raw.skip(4) =~= raw);
}

/// The sizes of objects that were found.
pub open spec fn describes(infos: Seq<Info>, objects: Seq<ObjectV>) -> bool {
    &&& infos.len() == objects.len()
    &&& forall|i: int| 0 <= i < infos.len() ==> (#[trigger] infos[i]).size is Some && infos[i].size->0 == objects[i].bytes.len()
}

proof fn lemma_batch_bytes(infos: Seq<Info>, objects: Seq<ObjectV>)
    requires
        describes(infos, objects),
    ensures
        batch_bytes(infos) == batch_length(objects),
    decreases infos.len(),
{
    if infos.len() > 0 {
        let a = infos.drop_last();
        let b = objects.drop_last();
        assert forall|i: int| 0 <= i < a.len() implies (#[trigger] a[i]).size is Some && a[i].size->0 == b[i].bytes.len() by {
            assert(infos[i].size is Some);
        }
        lemma_batch_bytes(a, b);
        assert(infos[infos.len() - 1].size is Some);
    }
}

proof fn lemma_download(infos: Seq<Info>, i: int)
    requires
        0 <= i <= infos.len(),
    ensures
        download_check(infos, i) is Ok <==> batch_bytes(infos) <= 33_554_432 && forall|j: int|
            i <= j < infos.len() ==> (#[trigger] infos[j]).size is Some,
    decreases infos.len() - i,
{
    if i < infos.len() {
        lemma_download(infos, i + 1);
    }
}

/// Objects that are there can be fetched together if and only if their batch
/// is not too long to be sent. An object that is missing stops the download.
pub proof fn downloads_fit_a_batch(infos: Seq<Info>, objects: Seq<ObjectV>, i: int)
    ensures
        describes(infos, objects) ==> (download_check(infos, 0) is Ok <==> batch_length(objects) <= 33_554_432),
        0 <= i < infos.len() && infos[i].size is None ==> download_check(infos, 0) is Err,
{
    lemma_download(infos, 0);
    if describes(infos, objects) {
        lemma_batch_bytes(infos, objects);
    }
}

} // verus!
