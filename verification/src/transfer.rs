//! Bounded, compressed batches of objects. Each object is still verified and
//! stored by its own hash; batching does not affect transactions.
use vstd::prelude::*;
use vstd::string::*;
use vstd::utf8::*;

use crate::codec::{compress, decompress, opens_to, zstd_content, zstd_frame};
use crate::collections::Value;
use crate::encoding::{be32, push_be32, read_be32, unbe32};
use crate::error::{about, outcome, plain, verdict, Error, ErrorV, Problem};
use crate::objects::{hash_check, object_hash, object_id, valid_hash, validate_hash, MAX_BLOB_BYTES, MAX_METADATA_BYTES};
use crate::text::{push_bytes, same_text, utf8_text};

verus! {

pub const MAX_OBJECTS: usize = 128;

/// 32 MiB
pub const MAX_PACK_BYTES: usize = 33_554_432;

// Keys

/// What an object is and which one.
#[derive(Debug)]
pub struct Key {
    pub kind: String,
    pub id: String,
}

/// The mathematical value of a `Key`.
#[verifier::ext_equal]
pub struct KeyV {
    pub kind: Seq<char>,
    pub id: Seq<char>,
}

impl View for Key {
    type V = KeyV;

    open spec fn view(&self) -> KeyV {
        KeyV {
            kind: self.kind@,
            id: self.id@,
        }
    }
}

impl DeepView for Key {
    type V = KeyV;

    open spec fn deep_view(&self) -> KeyV {
        self@
    }
}

impl Value for Key {
    fn copied(&self) -> (result: Self) {
        Key {
            kind: self.kind.clone(),
            id: self.id.clone(),
        }
    }

    fn same(&self, other: &Self) -> (result: bool) {
        self.kind.same(&other.kind)
            && self.id.same(&other.id)
    }
}

impl Clone for Key {
    fn clone(&self) -> (result: Self)
        ensures
            result@ == self@,
    {
        self.copied()
    }
}

impl PartialEq for Key {
    fn eq(&self, other: &Key) -> (result: bool) {
        self.same(other)
    }
}

impl vstd::std_specs::cmp::PartialEqSpecImpl for Key {
    open spec fn obeys_eq_spec() -> bool {
        true
    }

    open spec fn eq_spec(&self, other: &Key) -> bool {
        self@ == other@
    }
}

pub open spec fn key_check(key: KeyV) -> Result<(), ErrorV> {
    if key.kind != "blob"@ && key.kind != "transaction"@ {
        Err(plain(Problem::UnsupportedBatchKind))
    } else {
        hash_check(key.id)
    }
}

/// The size limit of a kind of object.
pub open spec fn limit_of(kind: Seq<char>) -> usize {
    if kind == "blob"@ {
        MAX_BLOB_BYTES
    } else {
        MAX_METADATA_BYTES
    }
}

impl Key {
    pub fn validate(&self) -> (result: Result<(), Error>)
        ensures
            verdict(result) == key_check(self@),
    {
        if !same_text(self.kind.as_str(), "blob") && !same_text(self.kind.as_str(), "transaction") {
            return Err(Error::plain(Problem::UnsupportedBatchKind));
        }
        validate_hash(self.id.as_str())
    }

    /// The size limit of the object.
    pub fn limit(&self) -> (bytes: usize)
        ensures
            bytes == limit_of(self@.kind),
    {
        if same_text(self.kind.as_str(), "blob") {
            MAX_BLOB_BYTES
        } else {
            MAX_METADATA_BYTES
        }
    }
}

/// Objects that a client asks for.
#[derive(Debug)]
pub struct Request {
    pub objects: Vec<Key>,
}

/// The keys of a list.
pub open spec fn keys_in(list: Seq<Key>) -> Seq<KeyV> {
    Seq::new(list.len(), |i: int| list[i]@)
}

/// What is wrong with the keys from `i` on.
pub open spec fn keys_check(keys: Seq<KeyV>, i: int) -> Result<(), ErrorV>
    decreases keys.len() - i,
{
    if i >= keys.len() {
        Ok(())
    } else {
        match key_check(keys[i]) {
            Err(error) => Err(error),
            Ok(()) => if keys.take(i).contains(keys[i]) {
                Err(plain(Problem::DuplicateObject))
            } else {
                keys_check(keys, i + 1)
            },
        }
    }
}

/// What is wrong with a request.
pub open spec fn request_check(keys: Seq<KeyV>) -> Result<(), ErrorV> {
    if keys.len() > MAX_OBJECTS {
        Err(plain(Problem::BatchTooManyObjects))
    } else {
        keys_check(keys, 0)
    }
}

fn seen_before(keys: &[Key], i: usize) -> (result: bool)
    requires
        i < keys@.len(),
    ensures
        result == keys_in(keys@).take(i as int).contains(keys_in(keys@)[i as int]),
{
    let ghost all = keys_in(keys@);
    let mut j: usize = 0;
    while j < i
        invariant
            j <= i < keys@.len(),
            all == keys_in(keys@),
            forall|k: int| 0 <= k < j ==> #[trigger] all[k] != all[i as int],
        decreases i - j,
    {
        if keys[j].same(&keys[i]) {
            assert(all.take(i as int)[j as int] == all[i as int]);
            return true;
        }
        j += 1;
    }
    proof {
        if all.take(i as int).contains(all[i as int]) {
            let k = choose|k: int| 0 <= k < i && all.take(i as int)[k] == all[i as int];
            assert(all[k] == all[i as int]);
        }
    }
    false
}

fn check_keys(keys: &[Key]) -> (result: Result<(), Error>)
    ensures
        verdict(result) == request_check(keys_in(keys@)),
{
    if keys.len() > MAX_OBJECTS {
        return Err(Error::plain(Problem::BatchTooManyObjects));
    }
    let mut i: usize = 0;
    while i < keys.len()
        invariant
            i <= keys@.len(),
            request_check(keys_in(keys@)) == keys_check(keys_in(keys@), i as int),
        decreases keys@.len() - i,
    {
        keys[i].validate()?;
        if seen_before(keys, i) {
            return Err(Error::plain(Problem::DuplicateObject));
        }
        i += 1;
    }
    Ok(())
}

impl Request {
    pub fn validate(&self) -> (result: Result<(), Error>)
        ensures
            verdict(result) == request_check(keys_in(self.objects@)),
    {
        check_keys(self.objects.as_slice())
    }
}

/// Whether a server has an object, how large it is, and how many storage nodes
/// keep it.
#[derive(Debug)]
pub struct Info {
    pub object: Key,
    pub size: Option<u64>,
    pub copies: usize,
}

/// An object with its key.
#[derive(Debug)]
pub struct Object {
    pub key: Key,
    pub bytes: Vec<u8>,
}

/// The mathematical value of a `Object`.
#[verifier::ext_equal]
pub struct ObjectV {
    pub key: KeyV,
    pub bytes: Seq<u8>,
}

impl View for Object {
    type V = ObjectV;

    open spec fn view(&self) -> ObjectV {
        ObjectV {
            key: self.key@,
            bytes: self.bytes@,
        }
    }
}

impl DeepView for Object {
    type V = ObjectV;

    open spec fn deep_view(&self) -> ObjectV {
        self@
    }
}

impl Clone for Object {
    fn clone(&self) -> (result: Self)
        ensures
            result@ == self@,
    {
        let mut bytes: Vec<u8> = Vec::new();
        push_bytes(&mut bytes, self.bytes.as_slice());
        assert(bytes@ =~= self.bytes@);
        Object { key: self.key.clone(), bytes }
    }
}

/// The values of a list of objects.
pub open spec fn objects_in(list: Seq<Object>) -> Seq<ObjectV> {
    Seq::new(list.len(), |i: int| list[i]@)
}

/// The keys of a list of objects.
pub open spec fn keys_of_objects(list: Seq<ObjectV>) -> Seq<KeyV> {
    list.map_values(|object: ObjectV| object.key)
}

fn keys_for(objects: &[Object]) -> (keys: Vec<Key>)
    ensures
        keys_in(keys@) == keys_of_objects(objects_in(objects@)),
{
    let mut keys: Vec<Key> = Vec::new();
    let mut i: usize = 0;
    while i < objects.len()
        invariant
            i <= objects@.len(),
            keys_in(keys@) == keys_of_objects(objects_in(objects@)).take(i as int),
        decreases objects@.len() - i,
    {
        let ghost so_far = keys_in(keys@);
        let ghost all = keys_of_objects(objects_in(objects@));
        keys.push(objects[i].key.clone());
        assert(keys_in(keys@) =~= so_far.push(all[i as int]));
        assert(all.take(i + 1) =~= all.take(i as int).push(all[i as int]));
        i += 1;
    }
    assert(keys_of_objects(objects_in(objects@)).take(i as int) =~= keys_of_objects(objects_in(objects@)));
    keys
}

// Framing

/// `KLP1`
pub open spec fn batch_header() -> Seq<u8> {
    seq![75u8, 76u8, 80u8, 49u8]
}

pub open spec fn kind_byte(kind: Seq<char>) -> u8 {
    if kind == "blob"@ {
        0
    } else {
        1
    }
}

/// One object of a batch: its kind, its hash, its length and its bytes.
pub open spec fn object_record(object: ObjectV) -> Seq<u8> {
    seq![kind_byte(object.key.kind)] + encode_utf8(object.key.id) + be32(object.bytes.len() as u32) + object.bytes
}

/// Append the records of the objects from `i` on.
pub open spec fn framed_from(objects: Seq<ObjectV>, i: int, raw: Seq<u8>) -> Result<Seq<u8>, ErrorV>
    decreases objects.len() - i,
{
    if i >= objects.len() {
        Ok(raw)
    } else if objects[i].bytes.len() > limit_of(objects[i].key.kind) {
        Err(plain(Problem::ObjectTooLarge))
    } else if object_hash(objects[i].key.kind, objects[i].bytes) != objects[i].key.id {
        Err(plain(Problem::ObjectHashMismatch))
    } else if raw.len() + 69 + objects[i].bytes.len() > MAX_PACK_BYTES {
        Err(plain(Problem::BatchTooLarge))
    } else {
        framed_from(objects, i + 1, raw + object_record(objects[i]))
    }
}

/// The uncompressed form of a batch.
pub open spec fn framed(objects: Seq<ObjectV>) -> Result<Seq<u8>, ErrorV> {
    match request_check(keys_of_objects(objects)) {
        Err(error) => Err(error),
        Ok(()) => framed_from(objects, 0, batch_header()),
    }
}

proof fn lemma_hash_bytes(id: Seq<char>)
    requires
        valid_hash(id),
    ensures
        encode_utf8(id).len() == 64,
        valid_utf8(encode_utf8(id)),
        decode_utf8(encode_utf8(id)) == id,
{
    assert(is_ascii_chars(id)) by {
        assert forall|i: int| 0 <= i < id.len() implies '\0' <= #[trigger] id[i] <= '\u{7f}' by {
            assert(crate::text::lower_hex(id[i]));
        }
    }
    is_ascii_chars_encode_utf8(id);
    encode_utf8_valid_utf8(id);
    encode_utf8_decode_utf8(id);
}

proof fn lemma_keys_ok(keys: Seq<KeyV>, i: int, j: int)
    requires
        0 <= i <= j < keys.len(),
        keys_check(keys, i) is Ok,
    ensures
        key_check(keys[j]) is Ok,
        keys_check(keys, j) is Ok,
    decreases j - i,
{
    if i < j {
        lemma_keys_ok(keys, i + 1, j);
    }
}

/// The uncompressed form of a batch.
pub fn frame(objects: &[Object]) -> (result: Result<Vec<u8>, Error>)
    ensures
        outcome(result) == framed(objects_in(objects@)),
        result matches Ok(raw) ==> raw@.len() <= MAX_PACK_BYTES,
{
    let keys = keys_for(objects);
    check_keys(keys.as_slice())?;
    let ghost all = objects_in(objects@);
    let mut raw: Vec<u8> = Vec::new();
    raw.push(75);
    raw.push(76);
    raw.push(80);
    raw.push(49);
    assert(raw@ =~= batch_header());
    let mut i: usize = 0;
    while i < objects.len()
        invariant
            i <= objects@.len(),
            all == objects_in(objects@),
            keys_check(keys_of_objects(all), 0) is Ok,
            raw@.len() <= MAX_PACK_BYTES,
            framed(all) == framed_from(all, i as int, raw@),
        decreases objects@.len() - i,
    {
        let object = &objects[i];
        let ghost before_step = raw@;
        proof {
            lemma_keys_ok(keys_of_objects(all), 0, i as int);
            assert(keys_of_objects(all)[i as int] == object@.key);
            lemma_hash_bytes(object@.key.id);
        }
        let length: usize = object.bytes.len();
        if length > object.key.limit() {
            return Err(Error::plain(Problem::ObjectTooLarge));
        }
        let actual = object_id(object.key.kind.as_str(), object.bytes.as_slice());
        if actual != object.key.id {
            return Err(Error::plain(Problem::ObjectHashMismatch));
        }
        if raw.len() + 69 + length > MAX_PACK_BYTES {
            return Err(Error::plain(Problem::BatchTooLarge));
        }
        raw.push(if same_text(object.key.kind.as_str(), "blob") { 0 } else { 1 });
        push_bytes(&mut raw, object.key.id.as_str().as_bytes());
        push_be32(&mut raw, length as u32);
        push_bytes(&mut raw, object.bytes.as_slice());
        assert(raw@ =~= before_step + object_record(object@));
        i += 1;
    }
    assert(raw.deep_view() =~= raw@);
    Ok(raw)
}

/// Pack objects for transfer. Compression can fail for want of memory.
pub fn encode(objects: &[Object]) -> (result: Result<Vec<u8>, Error>)
    ensures
        match framed(objects_in(objects@)) {
            Err(error) => result matches Err(found) && found@ == error,
            Ok(raw) => match result {
                Ok(bytes) => bytes@ == zstd_frame(raw, 1) && opens_to(bytes@, raw),
                Err(error) => error@ == plain(Problem::CompressionFailed),
            },
        },
{
    let raw = frame(objects)?;
    assert(raw.deep_view() =~= raw@);
    match compress(raw.as_slice(), 1) {
        Some(bytes) => Ok(bytes),
        None => Err(Error::plain(Problem::CompressionFailed)),
    }
}

/// The kind that a byte of a batch stands for.
pub open spec fn kind_of_byte(byte: u8) -> Seq<char> {
    if byte == 0 {
        "blob"@
    } else {
        "transaction"@
    }
}

/// What is wrong with the first record of `input`, up to its bytes.
pub open spec fn record_check(input: Seq<u8>) -> Result<(), ErrorV> {
    if input[0] != 0 && input[0] != 1 {
        Err(plain(Problem::InvalidObjectKind))
    } else if input.len() < 65 {
        Err(plain(Problem::TruncatedBatch))
    } else if !valid_utf8(input.subrange(1, 65)) {
        Err(plain(Problem::InvalidBatchText))
    } else if !valid_hash(decode_utf8(input.subrange(1, 65))) {
        Err(about(Problem::InvalidObjectId, decode_utf8(input.subrange(1, 65))))
    } else if input.len() < 69 {
        Err(plain(Problem::TruncatedBatch))
    } else if unbe32(input.subrange(65, 69)) > limit_of(kind_of_byte(input[0])) || unbe32(
        input.subrange(65, 69),
    ) > input.len() - 69 {
        Err(plain(Problem::InvalidObjectLength))
    } else if object_hash(
        kind_of_byte(input[0]),
        input.subrange(69, 69 + unbe32(input.subrange(65, 69))),
    ) != decode_utf8(input.subrange(1, 65)) {
        Err(plain(Problem::BatchHashMismatch))
    } else {
        Ok(())
    }
}

/// The object that a record holds.
pub open spec fn record_object(input: Seq<u8>) -> ObjectV {
    ObjectV {
        key: KeyV { kind: kind_of_byte(input[0]), id: decode_utf8(input.subrange(1, 65)) },
        bytes: input.subrange(69, 69 + unbe32(input.subrange(65, 69))),
    }
}

/// The objects of the records in `input`, after those in `objects`.
pub open spec fn parsed_from(input: Seq<u8>, objects: Seq<ObjectV>) -> Result<Seq<ObjectV>, ErrorV>
    decreases input.len(),
{
    if input.len() == 0 {
        Ok(objects)
    } else if objects.len() >= MAX_OBJECTS {
        Err(plain(Problem::BatchOverfull))
    } else {
        match record_check(input) {
            Err(error) => Err(error),
            Ok(()) => parsed_from(
                input.skip(69 + unbe32(input.subrange(65, 69))),
                objects.push(record_object(input)),
            ),
        }
    }
}

/// The objects of an uncompressed batch.
pub open spec fn unframed(raw: Seq<u8>) -> Result<Seq<ObjectV>, ErrorV> {
    if raw.len() < 4 || raw.take(4) != batch_header() {
        Err(plain(Problem::InvalidBatchHeader))
    } else {
        match parsed_from(raw.skip(4), Seq::empty()) {
            Err(error) => Err(error),
            Ok(objects) => match request_check(keys_of_objects(objects)) {
                Err(error) => Err(error),
                Ok(()) => Ok(objects),
            },
        }
    }
}

/// The objects of a batch.
pub open spec fn unpacked(bytes: Seq<u8>) -> Result<Seq<ObjectV>, ErrorV> {
    match zstd_content(bytes, MAX_PACK_BYTES) {
        Some(raw) => unframed(raw),
        None => Err(plain(Problem::DecompressionFailed)),
    }
}

fn read_record(raw: &[u8], at: usize) -> (result: Result<Object, Error>)
    requires
        at < raw@.len(),
    ensures
        match result {
            Ok(object) => record_check(raw@.skip(at as int)) is Ok && object@ == record_object(raw@.skip(at as int)),
            Err(error) => record_check(raw@.skip(at as int)) == Err::<(), ErrorV>(error@),
        },
{
    let ghost input = raw@.skip(at as int);
    assert(raw@.len() == raw.len());
    let tag: u8 = raw[at];
    assert(input[0] == tag);
    if tag != 0 && tag != 1 {
        return Err(Error::plain(Problem::InvalidObjectKind));
    }
    if raw.len() - at < 65 {
        return Err(Error::plain(Problem::TruncatedBatch));
    }
    let mut hash: Vec<u8> = Vec::new();
    push_bytes(&mut hash, vstd::slice::slice_subrange(raw, at + 1, at + 65));
    assert(hash@ =~= input.subrange(1, 65));
    let id = match utf8_text(hash) {
        Some(id) => id,
        None => {
            return Err(Error::plain(Problem::InvalidBatchText));
        },
    };
    validate_hash(id.as_str())?;
    if raw.len() - at < 69 {
        return Err(Error::plain(Problem::TruncatedBatch));
    }
    let length: usize = read_be32(raw, at + 65) as usize;
    assert(raw@.subrange(at + 65, at + 69) =~= input.subrange(65, 69));
    let kind = if tag == 0 { "blob" } else { "transaction" };
    let key = Key { kind: kind.to_owned(), id };
    if length > key.limit() || length > raw.len() - at - 69 {
        return Err(Error::plain(Problem::InvalidObjectLength));
    }
    let mut bytes: Vec<u8> = Vec::new();
    push_bytes(&mut bytes, vstd::slice::slice_subrange(raw, at + 69, at + 69 + length));
    assert(bytes@ =~= input.subrange(69, 69 + length));
    let actual = object_id(kind, bytes.as_slice());
    if actual != key.id {
        return Err(Error::plain(Problem::BatchHashMismatch));
    }
    Ok(Object { key, bytes })
}

/// The objects of an uncompressed batch.
pub fn unframe(raw: &[u8]) -> (result: Result<Vec<Object>, Error>)
    ensures
        outcome(result) == unframed(raw@),
{
    assert(raw@.len() == raw.len());
    if raw.len() < 4 || raw[0] != 75 || raw[1] != 76 || raw[2] != 80 || raw[3] != 49 {
        proof {
            if raw@.len() >= 4 && raw@.take(4) == batch_header() {
                assert(raw@[0] == raw@.take(4)[0]);
                assert(raw@[1] == raw@.take(4)[1]);
                assert(raw@[2] == raw@.take(4)[2]);
                assert(raw@[3] == raw@.take(4)[3]);
            }
        }
        return Err(Error::plain(Problem::InvalidBatchHeader));
    }
    assert(raw@.take(4) =~= batch_header());
    let mut objects: Vec<Object> = Vec::new();
    let mut at: usize = 4;
    assert(objects_in(objects@) =~= Seq::<ObjectV>::empty());
    while at < raw.len()
        invariant
            4 <= at <= raw@.len(),
            raw@.len() == raw.len(),
            parsed_from(raw@.skip(4), Seq::empty()) == parsed_from(raw@.skip(at as int), objects_in(objects@)),
            raw@.len() >= 4 && raw@.take(4) == batch_header(),
        decreases raw@.len() - at,
    {
        if objects.len() >= MAX_OBJECTS {
            return Err(Error::plain(Problem::BatchOverfull));
        }
        let object = read_record(raw, at)?;
        let ghost input = raw@.skip(at as int);
        let ghost so_far = objects_in(objects@);
        let length: usize = object.bytes.len();
        proof {
            assert(input.skip(69 + unbe32(input.subrange(65, 69))) =~= raw@.skip(at + 69 + length));
        }
        objects.push(object);
        assert(objects_in(objects@) =~= so_far.push(record_object(input)));
        at += 69 + length;
    }
    let keys = keys_for(objects.as_slice());
    check_keys(keys.as_slice())?;
    assert(objects.deep_view() =~= objects_in(objects@));
    Ok(objects)
}

/// Unpack objects that were transferred, verifying each.
pub fn decode(bytes: &[u8]) -> (result: Result<Vec<Object>, Error>)
    ensures
        outcome(result) == unpacked(bytes@),
{
    match decompress(bytes, MAX_PACK_BYTES) {
        Some(raw) => unframe(raw.as_slice()),
        None => Err(Error::plain(Problem::DecompressionFailed)),
    }
}

// Round trip

proof fn lemma_parse_record(object: ObjectV, tail: Seq<u8>)
    requires
        key_check(object.key) is Ok,
        object.bytes.len() <= limit_of(object.key.kind),
        object_hash(object.key.kind, object.bytes) == object.key.id,
    ensures
        ({
            let input = object_record(object) + tail;
            &&& input.len() > 0
            &&& record_check(input) is Ok
            &&& record_object(input) == object
            &&& input.skip(69 + unbe32(input.subrange(65, 69))) == tail
        }),
{
    let input = object_record(object) + tail;
    let n = object.bytes.len() as u32;
    lemma_hash_bytes(object.key.id);
    crate::encoding::be32_round_trip(n);
    reveal_strlit("blob");
    reveal_strlit("transaction");
    assert("blob"@.len() != "transaction"@.len());
    assert(input.subrange(1, 65) =~= encode_utf8(object.key.id));
    assert(input.subrange(65, 69) =~= be32(n));
    assert(input.subrange(69, 69 + n) =~= object.bytes);
    assert(input.skip(69 + n as int) =~= tail);
    assert(kind_of_byte(input[0]) == object.key.kind);
}

proof fn lemma_frame_grows(objects: Seq<ObjectV>, i: int, raw: Seq<u8>)
    requires
        0 <= i <= objects.len(),
        objects.len() <= MAX_OBJECTS,
        keys_check(keys_of_objects(objects), i) is Ok,
        framed_from(objects, i, raw) is Ok,
        raw.len() <= MAX_PACK_BYTES,
    ensures
        ({
            let all = framed_from(objects, i, raw)->Ok_0;
            &&& raw.len() <= all.len() <= MAX_PACK_BYTES
            &&& all.take(raw.len() as int) == raw
            &&& parsed_from(all.skip(raw.len() as int), objects.take(i)) == Ok::<Seq<ObjectV>, ErrorV>(objects)
        }),
    decreases objects.len() - i,
{
    let all = framed_from(objects, i, raw)->Ok_0;
    if i == objects.len() {
        assert(all.take(raw.len() as int) =~= raw);
        assert(objects.take(i) =~= objects);
    } else {
        let object = objects[i];
        let record = object_record(object);
        assert(keys_of_objects(objects)[i] == object.key);
        lemma_hash_bytes(object.key.id);
        lemma_frame_grows(objects, i + 1, raw + record);
        let n = raw.len() as int;
        let m = (raw + record).len() as int;
        let tail = all.skip(m);
        assert(all.take(n) =~= all.take(m).take(n));
        assert((raw + record).take(n) =~= raw);
        assert(all.skip(n) =~= record + tail) by {
            assert(all =~= all.take(m) + tail);
        }
        lemma_parse_record(object, tail);
        assert(objects.take(i).push(object) =~= objects.take(i + 1));
    }
}

/// Unpacking gives back the objects that were packed.
pub proof fn batch_round_trip(objects: Seq<ObjectV>, bytes: Seq<u8>)
    requires
        framed(objects) is Ok,
        opens_to(bytes, framed(objects)->Ok_0),
    ensures
        unframed(framed(objects)->Ok_0) == Ok::<Seq<ObjectV>, ErrorV>(objects),
        unpacked(bytes) == Ok::<Seq<ObjectV>, ErrorV>(objects),
{
    lemma_frame_grows(objects, 0, batch_header());
    assert(objects.take(0) =~= Seq::<ObjectV>::empty());
}

} // verus!
