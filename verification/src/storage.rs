//! How objects are stored: loose or packed, plain, compressed or as deltas.
//! All of this is physical: the bytes and identities of objects never change.
use vstd::prelude::*;
use vstd::string::*;
use vstd::utf8::*;

use crate::codec::{compress, compressible, decompress, opens_to, zstd_content, zstd_frame};
use crate::delta::{decoded, encoded, Dictionary};
use crate::encoding::{be64, decimal, decimal_text, push_be64, read_be32, read_be64, unbe32, unbe64, unhex, unhex_chars};
use crate::error::{about, outcome, plain, verdict, Error, ErrorV, Problem};
use crate::objects::{hash_check, object_hash, object_id, valid_hash, validate_hash};
use crate::text::{before, chars_of, push_bytes, same_bytes, same_text, text_of};

verus! {

/// 8 MiB
pub const MAX_PACK_BYTES: usize = 8_388_608;

/// 16 MiB
pub const MAX_GROUP_BYTES: usize = 16_777_216;

pub const MAX_PACK_OBJECTS: usize = 256;

/// From this many bytes on it is worth trying to compress an object.
pub const COMPRESS_FROM: usize = 512;

// Numbers

/// The bytes of a hash.
pub open spec fn hash_value(id: Seq<char>) -> Result<Seq<u8>, ErrorV> {
    match hash_check(id) {
        Err(error) => Err(error),
        Ok(()) => Ok(unhex(id)),
    }
}

/// The 32 bytes that an object's identity stands for.
pub fn hash_bytes(id: &str) -> (result: Result<Vec<u8>, Error>)
    ensures
        outcome(result) == hash_value(id@),
        result matches Ok(bytes) ==> bytes@.len() == 32,
{
    validate_hash(id)?;
    let chars = chars_of(id);
    let bytes = unhex_chars(chars.as_slice());
    assert(bytes.deep_view() =~= bytes@);
    Ok(bytes)
}

/// A signed number in decimal.
pub open spec fn signed_decimal(n: int) -> Seq<char> {
    if n < 0 {
        "-"@ + decimal((-n) as nat)
    } else {
        decimal(n as nat)
    }
}

fn signed_text(n: i64) -> (text: String)
    ensures
        text@ == signed_decimal(n as int),
{
    if n < 0 {
        let mut text = "-".to_owned();
        let size: u64 = (0 - (n as i128)) as u64;
        text.append(decimal_text(size).as_str());
        text
    } else {
        decimal_text(n as u64)
    }
}

/// A stored number as a length in memory.
pub open spec fn length_of(n: i64) -> Result<usize, ErrorV> {
    if 0 <= n <= usize::MAX {
        Ok(n as usize)
    } else {
        Err(plain(Problem::InvalidLength))
    }
}

fn to_length(n: i64) -> (result: Result<usize, Error>)
    ensures
        outcome(result) == length_of(n),
        result matches Ok(length) ==> length == n,
{
    if n < 0 {
        return Err(Error::plain(Problem::InvalidLength));
    }
    let wide: u64 = n as u64;
    if wide > usize::MAX as u64 {
        return Err(Error::plain(Problem::InvalidLength));
    }
    Ok(wide as usize)
}

/// The size of an object as the index gives it.
pub fn object_size(n: i64) -> (result: Result<u64, Error>)
    ensures
        match result {
            Ok(size) => n >= 0 && size == n,
            Err(error) => n < 0 && error@ == plain(Problem::InvalidLength),
        },
{
    if n < 0 {
        return Err(Error::plain(Problem::InvalidLength));
    }
    Ok(n as u64)
}

// Loose objects

/// Stored bytes and how they are encoded: 0 as they are, 1 compressed.
#[derive(Debug)]
pub struct Encoded {
    pub codec: i64,
    pub bytes: Vec<u8>,
}

/// The mathematical value of a `Encoded`.
#[verifier::ext_equal]
pub struct EncodedV {
    pub codec: i64,
    pub bytes: Seq<u8>,
}

impl View for Encoded {
    type V = EncodedV;

    open spec fn view(&self) -> EncodedV {
        EncodedV {
            codec: self.codec,
            bytes: self.bytes@,
        }
    }
}

impl DeepView for Encoded {
    type V = EncodedV;

    open spec fn deep_view(&self) -> EncodedV {
        self@
    }
}

/// The stored form of an object, given its compressed form.
pub open spec fn smaller_form(bytes: Seq<u8>, compressed: Seq<u8>, margin: int) -> EncodedV {
    if compressed.len() > 0 && compressed.len() + margin < bytes.len() {
        EncodedV { codec: 1, bytes: compressed }
    } else {
        EncodedV { codec: 0, bytes }
    }
}

/// Take the compressed form where it saves more than `margin` bytes.
pub fn choose_form(bytes: &[u8], compressed: Vec<u8>, margin: usize) -> (result: Encoded)
    ensures
        result@ == smaller_form(bytes@, compressed@, margin as int),
{
    assert(bytes@.len() == bytes.len());
    if compressed.len() > 0 && compressed.len() < bytes.len() && bytes.len() - compressed.len() > margin {
        Encoded { codec: 1, bytes: compressed }
    } else {
        let mut plain: Vec<u8> = Vec::new();
        push_bytes(&mut plain, bytes);
        assert(plain@ =~= bytes@);
        Encoded { codec: 0, bytes: plain }
    }
}

/// The stored form of a new object. Small objects are not compressed.
pub open spec fn loose_form(bytes: Seq<u8>) -> EncodedV {
    if bytes.len() >= COMPRESS_FROM {
        smaller_form(bytes, zstd_frame(bytes, 1), 16)
    } else {
        EncodedV { codec: 0, bytes }
    }
}

/// The stored form of an object that stays loose when others are packed.
pub open spec fn kept_form(bytes: Seq<u8>) -> EncodedV {
    smaller_form(bytes, zstd_frame(bytes, 1), 0)
}

/// Encode a new object. Compression can fail for want of memory.
pub fn encode_loose(bytes: &[u8]) -> (result: Result<Encoded, Error>)
    requires
        compressible(bytes@.len() as int),
    ensures
        match result {
            Ok(form) => form@ == loose_form(bytes@) && (bytes@.len() >= COMPRESS_FROM ==> opens_to(
                zstd_frame(bytes@, 1),
                bytes@,
            )),
            Err(error) => bytes@.len() >= COMPRESS_FROM && error@ == plain(Problem::CompressionFailed),
        },
{
    assert(bytes@.len() == bytes.len());
    if bytes.len() >= COMPRESS_FROM {
        match compress(bytes, 1) {
            Some(compressed) => Ok(choose_form(bytes, compressed, 16)),
            None => Err(Error::plain(Problem::CompressionFailed)),
        }
    } else {
        Ok(choose_form(bytes, Vec::new(), 16))
    }
}

/// Encode an object that stays loose when others are packed. Compression can
/// fail for want of memory.
pub fn encode_kept(bytes: &[u8]) -> (result: Result<Encoded, Error>)
    requires
        compressible(bytes@.len() as int),
    ensures
        match result {
            Ok(form) => form@ == kept_form(bytes@) && opens_to(zstd_frame(bytes@, 1), bytes@),
            Err(error) => error@ == plain(Problem::CompressionFailed),
        },
{
    match compress(bytes, 1) {
        Some(compressed) => Ok(choose_form(bytes, compressed, 0)),
        None => Err(Error::plain(Problem::CompressionFailed)),
    }
}

/// The bytes that are read out of a compressed form where the given length is
/// reserved for them.
pub open spec fn inflated(bytes: Seq<u8>, length: int) -> Result<Seq<u8>, ErrorV> {
    match zstd_content(bytes, length as usize) {
        Some(content) => Ok(content),
        None => Err(plain(Problem::DecompressionFailed)),
    }
}

pub(crate) fn inflate(bytes: &[u8], length: usize) -> (result: Result<Vec<u8>, Error>)
    requires
        length <= isize::MAX,
    ensures
        outcome(result) == inflated(bytes@, length as int),
        result matches Ok(content) ==> inflated(bytes@, length as int) == Ok::<Seq<u8>, ErrorV>(content@),
{
    match decompress(bytes, length) {
        Some(content) => {
            assert(content.deep_view() =~= content@);
            Ok(content)
        },
        None => Err(Error::plain(Problem::DecompressionFailed)),
    }
}

/// The bytes before their length is checked.
pub open spec fn raw_bytes(bytes: Seq<u8>, codec: i64, size: Option<i64>) -> Result<Seq<u8>, ErrorV> {
    if codec == 0 {
        Ok(bytes)
    } else if codec == 1 {
        match size {
            None => Err(plain(Problem::MissingLength)),
            Some(n) => if 0 <= n <= isize::MAX {
                inflated(bytes, n as int)
            } else {
                Err(plain(Problem::InvalidLength))
            },
        }
    } else {
        Err(about(Problem::UnknownCodec, signed_decimal(codec as int)))
    }
}

/// The object that a stored form stands for.
pub open spec fn stored(bytes: Seq<u8>, codec: i64, size: Option<i64>) -> Result<Seq<u8>, ErrorV> {
    match raw_bytes(bytes, codec, size) {
        Err(error) => Err(error),
        Ok(content) => if size is Some && size->0 != content.len() {
            Err(plain(Problem::CorruptLength))
        } else {
            Ok(content)
        },
    }
}

fn decode_raw(bytes: &[u8], codec: i64, size: Option<i64>) -> (result: Result<Vec<u8>, Error>)
    ensures
        outcome(result) == raw_bytes(bytes@, codec, size),
        result matches Ok(content) ==> raw_bytes(bytes@, codec, size) == Ok::<Seq<u8>, ErrorV>(content@),
{
    if codec == 0 {
        let mut plain: Vec<u8> = Vec::new();
        push_bytes(&mut plain, bytes);
        assert(plain@ =~= bytes@);
        assert(plain.deep_view() =~= plain@);
        return Ok(plain);
    }
    if codec == 1 {
        return match size {
            None => Err(Error::plain(Problem::MissingLength)),
            Some(n) => {
                if n < 0 || n as u64 > isize::MAX as u64 {
                    Err(Error::plain(Problem::InvalidLength))
                } else {
                    inflate(bytes, n as usize)
                }
            },
        };
    }
    Err(Error::about(Problem::UnknownCodec, signed_text(codec)))
}

/// Decode a stored form.
pub fn decode(bytes: &[u8], codec: i64, size: Option<i64>) -> (result: Result<Vec<u8>, Error>)
    ensures
        outcome(result) == stored(bytes@, codec, size),
        result matches Ok(content) ==> stored(bytes@, codec, size) == Ok::<Seq<u8>, ErrorV>(content@),
{
    let content = decode_raw(bytes, codec, size)?;
    if let Some(n) = size {
        if n < 0 || n as u64 != content.len() as u64 {
            return Err(Error::plain(Problem::CorruptLength));
        }
    }
    assert(content.deep_view() =~= content@);
    Ok(content)
}

/// What was stored loose can be read again.
pub proof fn loose_objects_survive(bytes: Seq<u8>, compressed: Seq<u8>, margin: int)
    requires
        opens_to(compressed, bytes),
        bytes.len() <= i64::MAX,
        bytes.len() <= isize::MAX,
    ensures
        ({
            let form = smaller_form(bytes, compressed, margin);
            stored(form.bytes, form.codec, Some(bytes.len() as i64)) == Ok::<Seq<u8>, ErrorV>(bytes)
        }),
{
}

// Places

/// Where an object is kept, as the index gives it.
#[derive(Debug, Clone, Copy)]
pub struct Location {
    pub size: i64,
    pub loose: Option<i64>,
    pub pack: Option<i64>,
    pub offset: Option<i64>,
    pub encoding: i64,
    pub stored_size: Option<i64>,
}

/// What has to be fetched to read an object.
#[derive(Debug, Clone, Copy, PartialEq, Eq, Structural)]
pub enum Place {
    Loose(i64),
    Packed(i64),
}

pub open spec fn place_of(location: Location) -> Result<Place, ErrorV> {
    match location.loose {
        Some(id) => Ok(Place::Loose(id)),
        None => if location.size < 0 || location.size > MAX_PACK_BYTES {
            Err(plain(Problem::InvalidPackedSize))
        } else {
            match location.pack {
                Some(id) => Ok(Place::Packed(id)),
                None => Err(plain(Problem::MissingLocation)),
            }
        },
    }
}

impl Location {
    /// What has to be fetched to read the object.
    pub fn place(&self) -> (result: Result<Place, Error>)
        ensures
            match result {
                Ok(place) => place_of(*self) == Ok::<Place, ErrorV>(place),
                Err(error) => place_of(*self) == Err::<Place, ErrorV>(error@),
            },
    {
        match self.loose {
            Some(id) => Ok(Place::Loose(id)),
            None => {
                if self.size < 0 || self.size > MAX_PACK_BYTES as i64 {
                    return Err(Error::plain(Problem::InvalidPackedSize));
                }
                match self.pack {
                    Some(id) => Ok(Place::Packed(id)),
                    None => Err(Error::plain(Problem::MissingLocation)),
                }
            },
        }
    }
}

/// `kind object id`
pub open spec fn object_label(kind: Seq<char>, id: Seq<char>) -> Seq<char> {
    kind + " object "@ + id
}

fn label(kind: &str, id: &str) -> (text: String)
    ensures
        text@ == object_label(kind@, id@),
{
    let mut text = kind.to_owned();
    text.append(" object ");
    text.append(id);
    text
}

/// The error for an object that is not there.
pub fn missing(kind: &str, id: &str) -> (error: Error)
    ensures
        error@ == about(Problem::MissingObject, object_label(kind@, id@)),
{
    Error::about(Problem::MissingObject, label(kind, id))
}

/// What is wrong with the bytes that were read for an object.
pub open spec fn object_check(kind: Seq<char>, id: Seq<char>, bytes: Seq<u8>, size: i64) -> Result<(), ErrorV> {
    if bytes.len() != size {
        Err(plain(Problem::CorruptLogicalLength))
    } else if object_hash(kind, bytes) != id {
        Err(about(Problem::CorruptObject, object_label(kind, id)))
    } else {
        Ok(())
    }
}

/// Check what was read for an object against its identity.
pub fn verify_object(kind: &str, id: &str, bytes: &[u8], size: i64) -> (result: Result<(), Error>)
    ensures
        verdict(result) == object_check(kind@, id@, bytes@, size),
{
    assert(bytes@.len() == bytes.len());
    if size < 0 || size as u64 != bytes.len() as u64 {
        return Err(Error::plain(Problem::CorruptLogicalLength));
    }
    let actual = object_id(kind, bytes);
    if !same_text(actual.as_str(), id) {
        return Err(Error::about(Problem::CorruptObject, label(kind, id)));
    }
    Ok(())
}

/// A file must have the size that its entry gives.
pub fn verify_size(path: &str, actual: u64, expected: u64) -> (result: Result<(), Error>)
    ensures
        verdict(result) == (if actual == expected {
            Ok::<(), ErrorV>(())
        } else {
            Err(about(Problem::SizeMismatch, path@))
        }),
{
    if actual == expected {
        Ok(())
    } else {
        Err(Error::about(Problem::SizeMismatch, path.to_owned()))
    }
}

/// The object that a loose row stands for.
pub open spec fn loose_object(
    kind: Seq<char>,
    id: Seq<char>,
    location: Location,
    form: EncodedV,
) -> Result<Seq<u8>, ErrorV> {
    match stored(form.bytes, form.codec, Some(location.size)) {
        Err(error) => Err(error),
        Ok(bytes) => match object_check(kind, id, bytes, location.size) {
            Err(error) => Err(error),
            Ok(()) => Ok(bytes),
        },
    }
}

/// Read an object out of the row that its location leads to, and check it.
pub fn read_loose(kind: &str, id: &str, location: &Location, form: &Encoded) -> (result: Result<Vec<u8>, Error>)
    ensures
        outcome(result) == loose_object(kind@, id@, *location, form@),
{
    let bytes = decode(form.bytes.as_slice(), form.codec, Some(location.size))?;
    verify_object(kind, id, bytes.as_slice(), location.size)?;
    assert(bytes.deep_view() =~= bytes@);
    Ok(bytes)
}

// Packs

/// The content of a pack.
pub open spec fn pack_content(bytes: Seq<u8>, size: i64, hash: Seq<u8>) -> Result<Seq<u8>, ErrorV> {
    if size < 0 || size > MAX_PACK_BYTES {
        Err(plain(Problem::InvalidPackSize))
    } else {
        match stored(bytes, 1, Some(size)) {
            Err(error) => Err(error),
            Ok(content) => if unhex(object_hash("storage-pack"@, content)) != hash {
                Err(plain(Problem::CorruptPack))
            } else {
                Ok(content)
            },
        }
    }
}

/// Open a pack, verifying it against its hash.
pub fn open_pack(bytes: &[u8], size: i64, hash: &[u8]) -> (result: Result<Vec<u8>, Error>)
    ensures
        outcome(result) == pack_content(bytes@, size, hash@),
{
    if size < 0 || size > MAX_PACK_BYTES as i64 {
        return Err(Error::plain(Problem::InvalidPackSize));
    }
    let content = decode(bytes, 1, Some(size))?;
    let actual = hash_bytes(object_id("storage-pack", content.as_slice()).as_str())?;
    assert(actual.deep_view() =~= actual@);
    if !same_bytes(actual.as_slice(), hash) {
        return Err(Error::plain(Problem::CorruptPack));
    }
    assert(content.deep_view() =~= content@);
    Ok(content)
}

/// `KDP1`
pub open spec fn delta_pack_header() -> Seq<u8> {
    seq![75u8, 68u8, 80u8, 49u8]
}

/// The base that the deltas of a pack refer to.
pub open spec fn pack_base(pack: Seq<u8>) -> Result<Seq<u8>, ErrorV> {
    if pack.len() < 8 || pack.take(4) != delta_pack_header() {
        Err(plain(Problem::InvalidDeltaPack))
    } else if 8 + unbe32(pack.subrange(4, 8)) > pack.len() {
        Err(plain(Problem::InvalidPackBase))
    } else {
        Ok(pack.subrange(8, 8 + unbe32(pack.subrange(4, 8))))
    }
}

fn base_of_pack(pack: &[u8]) -> (result: Result<&[u8], Error>)
    ensures
        match result {
            Ok(base) => pack_base(pack@) == Ok::<Seq<u8>, ErrorV>(base@),
            Err(error) => pack_base(pack@) == Err::<Seq<u8>, ErrorV>(error@),
        },
{
    assert(pack@.len() == pack.len());
    if pack.len() < 8 || pack[0] != 75 || pack[1] != 68 || pack[2] != 80 || pack[3] != 49 {
        proof {
            if pack@.len() >= 8 && pack@.take(4) == delta_pack_header() {
                assert(pack@[0] == pack@.take(4)[0]);
                assert(pack@[1] == pack@.take(4)[1]);
                assert(pack@[2] == pack@.take(4)[2]);
                assert(pack@[3] == pack@.take(4)[3]);
            }
        }
        return Err(Error::plain(Problem::InvalidDeltaPack));
    }
    assert(pack@.take(4) =~= delta_pack_header());
    let length: usize = read_be32(pack, 4) as usize;
    if length > pack.len() - 8 {
        return Err(Error::plain(Problem::InvalidPackBase));
    }
    Ok(vstd::slice::slice_subrange(pack, 8, 8 + length))
}

/// Where the bytes of a packed object stand in its pack.
pub open spec fn packed_span(pack: Seq<u8>, location: Location) -> Result<Seq<u8>, ErrorV> {
    match location.offset {
        None => Err(plain(Problem::MissingOffset)),
        Some(offset) => {
            let span = match location.stored_size {
                Some(n) => n,
                None => location.size,
            };
            if length_of(offset) is Err || length_of(span) is Err {
                Err(plain(Problem::InvalidLength))
            } else if offset + span > usize::MAX {
                Err(plain(Problem::PackBoundsOverflow))
            } else if offset + span > pack.len() {
                Err(plain(Problem::OutsidePack))
            } else {
                Ok(pack.subrange(offset as int, offset + span))
            }
        },
    }
}

/// The bytes of a packed object.
pub open spec fn packed_object(pack: Seq<u8>, location: Location) -> Result<Seq<u8>, ErrorV> {
    match packed_span(pack, location) {
        Err(error) => Err(error),
        Ok(bytes) => if location.encoding == 0 {
            Ok(bytes)
        } else if location.encoding == 2 {
            match pack_base(pack) {
                Err(error) => Err(error),
                Ok(base) => match length_of(location.size) {
                    Err(error) => Err(error),
                    Ok(size) => decoded(base, bytes, size as int),
                },
            }
        } else {
            Err(plain(Problem::UnknownEncoding))
        },
    }
}

fn span_of(pack: &[u8], location: &Location) -> (result: Result<(usize, usize), Error>)
    ensures
        match result {
            Ok(span) => span.0 <= span.1 <= pack@.len() && packed_span(pack@, *location) == Ok::<Seq<u8>, ErrorV>(
                pack@.subrange(span.0 as int, span.1 as int),
            ),
            Err(error) => packed_span(pack@, *location) == Err::<Seq<u8>, ErrorV>(error@),
        },
{
    assert(pack@.len() == pack.len());
    let offset: usize = match location.offset {
        None => {
            return Err(Error::plain(Problem::MissingOffset));
        },
        Some(offset) => to_length(offset)?,
    };
    let span: usize = match location.stored_size {
        Some(n) => to_length(n)?,
        None => to_length(location.size)?,
    };
    match offset.checked_add(span) {
        None => Err(Error::plain(Problem::PackBoundsOverflow)),
        Some(end) => {
            if end > pack.len() {
                Err(Error::plain(Problem::OutsidePack))
            } else {
                Ok((offset, end))
            }
        },
    }
}

/// Read an object out of its pack.
pub fn read_packed(pack: &[u8], location: &Location) -> (result: Result<Vec<u8>, Error>)
    ensures
        outcome(result) == packed_object(pack@, *location),
{
    assert(pack@.len() == pack.len());
    let (start, end) = span_of(pack, location)?;
    let bytes = vstd::slice::slice_subrange(pack, start, end);
    if location.encoding == 0 {
        let mut plain: Vec<u8> = Vec::new();
        push_bytes(&mut plain, bytes);
        assert(plain.deep_view() =~= bytes@);
        return Ok(plain);
    }
    if location.encoding == 2 {
        let base = base_of_pack(pack)?;
        let size: usize = to_length(location.size)?;
        return crate::delta::decode(base, bytes, size);
    }
    Err(Error::plain(Problem::UnknownEncoding))
}

/// The object that a pack holds at a location.
pub open spec fn member_object(
    kind: Seq<char>,
    id: Seq<char>,
    location: Location,
    pack: Seq<u8>,
) -> Result<Seq<u8>, ErrorV> {
    match packed_object(pack, location) {
        Err(error) => Err(error),
        Ok(bytes) => match object_check(kind, id, bytes, location.size) {
            Err(error) => Err(error),
            Ok(()) => Ok(bytes),
        },
    }
}

/// Read an object out of the opened pack that its location leads to, and check
/// it.
pub fn read_member(kind: &str, id: &str, location: &Location, pack: &[u8]) -> (result: Result<Vec<u8>, Error>)
    ensures
        outcome(result) == member_object(kind@, id@, *location, pack@),
{
    let bytes = read_packed(pack, location)?;
    assert(bytes.deep_view() =~= bytes@);
    verify_object(kind, id, bytes.as_slice(), location.size)?;
    Ok(bytes)
}

/// The packs that were opened last, oldest first.
#[derive(Debug)]
pub struct PackCache<T> {
    entries: Vec<(Vec<u8>, T)>,
}

/// The first entry under a hash.
pub open spec fn cached<T>(entries: Seq<(Seq<u8>, T)>, hash: Seq<u8>) -> Option<T>
    decreases entries.len(),
{
    if entries.len() == 0 {
        None
    } else if entries[0].0 == hash {
        Some(entries[0].1)
    } else {
        cached(entries.drop_first(), hash)
    }
}

impl<T> PackCache<T> {
    pub closed spec fn contents(self) -> Seq<(Seq<u8>, T)> {
        Seq::new(self.entries@.len(), |i: int| (self.entries@[i].0@, self.entries@[i].1))
    }

    #[verifier::type_invariant]
    spec fn bounded(self) -> bool {
        self.entries@.len() <= 2
    }

    pub fn new() -> (cache: Self)
        ensures
            cache.contents() == Seq::<(Seq<u8>, T)>::empty(),
    {
        let cache = PackCache { entries: Vec::new() };
        assert(cache.contents() =~= Seq::<(Seq<u8>, T)>::empty());
        cache
    }

    /// The pack with the given hash, where it is still held.
    pub fn get(&self, hash: &[u8]) -> (result: Option<&T>)
        ensures
            match result {
                Some(value) => cached(self.contents(), hash@) == Some(*value),
                None => cached(self.contents(), hash@) is None,
            },
    {
        let mut i: usize = 0;
        let ghost all = self.contents();
        assert(all.skip(0) =~= all);
        while i < self.entries.len()
            invariant
                i <= self.entries@.len(),
                all == self.contents(),
                cached(all, hash@) == cached(all.skip(i as int), hash@),
            decreases self.entries@.len() - i,
        {
            proof {
                assert(all.skip(i as int)[0] == all[i as int]);
                assert(all.skip(i as int).drop_first() =~= all.skip(i + 1));
            }
            if same_bytes(self.entries[i].0.as_slice(), hash) {
                return Some(&self.entries[i].1);
            }
            i += 1;
        }
        None
    }

    /// Hold one more pack; of two that are held the older one goes.
    pub fn insert(&mut self, hash: Vec<u8>, value: T)
        ensures
            final(self).contents() == (if old(self).contents().len() == 2 {
                old(self).contents().drop_first()
            } else {
                old(self).contents()
            }).push((hash@, value)),
            final(self).contents().len() <= 2,
    {
        proof {
            use_type_invariant(&*self);
        }
        let ghost start = self.contents();
        let mut entries: Vec<(Vec<u8>, T)> = Vec::new();
        std::mem::swap(&mut entries, &mut self.entries);
        if entries.len() == 2 {
            entries.remove(0);
        }
        entries.push((hash, value));
        self.entries = entries;
        assert(self.contents() =~= (if start.len() == 2 {
            start.drop_first()
        } else {
            start
        }).push((hash@, value)));
    }
}

// Records

/// `KZ01`
pub open spec fn record_header() -> Seq<u8> {
    seq![75u8, 90u8, 48u8, 49u8]
}

/// `KCD1`
pub open spec fn cache_header() -> Seq<u8> {
    seq![75u8, 67u8, 68u8, 49u8]
}

pub open spec fn starts_with(bytes: Seq<u8>, head: Seq<u8>) -> bool {
    bytes.len() >= head.len() && bytes.take(head.len() as int) == head
}

fn has_head(bytes: &[u8], a: u8, b: u8, c: u8, d: u8) -> (result: bool)
    ensures
        result == starts_with(bytes@, seq![a, b, c, d]),
{
    assert(bytes@.len() == bytes.len());
    let result = bytes.len() >= 4 && bytes[0] == a && bytes[1] == b && bytes[2] == c && bytes[3] == d;
    proof {
        let head = seq![a, b, c, d];
        if result {
            assert(bytes@.take(4) =~= head);
        }
        if starts_with(bytes@, head) {
            assert(bytes@[0] == bytes@.take(4)[0]);
            assert(bytes@[1] == bytes@.take(4)[1]);
            assert(bytes@[2] == bytes@.take(4)[2]);
            assert(bytes@[3] == bytes@.take(4)[3]);
        }
    }
    result
}

/// A record is kept as it is unless compression saves more than its header.
pub open spec fn record_form(bytes: Seq<u8>, compressed: Seq<u8>) -> Seq<u8> {
    if compressed.len() + 12 >= bytes.len() {
        bytes
    } else {
        record_header() + be64(bytes.len() as u64) + compressed
    }
}

/// Put a record into its stored form, given its compressed form.
pub fn form_record(bytes: &[u8], compressed: &[u8]) -> (record: Vec<u8>)
    ensures
        record@ == record_form(bytes@, compressed@),
{
    assert(bytes@.len() == bytes.len());
    assert(compressed@.len() == compressed.len());
    let mut record: Vec<u8> = Vec::new();
    if bytes.len() <= 12 || compressed.len() >= bytes.len() - 12 {
        push_bytes(&mut record, bytes);
        assert(record@ =~= bytes@);
        return record;
    }
    record.push(75);
    record.push(90);
    record.push(48);
    record.push(49);
    push_be64(&mut record, bytes.len() as u64);
    push_bytes(&mut record, compressed);
    assert(record@ =~= record_form(bytes@, compressed@));
    record
}

/// Compact mutable metadata without changing what it says. Compression can
/// fail for want of memory.
pub fn encode_record(bytes: &[u8]) -> (result: Result<Vec<u8>, Error>)
    requires
        compressible(bytes@.len() as int),
    ensures
        match result {
            Ok(record) => record@ == record_form(bytes@, zstd_frame(bytes@, 1)) && opens_to(
                zstd_frame(bytes@, 1),
                bytes@,
            ),
            Err(error) => error@ == plain(Problem::CompressionFailed),
        },
{
    match compress(bytes, 1) {
        Some(compressed) => Ok(form_record(bytes, compressed.as_slice())),
        None => Err(Error::plain(Problem::CompressionFailed)),
    }
}

/// The metadata that a record stands for.
pub open spec fn record_content(record: Seq<u8>) -> Result<Seq<u8>, ErrorV> {
    if !starts_with(record, record_header()) {
        Ok(record)
    } else if record.len() < 12 {
        Err(plain(Problem::TruncatedRecord))
    } else if unbe64(record.subrange(4, 12)) > isize::MAX {
        Err(plain(Problem::InvalidLength))
    } else {
        match inflated(record.skip(12), unbe64(record.subrange(4, 12))) {
            Err(error) => Err(error),
            Ok(content) => if content.len() != unbe64(record.subrange(4, 12)) {
                Err(plain(Problem::RecordLengthMismatch))
            } else {
                Ok(content)
            },
        }
    }
}

/// Read metadata in either stored form.
pub fn decode_record(bytes: &[u8]) -> (result: Result<Vec<u8>, Error>)
    ensures
        outcome(result) == record_content(bytes@),
        result matches Ok(content) ==> record_content(bytes@) == Ok::<Seq<u8>, ErrorV>(content@),
{
    assert(bytes@.len() == bytes.len());
    if !has_head(bytes, 75, 90, 48, 49) {
        let mut plain: Vec<u8> = Vec::new();
        push_bytes(&mut plain, bytes);
        assert(plain@ =~= bytes@);
        assert(plain.deep_view() =~= plain@);
        return Ok(plain);
    }
    if bytes.len() < 12 {
        return Err(Error::plain(Problem::TruncatedRecord));
    }
    let length: u64 = read_be64(bytes, 4);
    if length > isize::MAX as u64 {
        return Err(Error::plain(Problem::InvalidLength));
    }
    let body = vstd::slice::slice_subrange(bytes, 12, bytes.len());
    assert(body@ =~= bytes@.skip(12));
    let content = inflate(body, length as usize)?;
    if content.len() as u64 != length {
        return Err(Error::plain(Problem::RecordLengthMismatch));
    }
    assert(content.deep_view() =~= content@);
    Ok(content)
}

/// Reading a record gives back the metadata that it was made of. The one
/// exception is metadata that looks like a compressed record itself and is not
/// worth compressing.
pub proof fn record_round_trip(bytes: Seq<u8>, compressed: Seq<u8>)
    requires
        opens_to(compressed, bytes),
        bytes.len() <= isize::MAX,
        !starts_with(bytes, record_header()) || record_form(bytes, compressed) != bytes,
    ensures
        record_content(record_form(bytes, compressed)) == Ok::<Seq<u8>, ErrorV>(bytes),
{
    let record = record_form(bytes, compressed);
    if record != bytes {
        let n = bytes.len() as u64;
        crate::encoding::be64_round_trip(n);
        assert(record.take(4) =~= record_header());
        assert(record.subrange(4, 12) =~= be64(n));
        assert(record.skip(12) =~= compressed);
    }
}

/// Metadata that was written before records were compressed is read as it
/// stands, and so is metadata that is not worth compressing. A record is never
/// longer than what it was made of. The header of a compressed record alone is
/// refused.
pub proof fn plain_records_are_read(bytes: Seq<u8>, compressed: Seq<u8>)
    requires
        !starts_with(bytes, record_header()),
        opens_to(compressed, bytes),
        bytes.len() <= isize::MAX,
    ensures
        record_content(bytes) == Ok::<Seq<u8>, ErrorV>(bytes),
        record_content(record_form(bytes, compressed)) == Ok::<Seq<u8>, ErrorV>(bytes),
        record_form(bytes, compressed).len() <= bytes.len(),
        record_content(record_header()) == Err::<Seq<u8>, ErrorV>(plain(Problem::TruncatedRecord)),
{
    record_round_trip(bytes, compressed);
    assert(record_header().take(4) =~= record_header());
}

// Caches

/// A cache is kept as a delta against its base where that is smaller than the
/// ordinary record.
pub open spec fn cache_form(
    bytes: Seq<u8>,
    base_id: Seq<char>,
    record: Seq<u8>,
    compressed_delta: Seq<u8>,
) -> Result<Seq<u8>, ErrorV> {
    if compressed_delta.len() + 44 >= record.len() {
        Ok(record)
    } else {
        match hash_value(base_id) {
            Err(error) => Err(error),
            Ok(hash) => Ok(cache_header() + hash + be64(bytes.len() as u64) + compressed_delta),
        }
    }
}

/// Put a cache into its stored form, given its record and its compressed
/// delta.
pub fn form_cache(length: usize, base_id: &str, record: Vec<u8>, compressed_delta: &[u8]) -> (result: Result<
    Vec<u8>,
    Error,
>)
    ensures
        forall|bytes: Seq<u8>| bytes.len() == length ==> #[trigger] cache_form(
            bytes,
            base_id@,
            record@,
            compressed_delta@,
        ) == outcome(result),
{
    assert(compressed_delta@.len() == compressed_delta.len());
    if record.len() <= 44 || compressed_delta.len() >= record.len() - 44 {
        assert(record.deep_view() =~= record@);
        return Ok(record);
    }
    let hash = hash_bytes(base_id)?;
    assert(hash.deep_view() =~= hash@);
    let mut output: Vec<u8> = Vec::new();
    output.push(75);
    output.push(67);
    output.push(68);
    output.push(49);
    push_bytes(&mut output, hash.as_slice());
    push_be64(&mut output, length as u64);
    push_bytes(&mut output, compressed_delta);
    proof {
        assert forall|bytes: Seq<u8>| bytes.len() == length implies #[trigger] cache_form(
            bytes,
            base_id@,
            record@,
            compressed_delta@,
        ) == Ok::<Seq<u8>, ErrorV>(output@) by {
            assert(output@ =~= cache_header() + hash@ + be64(bytes.len() as u64) + compressed_delta@);
        }
        assert(output.deep_view() =~= output@);
    }
    Ok(output)
}

/// Reuse a local snapshot as a dictionary for metadata that can be rebuilt.
/// The dictionary never becomes a dependency of a version or of another node.
/// Compression can fail for want of memory.
pub fn encode_cache(bytes: &[u8], base_id: &str, base: &[u8]) -> (result: Result<Vec<u8>, Error>)
    requires
        compressible(bytes@.len() as int + 5),
    ensures
        match result {
            Ok(cache) => cache_form(
                bytes@,
                base_id@,
                record_form(bytes@, zstd_frame(bytes@, 1)),
                zstd_frame(encoded(base@, bytes@), 3),
            ) == Ok::<Seq<u8>, ErrorV>(cache@) && opens_to(zstd_frame(bytes@, 1), bytes@) && opens_to(
                zstd_frame(encoded(base@, bytes@), 3),
                encoded(base@, bytes@),
            ),
            Err(error) => error@ == plain(Problem::CompressionFailed) || cache_form(
                bytes@,
                base_id@,
                record_form(bytes@, zstd_frame(bytes@, 1)),
                zstd_frame(encoded(base@, bytes@), 3),
            ) == Err::<Seq<u8>, ErrorV>(error@),
        },
{
    assert(bytes@.len() == bytes.len());
    let record = encode_record(bytes)?;
    let dictionary = Dictionary::new(base);
    let delta = dictionary.encode(bytes);
    proof {
        crate::delta::lemma_encoded_length(base@, bytes@);
    }
    let compressed = match compress(delta.as_slice(), 3) {
        Some(compressed) => compressed,
        None => {
            return Err(Error::plain(Problem::CompressionFailed));
        },
    };
    let result = form_cache(bytes.len(), base_id, record, compressed.as_slice());
    proof {
        assert(cache_form(bytes@, base_id@, record@, compressed@) == outcome(result));
        if result is Ok {
            assert(result->Ok_0.deep_view() =~= result->Ok_0@);
        }
    }
    result
}

/// What a stored cache needs before it can be read.
#[derive(Debug)]
pub enum Cache {
    /// The content itself.
    Whole(Vec<u8>),
    /// A delta against the snapshot with the given identity.
    Delta { base: String, length: usize, delta: Vec<u8> },
}

/// The mathematical value of a `Cache`.
#[verifier::ext_equal]
pub enum CacheV {
    Whole(Seq<u8>),
    Delta { base: Seq<char>, length: int, delta: Seq<u8> },
}

impl vstd::view::View for Cache {
    type V = CacheV;

    open spec fn view(&self) -> CacheV {
        match self {
            Cache::Whole(bytes) => CacheV::Whole(bytes@),
            Cache::Delta { base, length, delta } => CacheV::Delta {
                base: base@,
                length: *length as int,
                delta: delta@,
            },
        }
    }
}

impl DeepView for Cache {
    type V = CacheV;

    open spec fn deep_view(&self) -> CacheV {
        self@
    }
}

/// The longest delta that is read for content of the given length.
pub open spec fn delta_budget(length: int) -> int {
    2 * length + 64
}

/// What a stored cache holds.
pub open spec fn cache_opened(bytes: Seq<u8>) -> Result<CacheV, ErrorV> {
    if !starts_with(bytes, cache_header()) {
        match record_content(bytes) {
            Err(error) => Err(error),
            Ok(content) => Ok(CacheV::Whole(content)),
        }
    } else if bytes.len() < 44 {
        Err(plain(Problem::TruncatedCache))
    } else {
        let length = unbe64(bytes.subrange(36, 44));
        if length > usize::MAX {
            Err(plain(Problem::InvalidLength))
        } else if delta_budget(length) > isize::MAX {
            Err(plain(Problem::CacheLengthOverflow))
        } else {
            match inflated(bytes.skip(44), delta_budget(length)) {
                Err(error) => Err(error),
                Ok(delta) => Ok(CacheV::Delta { base: crate::encoding::hex(bytes.subrange(4, 36)), length, delta }),
            }
        }
    }
}

/// Open a stored cache, up to the base that it may need.
pub fn open_cache(bytes: &[u8]) -> (result: Result<Cache, Error>)
    ensures
        outcome(result) == cache_opened(bytes@),
{
    assert(bytes@.len() == bytes.len());
    if !has_head(bytes, 75, 67, 68, 49) {
        let content = decode_record(bytes)?;
        return Ok(Cache::Whole(content));
    }
    if bytes.len() < 44 {
        return Err(Error::plain(Problem::TruncatedCache));
    }
    let hash = vstd::slice::slice_subrange(bytes, 4, 36);
    let base = crate::encoding::hex_text(hash);
    let wide: u64 = read_be64(bytes, 36);
    if wide > usize::MAX as u64 {
        return Err(Error::plain(Problem::InvalidLength));
    }
    if wide > (isize::MAX as u64 - 64) / 2 {
        return Err(Error::plain(Problem::CacheLengthOverflow));
    }
    let length: usize = wide as usize;
    let body = vstd::slice::slice_subrange(bytes, 44, bytes.len());
    assert(body@ =~= bytes@.skip(44));
    let delta = inflate(body, 2 * length + 64)?;
    Ok(Cache::Delta { base, length, delta })
}

/// The content of an opened cache, given its base.
pub open spec fn cache_resolved(cache: CacheV, base: Seq<u8>) -> Result<Seq<u8>, ErrorV> {
    match cache {
        CacheV::Whole(content) => Ok(content),
        CacheV::Delta { base: _, length, delta } => decoded(base, delta, length),
    }
}

/// Read an opened cache against its base.
pub fn resolve_cache(cache: Cache, base: &[u8]) -> (result: Result<Vec<u8>, Error>)
    ensures
        outcome(result) == cache_resolved(cache@, base@),
{
    match cache {
        Cache::Whole(content) => {
            assert(content.deep_view() =~= content@);
            Ok(content)
        },
        Cache::Delta { base: _, length, delta } => crate::delta::decode(base, delta.as_slice(), length),
    }
}

/// Reading a cache against the base that it was made with gives back what was
/// written, under the same exception as for records.
pub proof fn cache_round_trip(
    bytes: Seq<u8>,
    base_id: Seq<char>,
    base: Seq<u8>,
    compressed: Seq<u8>,
    compressed_delta: Seq<u8>,
)
    requires
        opens_to(compressed, bytes),
        opens_to(compressed_delta, encoded(base, bytes)),
        bytes.len() <= u32::MAX,
        base.len() <= u32::MAX,
        delta_budget(bytes.len() as int) <= isize::MAX,
        cache_form(bytes, base_id, record_form(bytes, compressed), compressed_delta) is Ok,
        !starts_with(bytes, record_header()) || record_form(bytes, compressed) != bytes,
        !starts_with(bytes, cache_header()) || cache_form(
            bytes,
            base_id,
            record_form(bytes, compressed),
            compressed_delta,
        )->Ok_0 != bytes,
    ensures
        ({
            let cache = cache_form(bytes, base_id, record_form(bytes, compressed), compressed_delta)->Ok_0;
            &&& cache_opened(cache) is Ok
            &&& cache_resolved(cache_opened(cache)->Ok_0, base) == Ok::<Seq<u8>, ErrorV>(bytes)
            &&& cache_opened(cache)->Ok_0 is Delta ==> cache_opened(cache)->Ok_0->base == base_id
        }),
{
    let record = record_form(bytes, compressed);
    let cache = cache_form(bytes, base_id, record, compressed_delta)->Ok_0;
    if compressed_delta.len() + 44 >= record.len() {
        record_round_trip(bytes, compressed);
        if record != bytes {
            assert(record.take(4) =~= record_header());
            assert(record_header()[1] != cache_header()[1]);
        }
    } else {
        let n = bytes.len() as u64;
        crate::encoding::be64_round_trip(n);
        assert(valid_hash(base_id));
        assert(crate::encoding::all_hex(base_id));
        crate::encoding::unhex_round_trip(base_id);
        assert(unhex(base_id).len() == 32);
        assert(cache.take(4) =~= cache_header());
        assert(cache.subrange(4, 36) =~= unhex(base_id));
        assert(cache.subrange(36, 44) =~= be64(n));
        assert(cache.skip(44) =~= compressed_delta);
        crate::delta::lemma_encoded_length(base, bytes);
        crate::delta::delta_round_trip(base, bytes);
    }
}

// Finding objects by prefix

/// A prefix filled up to the length of a hash.
pub open spec fn padded(prefix: Seq<char>, fill: char) -> Seq<char> {
    prefix + Seq::new(
        (if prefix.len() < 64 {
            64 - prefix.len()
        } else {
            0
        }) as nat,
        |i: int| fill,
    )
}

fn pad(prefix: &str, fill: char) -> (text: String)
    ensures
        text@ == padded(prefix@, fill),
{
    let mut chars = chars_of(prefix);
    while chars.len() < 64
        invariant
            padded(chars@, fill) == padded(prefix@, fill),
        decreases 64 - chars.len(),
    {
        let ghost so_far = chars@;
        chars.push(fill);
        assert(padded(chars@, fill) =~= padded(so_far, fill));
    }
    assert(padded(chars@, fill) =~= chars@);
    text_of(chars.as_slice())
}

/// The least and the greatest hash with a prefix.
pub open spec fn bounds_of(prefix: Seq<char>) -> Result<(Seq<u8>, Seq<u8>), ErrorV> {
    match hash_value(padded(prefix, '0')) {
        Err(error) => Err(error),
        Ok(low) => match hash_value(padded(prefix, 'f')) {
            Err(error) => Err(error),
            Ok(high) => Ok((low, high)),
        },
    }
}

/// The least and the greatest hash with a prefix, as bytes.
pub fn prefix_bounds(prefix: &str) -> (result: Result<(Vec<u8>, Vec<u8>), Error>)
    ensures
        match result {
            Ok(bounds) => bounds_of(prefix@) == Ok::<(Seq<u8>, Seq<u8>), ErrorV>((bounds.0@, bounds.1@)),
            Err(error) => bounds_of(prefix@) == Err::<(Seq<u8>, Seq<u8>), ErrorV>(error@),
        },
{
    let low = hash_bytes(pad(prefix, '0').as_str())?;
    let high = hash_bytes(pad(prefix, 'f').as_str())?;
    proof {
        assert(low.deep_view() =~= low@);
        assert(high.deep_view() =~= high@);
    }
    Ok((low, high))
}

proof fn lemma_bounds(prefix: Seq<char>, low: Seq<char>, high: Seq<char>, id: Seq<char>)
    requires
        low.len() == high.len() == id.len(),
        prefix.len() <= id.len(),
        low.take(prefix.len() as int) == prefix,
        high.take(prefix.len() as int) == prefix,
        forall|i: int| prefix.len() <= i < id.len() ==> #[trigger] low[i] == '0' && high[i] == 'f',
        forall|i: int| 0 <= i < id.len() ==> crate::text::lower_hex(#[trigger] id[i]),
    ensures
        id.take(prefix.len() as int) == prefix <==> !before(id, low) && !before(high, id),
    decreases id.len(),
{
    if id.len() == 0 {
        assert(id.take(0) =~= prefix);
    } else {
        let rest = if prefix.len() > 0 {
            prefix.drop_first()
        } else {
            prefix
        };
        let n = rest.len() as int;
        assert(low.drop_first().take(n) =~= rest) by {
            if prefix.len() > 0 {
                assert(low.take(prefix.len() as int).drop_first() =~= low.drop_first().take(n));
            }
        }
        assert(high.drop_first().take(n) =~= rest) by {
            if prefix.len() > 0 {
                assert(high.take(prefix.len() as int).drop_first() =~= high.drop_first().take(n));
            }
        }
        assert forall|i: int| n <= i < id.drop_first().len() implies #[trigger] low.drop_first()[i] == '0'
            && high.drop_first()[i] == 'f' by {
            assert(low[i + 1] == '0');
        }
        assert forall|i: int| 0 <= i < id.drop_first().len() implies crate::text::lower_hex(
            #[trigger] id.drop_first()[i],
        ) by {
            assert(crate::text::lower_hex(id[i + 1]));
        }
        lemma_bounds(rest, low.drop_first(), high.drop_first(), id.drop_first());
        if prefix.len() > 0 {
            assert(low[0] == prefix[0]) by {
                assert(low.take(prefix.len() as int)[0] == prefix[0]);
            }
            assert(high[0] == prefix[0]) by {
                assert(high.take(prefix.len() as int)[0] == prefix[0]);
            }
            if id.take(prefix.len() as int) == prefix {
                assert(id[0] == id.take(prefix.len() as int)[0]);
                assert(id.drop_first().take(n) =~= id.take(prefix.len() as int).drop_first());
            }
            if id[0] == prefix[0] && id.drop_first().take(n) == rest {
                assert(id.take(prefix.len() as int) =~= seq![id[0]] + id.drop_first().take(n));
                assert(prefix =~= seq![prefix[0]] + rest);
            }
        } else {
            assert(low[0] == '0' && high[0] == 'f');
            assert(crate::text::lower_hex(id[0]));
            assert(id.take(0) =~= prefix);
            assert(id.drop_first().take(0) =~= rest);
            lemma_within(low, high, id);
        }
    }
}

proof fn lemma_within(low: Seq<char>, high: Seq<char>, id: Seq<char>)
    requires
        low.len() == high.len() == id.len(),
        forall|i: int| 0 <= i < id.len() ==> #[trigger] low[i] == '0' && high[i] == 'f',
        forall|i: int| 0 <= i < id.len() ==> crate::text::lower_hex(#[trigger] id[i]),
    ensures
        !before(id, low),
        !before(high, id),
    decreases id.len(),
{
    if id.len() > 0 {
        assert(low[0] == '0' && high[0] == 'f');
        assert(crate::text::lower_hex(id[0]));
        assert forall|i: int| 0 <= i < id.drop_first().len() implies #[trigger] low.drop_first()[i] == '0'
            && high.drop_first()[i] == 'f' by {
            assert(low[i + 1] == '0');
        }
        assert forall|i: int| 0 <= i < id.drop_first().len() implies crate::text::lower_hex(
            #[trigger] id.drop_first()[i],
        ) by {
            assert(crate::text::lower_hex(id[i + 1]));
        }
        lemma_within(low.drop_first(), high.drop_first(), id.drop_first());
    }
}

/// The hashes between the bounds of a prefix are exactly the hashes that begin
/// with it.
pub proof fn bounds_enclose_the_prefix(prefix: Seq<char>, id: Seq<char>)
    requires
        prefix.len() <= 64,
        valid_hash(id),
    ensures
        id.take(prefix.len() as int) == prefix <==> !before(id, padded(prefix, '0')) && !before(
            padded(prefix, 'f'),
            id,
        ),
{
    let low = padded(prefix, '0');
    let high = padded(prefix, 'f');
    assert(low.take(prefix.len() as int) =~= prefix);
    assert(high.take(prefix.len() as int) =~= prefix);
    lemma_bounds(prefix, low, high, id);
}

} // verus!
