//! Compaction: which objects are packed together, and what the packs hold.
//! Packs are bounded, stand by themselves, and never mix projects or kinds.
use vstd::prelude::*;
use vstd::string::*;

use crate::codec::{compress, zstd_frame};
use crate::delta::{encoded, Dictionary};
use crate::encoding::{be32, push_be32, unhex};
use crate::error::{plain, Error, ErrorV, Problem};
use crate::objects::{object_hash, object_id};
use crate::storage::{
    delta_pack_header, hash_bytes, inflate, inflated, pack_base, packed_object, packed_span, Location, MAX_GROUP_BYTES,
    MAX_PACK_BYTES, MAX_PACK_OBJECTS,
};
use crate::text::{push_bytes, same_bytes, same_text};

verus! {

/// What a compaction did.
#[derive(Debug)]
pub struct Compaction {
    pub objects: usize,
    pub packs: usize,
    pub payload_before: u64,
    pub payload_after: u64,
}

// Groups

/// An object of a group and where its bytes begin.
#[derive(Debug)]
pub struct Member {
    pub id: String,
    pub offset: usize,
}

/// The mathematical value of a `Member`.
#[verifier::ext_equal]
pub struct MemberV {
    pub id: Seq<char>,
    pub offset: int,
}

impl View for Member {
    type V = MemberV;

    open spec fn view(&self) -> MemberV {
        MemberV {
            id: self.id@,
            offset: self.offset as int,
        }
    }
}

impl DeepView for Member {
    type V = MemberV;

    open spec fn deep_view(&self) -> MemberV {
        self@
    }
}

/// The members of a list.
pub open spec fn members(list: Seq<Member>) -> Seq<MemberV> {
    Seq::new(list.len(), |i: int| list[i]@)
}

/// The members follow one another in the bytes of the group.
pub open spec fn laid_out(group: Seq<MemberV>, length: int) -> bool {
    &&& forall|i: int| 0 <= i < group.len() ==> 0 <= (#[trigger] group[i]).offset <= length
    &&& forall|i: int, j: int|
        0 <= i <= j < group.len() ==> (#[trigger] group[i]).offset <= (#[trigger] group[j]).offset
}

/// Where the bytes of a member end.
pub open spec fn end_of(group: Seq<MemberV>, length: int, i: int) -> int {
    if i + 1 < group.len() {
        group[i + 1].offset
    } else {
        length
    }
}

/// The bytes of a member.
pub open spec fn object_at(group: Seq<MemberV>, bytes: Seq<u8>, i: int) -> Seq<u8> {
    bytes.subrange(group[i].offset, end_of(group, bytes.len() as int, i))
}

/// What happens to an object during compaction.
#[derive(Debug, Clone, Copy, PartialEq, Eq, Structural)]
pub enum Action {
    /// It is stored loose.
    KeepLoose,
    /// It is too large for a pack and stays where it is.
    Leave,
    /// It joins the current group.
    Pack,
}

pub open spec fn action_for(size: i64, keep: bool) -> Action {
    if keep {
        Action::KeepLoose
    } else if size > MAX_PACK_BYTES {
        Action::Leave
    } else {
        Action::Pack
    }
}

/// What happens to an object of the given size.
pub fn compaction_action(size: i64, keep: bool) -> (action: Action)
    ensures
        action == action_for(size, keep),
{
    if keep {
        Action::KeepLoose
    } else if size > MAX_PACK_BYTES as i64 {
        Action::Leave
    } else {
        Action::Pack
    }
}

/// Objects of one project and kind that are to be packed together.
#[derive(Debug)]
pub struct Batch {
    pub namespace: String,
    pub kind: String,
    pub group: Vec<Member>,
    pub bytes: Vec<u8>,
}

/// The mathematical value of a `Batch`.
#[verifier::ext_equal]
pub struct BatchV {
    pub namespace: Seq<char>,
    pub kind: Seq<char>,
    pub group: Seq<MemberV>,
    pub bytes: Seq<u8>,
}

impl vstd::view::View for Batch {
    type V = BatchV;

    open spec fn view(&self) -> BatchV {
        BatchV {
            namespace: self.namespace@,
            kind: self.kind@,
            group: members(self.group@),
            bytes: self.bytes@,
        }
    }
}

/// A batch that can be packed.
pub open spec fn packable(batch: BatchV) -> bool {
    &&& batch.group.len() <= MAX_PACK_OBJECTS
    &&& batch.bytes.len() <= MAX_GROUP_BYTES
    &&& laid_out(batch.group, batch.bytes.len() as int)
}

/// Collects objects into batches as they come.
pub struct Grouping {
    current: Batch,
}

/// The current batch cannot take an object: it is full, or the object belongs
/// elsewhere.
pub open spec fn must_end(batch: BatchV, namespace: Seq<char>, kind: Seq<char>, size: int) -> bool {
    ||| batch.group.len() == MAX_PACK_OBJECTS
    ||| batch.bytes.len() + size > MAX_GROUP_BYTES
    ||| batch.namespace != namespace
    ||| batch.kind != kind
}

/// An empty batch.
pub open spec fn empty_batch(namespace: Seq<char>, kind: Seq<char>) -> BatchV {
    BatchV { namespace, kind, group: Seq::empty(), bytes: Seq::empty() }
}

impl Grouping {
    pub closed spec fn batch(self) -> BatchV {
        self.current@
    }

    #[verifier::type_invariant]
    spec fn bounded(self) -> bool {
        packable(self.current@)
    }

    pub fn new() -> (grouping: Self)
        ensures
            grouping.batch() == empty_batch(Seq::empty(), Seq::empty()),
    {
        let current = Batch {
            namespace: String::new(),
            kind: String::new(),
            group: Vec::new(),
            bytes: Vec::new(),
        };
        assert(current@ =~= empty_batch(Seq::empty(), Seq::empty()));
        Grouping { current }
    }

    /// Make ready for an object. Where the current batch cannot take it, the
    /// batch is handed out and a new one begun.
    pub fn make_room(&mut self, namespace: &str, kind: &str, size: i64) -> (result: Result<Option<Batch>, Error>)
        ensures
            match result {
                Err(error) => {
                    &&& size < 0
                    &&& old(self).batch().group.len() != MAX_PACK_OBJECTS
                    &&& error@ == plain(Problem::InvalidLength)
                    &&& final(self).batch() == old(self).batch()
                },
                Ok(None) => {
                    &&& !must_end(old(self).batch(), namespace@, kind@, size as int)
                    &&& size >= 0
                    &&& final(self).batch() == old(self).batch()
                },
                Ok(Some(batch)) => {
                    &&& must_end(old(self).batch(), namespace@, kind@, size as int)
                    &&& size >= 0 || old(self).batch().group.len() == MAX_PACK_OBJECTS
                    &&& batch@ == old(self).batch()
                    &&& packable(batch@)
                    &&& final(self).batch() == empty_batch(namespace@, kind@)
                },
            },
    {
        proof {
            use_type_invariant(&*self);
        }
        let full = self.current.group.len() == MAX_PACK_OBJECTS;
        if !full && size < 0 {
            return Err(Error::plain(Problem::InvalidLength));
        }
        if full || size > (MAX_GROUP_BYTES - self.current.bytes.len()) as i64 || !same_text(
            self.current.namespace.as_str(),
            namespace,
        ) || !same_text(self.current.kind.as_str(), kind) {
            let mut next = Batch {
                namespace: namespace.to_owned(),
                kind: kind.to_owned(),
                group: Vec::new(),
                bytes: Vec::new(),
            };
            assert(next@ =~= empty_batch(namespace@, kind@));
            std::mem::swap(&mut next, &mut self.current);
            return Ok(Some(next));
        }
        Ok(None)
    }

    /// Add an object to the current batch.
    pub fn add(&mut self, id: String, object: &[u8])
        requires
            old(self).batch().group.len() < MAX_PACK_OBJECTS,
            old(self).batch().bytes.len() + object@.len() <= MAX_GROUP_BYTES,
        ensures
            final(self).batch() == (BatchV {
                group: old(self).batch().group.push(
                    (MemberV { id: id@, offset: old(self).batch().bytes.len() as int }),
                ),
                bytes: old(self).batch().bytes + object@,
                ..old(self).batch()
            }),
    {
        proof {
            use_type_invariant(&*self);
        }
        let ghost start = self.current@;
        let mut batch = Batch {
            namespace: String::new(),
            kind: String::new(),
            group: Vec::new(),
            bytes: Vec::new(),
        };
        assert(batch@ =~= empty_batch(Seq::empty(), Seq::empty()));
        std::mem::swap(&mut batch, &mut self.current);
        let offset: usize = batch.bytes.len();
        let ghost member = MemberV { id: id@, offset: offset as int };
        batch.group.push(Member { id, offset });
        push_bytes(&mut batch.bytes, object);
        proof {
            assert(batch@.group =~= start.group.push(member));
            assert(laid_out(batch@.group, batch@.bytes.len() as int));
        }
        self.current = batch;
    }

    /// How many objects the current batch holds.
    pub fn count(&self) -> (n: usize)
        ensures
            n == self.batch().group.len(),
    {
        self.current.group.len()
    }

    /// How many bytes the current batch holds.
    pub fn length(&self) -> (n: usize)
        ensures
            n == self.batch().bytes.len(),
    {
        self.current.bytes.len()
    }

    /// The last batch.
    pub fn finish(self) -> (batch: Batch)
        ensures
            batch@ == self.batch(),
            packable(batch@),
    {
        proof {
            use_type_invariant(&self);
        }
        self.current
    }
}

// Packs

/// Where a pack holds an object: from `offset` on, in `length` bytes, plain (0)
/// or as a delta (2).
#[derive(Debug)]
pub struct Placed {
    pub id: String,
    pub offset: usize,
    pub length: usize,
    pub encoding: i64,
}

/// The mathematical value of a `Placed`.
#[verifier::ext_equal]
pub struct PlacedV {
    pub id: Seq<char>,
    pub offset: int,
    pub length: int,
    pub encoding: i64,
}

impl View for Placed {
    type V = PlacedV;

    open spec fn view(&self) -> PlacedV {
        PlacedV {
            id: self.id@,
            offset: self.offset as int,
            length: self.length as int,
            encoding: self.encoding,
        }
    }
}

impl DeepView for Placed {
    type V = PlacedV;

    open spec fn deep_view(&self) -> PlacedV {
        self@
    }
}

/// The values of a list of places.
pub open spec fn places_in(list: Seq<Placed>) -> Seq<PlacedV> {
    Seq::new(list.len(), |i: int| list[i]@)
}

/// The base of a group: its last object.
pub open spec fn group_base(group: Seq<MemberV>, bytes: Seq<u8>) -> Seq<u8> {
    bytes.skip(group.last().offset)
}

/// How an object stands in a delta pack.
pub open spec fn delta_bytes(base: Seq<u8>, object: Seq<u8>) -> Seq<u8> {
    if encoded(base, object).len() < object.len() {
        encoded(base, object)
    } else {
        object
    }
}

pub open spec fn delta_encoding(base: Seq<u8>, object: Seq<u8>) -> i64 {
    if encoded(base, object).len() < object.len() {
        2
    } else {
        0
    }
}

/// The place of one member in a delta pack. The base, which is the last member,
/// stands at the front.
pub open spec fn delta_place(group: Seq<MemberV>, bytes: Seq<u8>, i: int, at: int) -> PlacedV {
    let object = object_at(group, bytes, i);
    let base = group_base(group, bytes);
    if i + 1 == group.len() {
        PlacedV { id: group[i].id, offset: 8, length: object.len() as int, encoding: 0 }
    } else {
        PlacedV {
            id: group[i].id,
            offset: at,
            length: delta_bytes(base, object).len() as int,
            encoding: delta_encoding(base, object),
        }
    }
}

/// What one member adds to a delta pack.
pub open spec fn delta_part(group: Seq<MemberV>, bytes: Seq<u8>, i: int) -> Seq<u8> {
    if i + 1 == group.len() {
        Seq::empty()
    } else {
        delta_bytes(group_base(group, bytes), object_at(group, bytes, i))
    }
}

/// The delta pack with the first `n` members.
pub open spec fn delta_payload(group: Seq<MemberV>, bytes: Seq<u8>, n: int) -> Seq<u8>
    decreases n,
{
    if n <= 0 {
        let base = group_base(group, bytes);
        delta_pack_header() + be32(base.len() as u32) + base
    } else {
        delta_payload(group, bytes, n - 1) + delta_part(group, bytes, n - 1)
    }
}

/// The places of the first `n` members in a delta pack.
pub open spec fn delta_places(group: Seq<MemberV>, bytes: Seq<u8>, n: int) -> Seq<PlacedV> {
    Seq::new(
        n as nat,
        |i: int| delta_place(group, bytes, i, delta_payload(group, bytes, i).len() as int),
    )
}

/// The places of the members where the bytes of the group are packed as they
/// are.
pub open spec fn plain_places(group: Seq<MemberV>, bytes: Seq<u8>) -> Seq<PlacedV> {
    Seq::new(
        group.len(),
        |i: int|
            PlacedV {
                id: group[i].id,
                offset: group[i].offset,
                length: end_of(group, bytes.len() as int, i) - group[i].offset,
                encoding: 0,
            },
    )
}

/// A pack with its content.
#[derive(Debug)]
pub struct Pack {
    pub payload: Vec<u8>,
    pub packed: Vec<u8>,
    pub hash: Vec<u8>,
    pub places: Vec<Placed>,
}

/// The mathematical value of a `Pack`.
#[verifier::ext_equal]
pub struct PackV {
    pub payload: Seq<u8>,
    pub packed: Seq<u8>,
    pub hash: Seq<u8>,
    pub places: Seq<PlacedV>,
}

impl vstd::view::View for Pack {
    type V = PackV;

    open spec fn view(&self) -> PackV {
        PackV {
            payload: self.payload@,
            packed: self.packed@,
            hash: self.hash@,
            places: places_in(self.places@),
        }
    }
}

impl DeepView for Pack {
    type V = PackV;

    open spec fn deep_view(&self) -> PackV {
        self@
    }
}

/// The compressed form of a payload, where it fits a pack.
pub open spec fn packed_form(payload: Seq<u8>) -> Seq<u8> {
    if payload.len() <= MAX_PACK_BYTES {
        zstd_frame(payload, 9)
    } else {
        Seq::empty()
    }
}

/// The delta pack is smaller, or the only one that fits.
pub open spec fn prefers_delta(plain_packed: Seq<u8>, delta_packed: Seq<u8>) -> bool {
    delta_packed.len() > 0 && (plain_packed.len() == 0 || delta_packed.len() < plain_packed.len())
}

/// A pack, after its compressed form was read back.
pub open spec fn verified_pack(payload: Seq<u8>, packed: Seq<u8>, places: Seq<PlacedV>) -> Result<
    Seq<PackV>,
    ErrorV,
> {
    match inflated(packed, payload.len() as int) {
        Err(error) => Err(error),
        Ok(content) => if content != payload {
            Err(plain(Problem::PackVerification))
        } else {
            Ok(
                seq![
                    PackV {
                        payload,
                        packed,
                        hash: unhex(object_hash("storage-pack"@, payload)),
                        places,
                    },
                ],
            )
        },
    }
}

/// The one pack of a group, by the compressed forms of its bytes and of its
/// delta pack.
pub open spec fn formed_pack(
    group: Seq<MemberV>,
    bytes: Seq<u8>,
    plain_packed: Seq<u8>,
    delta_packed: Seq<u8>,
) -> Result<Seq<PackV>, ErrorV> {
    let n = group.len() as int;
    if prefers_delta(plain_packed, delta_packed) {
        verified_pack(delta_payload(group, bytes, n), delta_packed, delta_places(group, bytes, n))
    } else {
        verified_pack(bytes, plain_packed, plain_places(group, bytes))
    }
}

/// The one pack of a group.
pub open spec fn single_pack(group: Seq<MemberV>, bytes: Seq<u8>) -> Result<Seq<PackV>, ErrorV> {
    let delta = delta_payload(group, bytes, group.len() as int);
    formed_pack(group, bytes, packed_form(bytes), packed_form(delta))
}

/// The first half of a group.
pub open spec fn head_of(group: Seq<MemberV>) -> Seq<MemberV> {
    group.take(group.len() as int / 2)
}

/// Where the second half of a group begins.
pub open spec fn boundary_of(group: Seq<MemberV>) -> int {
    group[group.len() as int / 2].offset
}

/// The second half of a group, counted from its own beginning.
pub open spec fn tail_of(group: Seq<MemberV>) -> Seq<MemberV> {
    group.skip(group.len() as int / 2).map_values(
        |member: MemberV| MemberV { id: member.id, offset: member.offset - boundary_of(group) },
    )
}

/// Neither form of the group fits a pack.
pub open spec fn must_split(group: Seq<MemberV>, bytes: Seq<u8>) -> bool {
    bytes.len() > MAX_PACK_BYTES && delta_payload(group, bytes, group.len() as int).len() > MAX_PACK_BYTES
}

/// The packs of a group. A single object is not packed; a group that fits no
/// pack is halved.
pub open spec fn packs_of(group: Seq<MemberV>, bytes: Seq<u8>) -> Result<Seq<PackV>, ErrorV>
    decreases group.len(),
{
    if group.len() < 2 {
        Ok(Seq::empty())
    } else if must_split(group, bytes) {
        match packs_of(head_of(group), bytes.take(boundary_of(group))) {
            Err(error) => Err(error),
            Ok(first) => match packs_of(tail_of(group), bytes.skip(boundary_of(group))) {
                Err(error) => Err(error),
                Ok(second) => Ok(first + second),
            },
        }
    } else {
        single_pack(group, bytes)
    }
}

fn object_end(group: &[Member], length: usize, i: usize) -> (end: usize)
    requires
        i < group@.len(),
    ensures
        end == end_of(members(group@), length as int, i as int),
{
    assert(group@.len() == group.len());
    if i < group.len() - 1 {
        group[i + 1].offset
    } else {
        length
    }
}

fn lay_out_deltas(group: &[Member], bytes: &[u8]) -> (result: (Vec<u8>, Vec<Placed>))
    requires
        group@.len() >= 2,
        laid_out(members(group@), bytes@.len() as int),
        bytes@.len() <= u32::MAX,
    ensures
        result.0@ == delta_payload(members(group@), bytes@, group@.len() as int),
        places_in(result.1@) == delta_places(members(group@), bytes@, group@.len() as int),
{
    let ghost all = members(group@);
    assert(bytes@.len() == bytes.len());
    assert(group@.len() == group.len());
    let last = &group[group.len() - 1];
    assert(all.last() == last@);
    let base = vstd::slice::slice_subrange(bytes, last.offset, bytes.len());
    assert(base@ =~= group_base(all, bytes@));
    let dictionary = Dictionary::new(base);
    let mut payload: Vec<u8> = Vec::new();
    payload.push(75);
    payload.push(68);
    payload.push(80);
    payload.push(49);
    push_be32(&mut payload, base.len() as u32);
    push_bytes(&mut payload, base);
    assert(payload@ =~= delta_payload(all, bytes@, 0)) by {
        assert(base@.len() == base.len());
        assert(delta_pack_header() + be32(base@.len() as u32) =~= seq![75u8, 68u8, 80u8, 49u8] + be32(
            base@.len() as u32,
        ));
    }
    let mut places: Vec<Placed> = Vec::new();
    let mut i: usize = 0;
    assert(places_in(places@) =~= delta_places(all, bytes@, 0));
    while i < group.len()
        invariant
            i <= group@.len(),
            group@.len() == group.len(),
            group@.len() >= 2,
            bytes@.len() == bytes.len(),
            all == members(group@),
            laid_out(all, bytes@.len() as int),
            dictionary.content() == group_base(all, bytes@),
            payload@ == delta_payload(all, bytes@, i as int),
            places_in(places@) == delta_places(all, bytes@, i as int),
        decreases group@.len() - i,
    {
        let ghost so_far = places_in(places@);
        let ghost laid = payload@;
        let end = object_end(group, bytes.len(), i);
        assert(all[i as int] == group@[i as int]@);
        assert(all[i as int].offset <= end) by {
            if i + 1 < all.len() {
                assert(all[i as int].offset <= all[i + 1].offset);
            }
        }
        assert(end <= bytes@.len()) by {
            if i + 1 < all.len() {
                assert(all[i + 1].offset <= bytes@.len());
            }
        }
        let object = vstd::slice::slice_subrange(bytes, group[i].offset, end);
        assert(object@ == object_at(all, bytes@, i as int));
        if i == group.len() - 1 {
            places.push(Placed { id: group[i].id.clone(), offset: 8, length: object.len(), encoding: 0 });
            assert(delta_part(all, bytes@, i as int) =~= Seq::<u8>::empty());
            assert(laid + delta_part(all, bytes@, i as int) =~= laid);
        } else {
            let delta = dictionary.encode(object);
            let offset: usize = payload.len();
            if delta.len() < object.len() {
                push_bytes(&mut payload, delta.as_slice());
                places.push(Placed { id: group[i].id.clone(), offset, length: delta.len(), encoding: 2 });
            } else {
                push_bytes(&mut payload, object);
                places.push(Placed { id: group[i].id.clone(), offset, length: object.len(), encoding: 0 });
            }
        }
        proof {
            assert(object@.len() == object.len());
            let place = delta_place(all, bytes@, i as int, laid.len() as int);
            assert(places@.last()@ == place);
            assert(places_in(places@) =~= so_far.push(place));
            assert(delta_places(all, bytes@, i + 1) =~= delta_places(all, bytes@, i as int).push(place));
        }
        i += 1;
    }
    (payload, places)
}

fn lay_out_plain(group: &[Member], length: usize) -> (places: Vec<Placed>)
    requires
        laid_out(members(group@), length as int),
    ensures
        forall|bytes: Seq<u8>| bytes.len() == length ==> places_in(places@) == #[trigger] plain_places(
            members(group@),
            bytes,
        ),
{
    let ghost all = members(group@);
    let ghost some: Seq<u8> = Seq::new(length as nat, |i: int| 0u8);
    let mut places: Vec<Placed> = Vec::new();
    let mut i: usize = 0;
    assert(places_in(places@) =~= plain_places(all, some).take(0));
    while i < group.len()
        invariant
            i <= group@.len(),
            all == members(group@),
            some.len() == length,
            laid_out(all, length as int),
            places_in(places@) == plain_places(all, some).take(i as int),
        decreases group@.len() - i,
    {
        let ghost so_far = places_in(places@);
        let end = object_end(group, length, i);
        assert(all[i as int] == group@[i as int]@);
        assert(all[i as int].offset <= end) by {
            if i + 1 < all.len() {
                assert(all[i as int].offset <= all[i + 1].offset);
            }
        }
        let offset: usize = group[i].offset;
        places.push(Placed { id: group[i].id.clone(), offset, length: end - offset, encoding: 0 });
        proof {
            assert(places@.last()@ == plain_places(all, some)[i as int]);
            assert(places_in(places@) =~= so_far.push(plain_places(all, some)[i as int]));
            assert(plain_places(all, some).take(i + 1) =~= plain_places(all, some).take(i as int).push(
                plain_places(all, some)[i as int],
            ));
        }
        i += 1;
    }
    proof {
        assert(plain_places(all, some).take(i as int) =~= plain_places(all, some));
        assert forall|bytes: Seq<u8>| bytes.len() == length implies places_in(places@) == #[trigger] plain_places(
            all,
            bytes,
        ) by {
            assert(plain_places(all, bytes) =~= plain_places(all, some));
        }
    }
    places
}

/// Compress a payload where it fits a pack. One that does not fit gives an empty
/// form, always; compression can fail for want of memory.
fn pack_payload(payload: &[u8]) -> (result: Option<Vec<u8>>)
    ensures
        payload@.len() > MAX_PACK_BYTES ==> result is Some,
        result matches Some(packed) ==> packed@ == packed_form(payload@) && (packed@.len() > 0 <==> payload@.len()
            <= MAX_PACK_BYTES),
{
    assert(payload@.len() == payload.len());
    if payload.len() <= MAX_PACK_BYTES {
        compress(payload, 9)
    } else {
        let none: Vec<u8> = Vec::new();
        assert(none@ =~= Seq::<u8>::empty());
        Some(none)
    }
}

fn verify_pack(payload: Vec<u8>, packed: Vec<u8>, places: Vec<Placed>) -> (result: Result<Pack, Error>)
    requires
        payload@.len() <= isize::MAX,
    ensures
        match result {
            Ok(pack) => verified_pack(payload@, packed@, places_in(places@)) == Ok::<Seq<PackV>, ErrorV>(seq![pack@])
                && pack@.payload == payload@ && pack@.places == places_in(places@),
            Err(error) => verified_pack(payload@, packed@, places_in(places@)) == Err::<Seq<PackV>, ErrorV>(error@),
        },
{
    let content = inflate(packed.as_slice(), payload.len())?;
    if !same_bytes(content.as_slice(), payload.as_slice()) {
        return Err(Error::plain(Problem::PackVerification));
    }
    let hash = hash_bytes(object_id("storage-pack", payload.as_slice()).as_str())?;
    assert(hash.deep_view() =~= hash@);
    Ok(Pack { payload, packed, hash, places })
}

/// The second half of a group, counted from its own beginning.
fn rebased_tail(group: &[Member]) -> (tail: Vec<Member>)
    requires
        group@.len() >= 2,
        exists|length: int| laid_out(members(group@), length),
    ensures
        members(tail@) == tail_of(members(group@)),
{
    let ghost all = members(group@);
    let middle: usize = group.len() / 2;
    assert(group@.len() == group.len());
    let boundary: usize = group[middle].offset;
    assert(all[middle as int] == group@[middle as int]@);
    let mut tail: Vec<Member> = Vec::new();
    let mut i: usize = middle;
    assert(members(tail@) =~= tail_of(all).take(0));
    while i < group.len()
        invariant
            middle <= i <= group@.len(),
            middle == group@.len() / 2,
            group@.len() == group.len(),
            group@.len() >= 2,
            all == members(group@),
            boundary == boundary_of(all),
            exists|length: int| laid_out(all, length),
            members(tail@) == tail_of(all).take(i - middle),
        decreases group@.len() - i,
    {
        let ghost so_far = members(tail@);
        assert(all[i as int] == group@[i as int]@);
        assert(all[middle as int].offset <= all[i as int].offset);
        tail.push(Member { id: group[i].id.clone(), offset: group[i].offset - boundary });
        proof {
            assert(tail@.last()@ == tail_of(all)[i - middle]);
            assert(members(tail@) =~= so_far.push(tail_of(all)[i - middle]));
            assert(tail_of(all).take(i - middle + 1) =~= tail_of(all).take(i - middle).push(
                tail_of(all)[i - middle],
            ));
        }
        i += 1;
    }
    assert(tail_of(all).take(i - middle) =~= tail_of(all));
    tail
}

/// The values of a list of packs.
pub open spec fn packs_in(list: Seq<Pack>) -> Seq<PackV> {
    Seq::new(list.len(), |i: int| list[i]@)
}

proof fn lemma_halves(group: Seq<MemberV>, length: int)
    requires
        group.len() >= 2,
        laid_out(group, length),
    ensures
        0 <= boundary_of(group) <= length,
        laid_out(head_of(group), boundary_of(group)),
        laid_out(tail_of(group), length - boundary_of(group)),
        head_of(group).len() + tail_of(group).len() == group.len(),
        head_of(group).len() == group.len() / 2,
{
    let middle = group.len() as int / 2;
    assert(group[middle].offset <= length);
    assert forall|i: int| 0 <= i < head_of(group).len() implies 0 <= (#[trigger] head_of(group)[i]).offset
        <= boundary_of(group) by {
        assert(group[i].offset <= group[middle].offset);
    }
    assert forall|i: int, j: int| 0 <= i <= j < head_of(group).len() implies (#[trigger] head_of(group)[i]).offset
        <= (#[trigger] head_of(group)[j]).offset by {
        assert(group[i].offset <= group[j].offset);
    }
    let tail = tail_of(group);
    assert forall|i: int| 0 <= i < tail.len() implies 0 <= (#[trigger] tail[i]).offset <= length - boundary_of(
        group,
    ) by {
        assert(group[middle].offset <= group[middle + i].offset);
        assert(group[middle + i].offset <= length);
    }
    assert forall|i: int, j: int| 0 <= i <= j < tail.len() implies (#[trigger] tail[i]).offset <= (
    #[trigger] tail[j]).offset by {
        assert(group[middle + i].offset <= group[middle + j].offset);
    }
}

/// A delta pack is hardly longer than what it holds.
proof fn lemma_delta_length(group: Seq<MemberV>, bytes: Seq<u8>, n: int)
    requires
        group.len() >= 2,
        laid_out(group, bytes.len() as int),
        0 <= n <= group.len(),
    ensures
        delta_payload(group, bytes, n).len() <= 8 + bytes.len() + (if n == 0 {
            0
        } else {
            end_of(group, bytes.len() as int, n - 1)
        }),
        n > 0 ==> end_of(group, bytes.len() as int, n - 1) <= bytes.len(),
    decreases n,
{
    if n > 0 {
        lemma_delta_length(group, bytes, n - 1);
        let object = object_at(group, bytes, n - 1);
        assert(delta_part(group, bytes, n - 1).len() <= object.len());
        assert(group[n - 1].offset <= end_of(group, bytes.len() as int, n - 1)) by {
            if n < group.len() {
                assert(group[n - 1].offset <= group[n].offset);
            }
        }
        if n < group.len() {
            assert(group[n].offset <= bytes.len());
        }
    }
}

fn choose_pack(
    group: &[Member],
    bytes: &[u8],
    delta: Vec<u8>,
    places: Vec<Placed>,
    plain_packed: Vec<u8>,
    delta_packed: Vec<u8>,
) -> (result: Result<Pack, Error>)
    requires
        group@.len() >= 2,
        laid_out(members(group@), bytes@.len() as int),
        bytes@.len() <= MAX_GROUP_BYTES,
        delta@ == delta_payload(members(group@), bytes@, group@.len() as int),
        places_in(places@) == delta_places(members(group@), bytes@, group@.len() as int),
    ensures
        match result {
            Ok(pack) => {
                &&& formed_pack(members(group@), bytes@, plain_packed@, delta_packed@) == Ok::<Seq<PackV>, ErrorV>(
                    seq![pack@],
                )
                &&& pack@.payload.len() <= MAX_PACK_BYTES ==> faithful(pack@, members(group@), bytes@)
            },
            Err(error) => formed_pack(members(group@), bytes@, plain_packed@, delta_packed@) == Err::<
                Seq<PackV>,
                ErrorV,
            >(error@),
        },
{
    let ghost all = members(group@);
    assert(bytes@.len() == bytes.len());
    proof {
        lemma_delta_length(all, bytes@, group@.len() as int);
    }
    if delta_packed.len() > 0 && (plain_packed.len() == 0 || delta_packed.len() < plain_packed.len()) {
        let pack = verify_pack(delta, delta_packed, places)?;
        proof {
            if pack@.payload.len() <= MAX_PACK_BYTES {
                lemma_delta_faithful(all, bytes@, pack@);
            }
        }
        Ok(pack)
    } else {
        let mut payload: Vec<u8> = Vec::new();
        push_bytes(&mut payload, bytes);
        assert(payload@ =~= bytes@);
        let plain = lay_out_plain(group, bytes.len());
        assert(places_in(plain@) == plain_places(all, bytes@));
        let pack = verify_pack(payload, plain_packed, plain)?;
        proof {
            if bytes@.len() <= MAX_PACK_BYTES {
                lemma_plain_faithful(all, bytes@, pack@);
            }
        }
        Ok(pack)
    }
}

/// Make the pack of a group from the compressed forms of its bytes and of its
/// delta pack, whichever is smaller; an empty form stands for one that does not
/// fit a pack. What the compressed form holds is read back first.
pub fn form_pack(group: &[Member], bytes: &[u8], plain_packed: Vec<u8>, delta_packed: Vec<u8>) -> (result: Result<
    Pack,
    Error,
>)
    requires
        group@.len() >= 2,
        laid_out(members(group@), bytes@.len() as int),
        bytes@.len() <= MAX_GROUP_BYTES,
    ensures
        match result {
            Ok(pack) => {
                &&& formed_pack(members(group@), bytes@, plain_packed@, delta_packed@) == Ok::<Seq<PackV>, ErrorV>(
                    seq![pack@],
                )
                &&& pack@.payload.len() <= MAX_PACK_BYTES ==> faithful(pack@, members(group@), bytes@)
            },
            Err(error) => formed_pack(members(group@), bytes@, plain_packed@, delta_packed@) == Err::<
                Seq<PackV>,
                ErrorV,
            >(error@),
        },
{
    let (delta, places) = lay_out_deltas(group, bytes);
    choose_pack(group, bytes, delta, places, plain_packed, delta_packed)
}

/// Pack a group of objects. Compression can fail for want of memory.
pub fn pack_group(group: &[Member], bytes: &[u8]) -> (result: Result<Vec<Pack>, Error>)
    requires
        laid_out(members(group@), bytes@.len() as int),
        bytes@.len() <= MAX_GROUP_BYTES,
    ensures
        match result {
            Ok(packs) => {
                &&& packs_of(members(group@), bytes@) == Ok::<Seq<PackV>, ErrorV>(packs_in(packs@))
                &&& forall|p: int| 0 <= p < packs@.len() ==> faithful((#[trigger] packs@[p])@, members(group@), bytes@)
            },
            Err(error) => group@.len() >= 2 && (error@ == plain(Problem::CompressionFailed) || packs_of(
                members(group@),
                bytes@,
            ) == Err::<Seq<PackV>, ErrorV>(error@)),
        },
    decreases group@.len(),
{
    let ghost all = members(group@);
    assert(group@.len() == group.len());
    assert(bytes@.len() == bytes.len());
    if group.len() < 2 {
        let none: Vec<Pack> = Vec::new();
        assert(packs_in(none@) =~= Seq::<PackV>::empty());
        return Ok(none);
    }
    let (delta, places) = lay_out_deltas(group, bytes);
    proof {
        lemma_halves(all, bytes@.len() as int);
    }
    if bytes.len() > MAX_PACK_BYTES && delta.len() > MAX_PACK_BYTES {
        let middle: usize = group.len() / 2;
        let boundary: usize = group[middle].offset;
        assert(all[middle as int] == group@[middle as int]@);
        let head = vstd::slice::slice_subrange(group, 0, middle);
        assert(members(head@) =~= head_of(all));
        let front = vstd::slice::slice_subrange(bytes, 0, boundary);
        assert(front@ =~= bytes@.take(boundary as int));
        let mut first = match pack_group(head, front) {
            Ok(packs) => packs,
            Err(error) => {
                return Err(error);
            },
        };
        let tail = rebased_tail(group);
        let back = vstd::slice::slice_subrange(bytes, boundary, bytes.len());
        assert(back@ =~= bytes@.skip(boundary as int));
        let mut second = match pack_group(tail.as_slice(), back) {
            Ok(packs) => packs,
            Err(error) => {
                return Err(error);
            },
        };
        let ghost a = first@;
        let ghost b = second@;
        first.append(&mut second);
        proof {
            assert(packs_in(first@) =~= packs_in(a) + packs_in(b));
            assert forall|p: int| 0 <= p < first@.len() implies faithful((#[trigger] first@[p])@, all, bytes@) by {
                if p < a.len() {
                    assert(faithful(a[p]@, head_of(all), bytes@.take(boundary as int)));
                } else {
                    assert(faithful(b[p - a.len()]@, tail_of(all), bytes@.skip(boundary as int)));
                }
                lemma_half_faithful(all, bytes@, first@[p]@);
            }
        }
        return Ok(first);
    }
    let plain_packed = match pack_payload(bytes) {
        Some(packed) => packed,
        None => {
            return Err(Error::plain(Problem::CompressionFailed));
        },
    };
    let delta_packed = match pack_payload(delta.as_slice()) {
        Some(packed) => packed,
        None => {
            return Err(Error::plain(Problem::CompressionFailed));
        },
    };
    let ghost whole = delta@;
    let pack = choose_pack(group, bytes, delta, places, plain_packed, delta_packed)?;
    proof {
        let one = formed_pack(all, bytes@, plain_packed@, delta_packed@)->Ok_0;
        assert(one[0] == pack@);
        assert(pack@.payload == (if prefers_delta(plain_packed@, delta_packed@) {
            whole
        } else {
            bytes@
        }));
    }
    let mut packs: Vec<Pack> = Vec::new();
    packs.push(pack);
    assert(packs_in(packs@) =~= seq![packs@[0]@]);
    Ok(packs)
}

// Nothing is lost

/// What the index says of an object after it was packed.
pub open spec fn packed_location(pack: i64, place: PlacedV, size: int) -> Location {
    Location {
        size: size as i64,
        loose: None,
        pack: Some(pack),
        offset: Some(place.offset as i64),
        encoding: place.encoding,
        stored_size: Some(place.length as i64),
    }
}

/// The place of a pack leads back to a member of the group and to its bytes,
/// whatever number the pack is given.
pub open spec fn restores(pack: PackV, place: PlacedV, group: Seq<MemberV>, bytes: Seq<u8>, i: int) -> bool {
    &&& 0 <= i < group.len()
    &&& group[i].id == place.id
    &&& forall|id: i64|
        packed_object(
            pack.payload,
            #[trigger] packed_location(id, place, object_at(group, bytes, i).len() as int),
        ) == Ok::<Seq<u8>, ErrorV>(object_at(group, bytes, i))
}

/// The place leads back to some member of the group.
pub open spec fn restores_some(pack: PackV, place: PlacedV, group: Seq<MemberV>, bytes: Seq<u8>) -> bool {
    exists|i: int| #[trigger] restores(pack, place, group, bytes, i)
}

/// The pack fits the budget of a reader, and every place in it leads back to a
/// member of the group.
pub open spec fn faithful(pack: PackV, group: Seq<MemberV>, bytes: Seq<u8>) -> bool {
    &&& pack.payload.len() <= MAX_PACK_BYTES
    &&& forall|p: int|
        0 <= p < pack.places.len() ==> restores_some(pack, #[trigger] pack.places[p], group, bytes)
}

proof fn lemma_payload_grows(group: Seq<MemberV>, bytes: Seq<u8>, m: int, n: int)
    requires
        0 <= m <= n,
    ensures
        delta_payload(group, bytes, m).len() <= delta_payload(group, bytes, n).len(),
        delta_payload(group, bytes, n).take(delta_payload(group, bytes, m).len() as int) == delta_payload(
            group,
            bytes,
            m,
        ),
    decreases n - m,
{
    let less = delta_payload(group, bytes, m);
    if m == n {
        assert(less.take(less.len() as int) =~= less);
    } else {
        lemma_payload_grows(group, bytes, m, n - 1);
        let middle = delta_payload(group, bytes, n - 1);
        assert(delta_payload(group, bytes, n).take(less.len() as int) =~= middle.take(less.len() as int));
    }
}

proof fn lemma_base_in_payload(group: Seq<MemberV>, bytes: Seq<u8>, n: int)
    requires
        0 <= n,
        group.len() > 0,
        laid_out(group, bytes.len() as int),
        bytes.len() <= u32::MAX,
    ensures
        ({
            let base = group_base(group, bytes);
            let payload = delta_payload(group, bytes, n);
            &&& payload.len() >= 8 + base.len()
            &&& payload.subrange(8, 8 + base.len() as int) == base
            &&& pack_base(payload) == Ok::<Seq<u8>, ErrorV>(base)
        }),
{
    let base = group_base(group, bytes);
    let start = delta_payload(group, bytes, 0);
    let payload = delta_payload(group, bytes, n);
    let length = base.len() as u32;
    lemma_payload_grows(group, bytes, 0, n);
    crate::encoding::be32_round_trip(length);
    assert(group.last() == group[group.len() - 1]);
    assert(start.len() == 8 + base.len());
    assert(payload.take(4) =~= start.take(4));
    assert(start.take(4) =~= delta_pack_header());
    assert(payload.subrange(4, 8) =~= start.subrange(4, 8));
    assert(start.subrange(4, 8) =~= be32(length));
    assert(payload.subrange(8, 8 + base.len() as int) =~= start.subrange(8, 8 + base.len() as int));
    assert(start.subrange(8, 8 + base.len() as int) =~= base);
}

proof fn lemma_object_bounds(group: Seq<MemberV>, bytes: Seq<u8>, i: int)
    requires
        0 <= i < group.len(),
        laid_out(group, bytes.len() as int),
    ensures
        0 <= group[i].offset <= end_of(group, bytes.len() as int, i) <= bytes.len(),
        object_at(group, bytes, i).len() == end_of(group, bytes.len() as int, i) - group[i].offset,
{
    if i + 1 < group.len() {
        assert(group[i].offset <= group[i + 1].offset);
        assert(group[i + 1].offset <= bytes.len());
    }
    assert(group[i].offset <= bytes.len());
}

proof fn lemma_delta_restores(group: Seq<MemberV>, bytes: Seq<u8>, pack: PackV, i: int)
    requires
        group.len() >= 2,
        0 <= i < group.len(),
        laid_out(group, bytes.len() as int),
        bytes.len() <= MAX_GROUP_BYTES,
        pack.payload == delta_payload(group, bytes, group.len() as int),
        pack.payload.len() <= MAX_PACK_BYTES,
        pack.places == delta_places(group, bytes, group.len() as int),
    ensures
        restores(pack, pack.places[i], group, bytes, i),
{
    let n = group.len() as int;
    let object = object_at(group, bytes, i);
    let base = group_base(group, bytes);
    let before_it = delta_payload(group, bytes, i);
    let place = pack.places[i];
    assert(place == delta_place(group, bytes, i, before_it.len() as int));
    lemma_object_bounds(group, bytes, i);
    lemma_base_in_payload(group, bytes, n);
    if i + 1 == n {
        assert(group.last() == group[i]);
        assert(object =~= base);
    } else {
        lemma_payload_grows(group, bytes, i + 1, n);
        let with_it = delta_payload(group, bytes, i + 1);
        let part = delta_bytes(base, object);
        assert(with_it == before_it + part);
        assert(pack.payload.subrange(place.offset, place.offset + place.length) =~= with_it.subrange(
            place.offset,
            place.offset + place.length,
        )) by {
            assert(pack.payload.take(with_it.len() as int) == with_it);
            assert forall|k: int| 0 <= k < with_it.len() implies pack.payload[k] == with_it[k] by {
                assert(pack.payload.take(with_it.len() as int)[k] == pack.payload[k]);
            }
        }
        assert(with_it.subrange(place.offset, place.offset + place.length) =~= part);
        assert forall|id: i64| packed_span(
            pack.payload,
            #[trigger] packed_location(id, place, object.len() as int),
        ) == Ok::<Seq<u8>, ErrorV>(part) by {}
        crate::delta::delta_round_trip(base, object);
    }
}

proof fn lemma_plain_restores(group: Seq<MemberV>, bytes: Seq<u8>, pack: PackV, i: int)
    requires
        0 <= i < group.len(),
        laid_out(group, bytes.len() as int),
        bytes.len() <= MAX_GROUP_BYTES,
        pack.payload == bytes,
        pack.places == plain_places(group, bytes),
    ensures
        restores(pack, pack.places[i], group, bytes, i),
{
    lemma_object_bounds(group, bytes, i);
}

proof fn lemma_delta_faithful(group: Seq<MemberV>, bytes: Seq<u8>, pack: PackV)
    requires
        group.len() >= 2,
        laid_out(group, bytes.len() as int),
        bytes.len() <= MAX_GROUP_BYTES,
        pack.payload == delta_payload(group, bytes, group.len() as int),
        pack.payload.len() <= MAX_PACK_BYTES,
        pack.places == delta_places(group, bytes, group.len() as int),
    ensures
        faithful(pack, group, bytes),
{
    assert forall|p: int| 0 <= p < pack.places.len() implies restores_some(
        pack,
        #[trigger] pack.places[p],
        group,
        bytes,
    ) by {
        lemma_delta_restores(group, bytes, pack, p);
    }
}

proof fn lemma_plain_faithful(group: Seq<MemberV>, bytes: Seq<u8>, pack: PackV)
    requires
        laid_out(group, bytes.len() as int),
        bytes.len() <= MAX_PACK_BYTES,
        pack.payload == bytes,
        pack.places == plain_places(group, bytes),
    ensures
        faithful(pack, group, bytes),
{
    assert forall|p: int| 0 <= p < pack.places.len() implies restores_some(
        pack,
        #[trigger] pack.places[p],
        group,
        bytes,
    ) by {
        lemma_plain_restores(group, bytes, pack, p);
    }
}

/// What is faithful to a half of a group is faithful to the group.
proof fn lemma_half_faithful(group: Seq<MemberV>, bytes: Seq<u8>, pack: PackV)
    requires
        group.len() >= 2,
        laid_out(group, bytes.len() as int),
        faithful(pack, head_of(group), bytes.take(boundary_of(group))) || faithful(
            pack,
            tail_of(group),
            bytes.skip(boundary_of(group)),
        ),
    ensures
        faithful(pack, group, bytes),
{
    let middle = group.len() as int / 2;
    let boundary = boundary_of(group);
    lemma_halves(group, bytes.len() as int);
    assert forall|p: int| 0 <= p < pack.places.len() implies restores_some(
        pack,
        #[trigger] pack.places[p],
        group,
        bytes,
    ) by {
        let place = pack.places[p];
        if faithful(pack, head_of(group), bytes.take(boundary)) {
            assert(restores_some(pack, place, head_of(group), bytes.take(boundary)));
            let i = choose|i: int| #[trigger] restores(pack, place, head_of(group), bytes.take(boundary), i);
            lemma_object_bounds(group, bytes, i);
            lemma_object_bounds(head_of(group), bytes.take(boundary), i);
            assert(object_at(head_of(group), bytes.take(boundary), i) =~= object_at(group, bytes, i));
            assert(restores(pack, place, group, bytes, i));
        } else {
            assert(restores_some(pack, place, tail_of(group), bytes.skip(boundary)));
            let i = choose|i: int| #[trigger] restores(pack, place, tail_of(group), bytes.skip(boundary), i);
            lemma_object_bounds(group, bytes, middle + i);
            lemma_object_bounds(tail_of(group), bytes.skip(boundary), i);
            assert(object_at(tail_of(group), bytes.skip(boundary), i) =~= object_at(group, bytes, middle + i));
            assert(restores(pack, place, group, bytes, middle + i));
        }
    }
}

/// The identities of the members of a group.
pub open spec fn ids_of(group: Seq<MemberV>) -> Seq<Seq<char>> {
    group.map_values(|member: MemberV| member.id)
}

/// The identities of the members that are packed: all of a group that makes
/// one pack, and none of one that is too small to be packed.
pub open spec fn packed_ids(group: Seq<MemberV>, bytes: Seq<u8>) -> Seq<Seq<char>>
    decreases group.len(),
{
    if group.len() < 2 {
        Seq::empty()
    } else if must_split(group, bytes) {
        packed_ids(head_of(group), bytes.take(boundary_of(group))) + packed_ids(
            tail_of(group),
            bytes.skip(boundary_of(group)),
        )
    } else {
        ids_of(group)
    }
}

/// The identities that some packs have a place for.
pub open spec fn placed_ids(packs: Seq<PackV>) -> Seq<Seq<char>>
    decreases packs.len(),
{
    if packs.len() == 0 {
        Seq::empty()
    } else {
        packs[0].places.map_values(|place: PlacedV| place.id) + placed_ids(packs.skip(1))
    }
}

proof fn lemma_placed_ids_join(first: Seq<PackV>, second: Seq<PackV>)
    ensures
        placed_ids(first + second) == placed_ids(first) + placed_ids(second),
    decreases first.len(),
{
    if first.len() == 0 {
        assert(first + second =~= second);
        assert(placed_ids(first) + placed_ids(second) =~= placed_ids(second));
    } else {
        assert((first + second).skip(1) =~= first.skip(1) + second);
        lemma_placed_ids_join(first.skip(1), second);
        assert(placed_ids(first + second) =~= placed_ids(first) + placed_ids(second));
    }
}

/// The packs of a group have exactly one place for every member, in the order
/// of the group; only a half that is left with a single member has none, and
/// that member stays where it is.
pub proof fn members_have_one_place(group: Seq<MemberV>, bytes: Seq<u8>)
    requires
        packs_of(group, bytes) is Ok,
    ensures
        placed_ids(packs_of(group, bytes)->Ok_0) == packed_ids(group, bytes),
        group.len() >= 2 && !must_split(group, bytes) ==> packed_ids(group, bytes) == ids_of(group),
    decreases group.len(),
{
    let packs = packs_of(group, bytes)->Ok_0;
    if group.len() >= 2 {
        if must_split(group, bytes) {
            let boundary = boundary_of(group);
            members_have_one_place(head_of(group), bytes.take(boundary));
            members_have_one_place(tail_of(group), bytes.skip(boundary));
            lemma_placed_ids_join(
                packs_of(head_of(group), bytes.take(boundary))->Ok_0,
                packs_of(tail_of(group), bytes.skip(boundary))->Ok_0,
            );
        } else {
            assert(packs.len() == 1);
            assert(packs.skip(1) =~= Seq::<PackV>::empty());
            assert(packs[0].places.map_values(|place: PlacedV| place.id) =~= ids_of(group));
            assert(placed_ids(packs.skip(1)) =~= Seq::<Seq<char>>::empty());
            assert(placed_ids(packs) =~= ids_of(group));
        }
    }
}

} // verus!
