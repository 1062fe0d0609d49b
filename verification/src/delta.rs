//! Copy/insert encoding against one base of the same pack. These references
//! are physical compression only, never dependencies of versions.
use std::collections::HashMap;

use vstd::prelude::*;

use crate::encoding::{be32, push_be32, read_be32, unbe32};
use crate::error::{outcome, plain, Error, ErrorV, Problem};
use crate::text::{push_bytes, same_bytes};

verus! {

/// The 64-bit FNV-1a hash.
pub open spec fn fnv(bytes: Seq<u8>) -> u64
    decreases bytes.len(),
{
    if bytes.len() == 0 {
        0xcbf2_9ce4_8422_2325
    } else {
        (fnv(bytes.drop_last()) ^ (bytes.last() as u64)).wrapping_mul(0x0000_0100_0000_01b3)
    }
}

fn key(bytes: &[u8]) -> (hash: u64)
    ensures
        hash == fnv(bytes@),
{
    let mut hash: u64 = 0xcbf2_9ce4_8422_2325;
    let mut i: usize = 0;
    while i < bytes.len()
        invariant
            i <= bytes@.len(),
            hash == fnv(bytes@.take(i as int)),
        decreases bytes@.len() - i,
    {
        hash = (hash ^ (bytes[i] as u64)).wrapping_mul(0x0000_0100_0000_01b3);
        assert(bytes@.take(i + 1).drop_last() =~= bytes@.take(i as int));
        i += 1;
    }
    assert(bytes@.take(i as int) =~= bytes@);
    hash
}

/// One block of a byte string.
pub open spec fn block(bytes: Seq<u8>, at: int) -> Seq<u8> {
    bytes.subrange(at, at + 16)
}

/// The first aligned block at or after `from` that has the given hash.
pub open spec fn first_block(base: Seq<u8>, hash: u64, from: int) -> Option<int>
    decreases base.len() - from,
{
    if from + 16 > base.len() {
        None
    } else if fnv(block(base, from)) == hash {
        Some(from)
    } else {
        first_block(base, hash, from + 16)
    }
}

proof fn lemma_first_block(base: Seq<u8>, hash: u64, from: int)
    requires
        0 <= from,
    ensures
        first_block(base, hash, from) matches Some(at) ==> from <= at && at + 16 <= base.len() && fnv(
            block(base, at),
        ) == hash,
    decreases base.len() - from,
{
    if from + 16 <= base.len() && fnv(block(base, from)) != hash {
        lemma_first_block(base, hash, from + 16);
    }
}

/// The base of a pack with its aligned blocks by hash.
pub struct Dictionary<'a> {
    base: &'a [u8],
    blocks: HashMap<u64, usize>,
}

impl<'a> Dictionary<'a> {
    #[verifier::type_invariant]
    spec fn indexed(self) -> bool {
        forall|hash: u64|
            match first_block(self.base@, hash, 0) {
                Some(at) => #[trigger] self.blocks@.contains_key(hash) && self.blocks@[hash] == at,
                None => !self.blocks@.contains_key(hash),
            }
    }

    /// The bytes that copies refer to.
    pub closed spec fn content(self) -> Seq<u8> {
        self.base@
    }
}

/// The index holds the first of the blocks below `end` that has each hash.
spec fn indexed_below(base: Seq<u8>, blocks: Map<u64, usize>, end: int) -> bool {
    forall|hash: u64| #[trigger]
        first_block(base, hash, 0) == (if blocks.contains_key(hash) {
            Some(blocks[hash] as int)
        } else {
            first_block(base, hash, end)
        })
}

/// How far two byte strings agree.
pub open spec fn common(a: Seq<u8>, b: Seq<u8>) -> nat
    decreases a.len(),
{
    if a.len() == 0 || b.len() == 0 || a[0] != b[0] {
        0
    } else {
        1 + common(a.drop_first(), b.drop_first())
    }
}

proof fn lemma_common(a: Seq<u8>, b: Seq<u8>, n: int)
    requires
        0 <= n <= a.len(),
        n <= b.len(),
        a.take(n) == b.take(n),
    ensures
        common(a, b) == n + common(a.skip(n), b.skip(n)),
    decreases n,
{
    if n == 0 {
        assert(a.skip(0) =~= a);
        assert(b.skip(0) =~= b);
    } else {
        assert(a[0] == a.take(n)[0]);
        assert(b[0] == b.take(n)[0]);
        assert(a.drop_first().take(n - 1) =~= a.take(n).drop_first());
        assert(b.drop_first().take(n - 1) =~= b.take(n).drop_first());
        lemma_common(a.drop_first(), b.drop_first(), n - 1);
        assert(a.drop_first().skip(n - 1) =~= a.skip(n));
        assert(b.drop_first().skip(n - 1) =~= b.skip(n));
    }
}

pub proof fn lemma_common_agrees(a: Seq<u8>, b: Seq<u8>)
    ensures
        common(a, b) <= a.len(),
        common(a, b) <= b.len(),
        a.take(common(a, b) as int) == b.take(common(a, b) as int),
    decreases a.len(),
{
    if a.len() == 0 || b.len() == 0 || a[0] != b[0] {
        assert(a.take(0) =~= b.take(0));
    } else {
        lemma_common_agrees(a.drop_first(), b.drop_first());
        let n = common(a.drop_first(), b.drop_first()) as int;
        assert(a.take(n + 1) =~= seq![a[0]] + a.drop_first().take(n));
        assert(b.take(n + 1) =~= seq![b[0]] + b.drop_first().take(n));
    }
}

/// Where the block of `bytes` at `offset` is found in the base.
pub open spec fn matched(base: Seq<u8>, bytes: Seq<u8>, offset: int) -> Option<int> {
    match first_block(base, fnv(block(bytes, offset)), 0) {
        Some(at) => if block(base, at) == block(bytes, offset) {
            Some(at)
        } else {
            None
        },
        None => None,
    }
}

/// Literal bytes.
pub open spec fn insertion(bytes: Seq<u8>) -> Seq<u8> {
    if bytes.len() == 0 {
        Seq::empty()
    } else {
        seq![0u8] + be32(bytes.len() as u32) + bytes
    }
}

/// A stretch of the base.
pub open spec fn copying(at: int, length: nat) -> Seq<u8> {
    seq![1u8] + be32(at as u32) + be32(length as u32)
}

/// The encoding of `bytes` from `offset` on, where the bytes from `literal` on
/// have not been written yet. A match is copied as far as it goes.
pub open spec fn encoded_from(base: Seq<u8>, bytes: Seq<u8>, offset: int, literal: int) -> Seq<u8>
    decreases bytes.len() - offset,
{
    if offset < 0 || offset + 16 > bytes.len() {
        insertion(bytes.skip(literal))
    } else {
        match matched(base, bytes, offset) {
            Some(at) => {
                let length = common(base.skip(at), bytes.skip(offset));
                proof {
                    lemma_matched(base, bytes, offset);
                    lemma_common_agrees(base.skip(at), bytes.skip(offset));
                }
                insertion(bytes.subrange(literal, offset)) + copying(at, length) + encoded_from(
                    base,
                    bytes,
                    offset + length,
                    offset + length,
                )
            },
            None => encoded_from(base, bytes, offset + 1, literal),
        }
    }
}

/// The encoding of `bytes` against a base.
pub open spec fn encoded(base: Seq<u8>, bytes: Seq<u8>) -> Seq<u8> {
    encoded_from(base, bytes, 0, 0)
}

pub proof fn lemma_matched(base: Seq<u8>, bytes: Seq<u8>, offset: int)
    requires
        0 <= offset,
        offset + 16 <= bytes.len(),
    ensures
        matched(base, bytes, offset) matches Some(at) ==> {
            &&& 0 <= at
            &&& at + 16 <= base.len()
            &&& base.skip(at).take(16) == bytes.skip(offset).take(16)
            &&& common(base.skip(at), bytes.skip(offset)) >= 16
        },
{
    lemma_first_block(base, fnv(block(bytes, offset)), 0);
    if let Some(at) = matched(base, bytes, offset) {
        assert(base.skip(at).take(16) =~= block(base, at));
        assert(bytes.skip(offset).take(16) =~= block(bytes, offset));
        lemma_common(base.skip(at), bytes.skip(offset), 16);
    }
}

fn insert(output: &mut Vec<u8>, bytes: &[u8])
    ensures
        final(output)@ == old(output)@ + insertion(bytes@),
{
    if bytes.len() == 0 {
        assert(output@ =~= old(output)@ + insertion(bytes@));
        return;
    }
    assert(bytes@.len() == bytes.len());
    output.push(0);
    push_be32(output, bytes.len() as u32);
    push_bytes(output, bytes);
    assert(output@ =~= old(output)@ + insertion(bytes@));
}

impl<'a> Dictionary<'a> {
    pub fn new(base: &'a [u8]) -> (dictionary: Self)
        ensures
            dictionary.content() == base@,
    {
        broadcast use vstd::std_specs::hash::group_hash_axioms;

        let mut blocks: HashMap<u64, usize> = HashMap::new();
        let mut offset: usize = 0;
        assert(base@.len() == base.len());
        assert(indexed_below(base@, blocks@, 0));
        while base.len() - offset >= 16
            invariant
                offset <= base@.len(),
                base@.len() == base.len(),
                indexed_below(base@, blocks@, offset as int),
            decreases base@.len() - offset,
        {
            let ghost so_far = blocks@;
            let hash = key(vstd::slice::slice_subrange(base, offset, offset + 16));
            assert(hash == fnv(block(base@, offset as int)));
            if !blocks.contains_key(&hash) {
                blocks.insert(hash, offset);
            }
            proof {
                assert forall|h: u64| #[trigger]
                    first_block(base@, h, 0) == (if blocks@.contains_key(h) {
                        Some(blocks@[h] as int)
                    } else {
                        first_block(base@, h, offset + 16)
                    }) by {
                    assert(first_block(base@, h, 0) == (if so_far.contains_key(h) {
                        Some(so_far[h] as int)
                    } else {
                        first_block(base@, h, offset as int)
                    }));
                }
            }
            if base.len() - offset == 16 {
                offset = base.len();
            } else {
                offset += 16;
            }
        }
        proof {
            assert forall|hash: u64|
                match first_block(base@, hash, 0) {
                    Some(at) => #[trigger] blocks@.contains_key(hash) && blocks@[hash] == at,
                    None => !blocks@.contains_key(hash),
                } by {
                assert(first_block(base@, hash, offset as int) is None);
                assert(first_block(base@, hash, 0) == (if blocks@.contains_key(hash) {
                    Some(blocks@[hash] as int)
                } else {
                    first_block(base@, hash, offset as int)
                }));
            }
        }
        Dictionary { base, blocks }
    }

    fn find(&self, bytes: &[u8], offset: usize) -> (result: Option<usize>)
        requires
            offset + 16 <= bytes@.len(),
        ensures
            match result {
                Some(at) => matched(self.content(), bytes@, offset as int) == Some(at as int),
                None => matched(self.content(), bytes@, offset as int) is None,
            },
    {
        broadcast use vstd::std_specs::hash::group_hash_axioms;

        proof {
            use_type_invariant(self);
        }
        assert(bytes@.len() == bytes.len());
        assert(self.base@.len() == self.base.len());
        let wanted = vstd::slice::slice_subrange(bytes, offset, offset + 16);
        let hash = key(wanted);
        assert(hash == fnv(block(bytes@, offset as int)));
        proof {
            lemma_first_block(self.base@, hash, 0);
        }
        match self.blocks.get(&hash) {
            Some(found) => {
                let at: usize = *found;
                let there = vstd::slice::slice_subrange(self.base, at, at + 16);
                if same_bytes(there, wanted) {
                    Some(at)
                } else {
                    None
                }
            },
            None => None,
        }
    }

    fn extent(&self, at: usize, bytes: &[u8], offset: usize) -> (length: usize)
        requires
            at + 16 <= self.content().len(),
            offset + 16 <= bytes@.len(),
            self.content().skip(at as int).take(16) == bytes@.skip(offset as int).take(16),
        ensures
            length == common(self.content().skip(at as int), bytes@.skip(offset as int)),
            offset + length <= bytes@.len(),
            length >= 16,
    {
        let ghost a = self.base@.skip(at as int);
        let ghost b = bytes@.skip(offset as int);
        assert(bytes@.len() == bytes.len());
        assert(self.base@.len() == self.base.len());
        let mut length: usize = 16;
        while length < bytes.len() - offset && length < self.base.len() - at && bytes[offset + length]
            == self.base[at + length]
            invariant
                16 <= length,
                offset + length <= bytes@.len(),
                at + length <= self.base@.len(),
                bytes@.len() == bytes.len(),
                self.base@.len() == self.base.len(),
                a == self.base@.skip(at as int),
                b == bytes@.skip(offset as int),
                a.take(length as int) == b.take(length as int),
            decreases bytes@.len() - length,
        {
            proof {
                assert(a[length as int] == b[length as int]);
                assert(a.take(length + 1) =~= a.take(length as int).push(a[length as int]));
                assert(b.take(length + 1) =~= b.take(length as int).push(b[length as int]));
            }
            length += 1;
        }
        proof {
            lemma_common(a, b, length as int);
            let x = a.skip(length as int);
            let y = b.skip(length as int);
            if x.len() > 0 && y.len() > 0 {
                assert(x[0] == self.base@[at + length]);
                assert(y[0] == bytes@[offset + length]);
            }
            assert(common(x, y) == 0);
        }
        length
    }

    /// Encode `bytes` against the base.
    pub fn encode(&self, bytes: &[u8]) -> (output: Vec<u8>)
        ensures
            output@ == encoded(self.content(), bytes@),
    {
        let mut output: Vec<u8> = Vec::new();
        let mut offset: usize = 0;
        let mut literal: usize = 0;
        let ghost base = self.content();
        assert(bytes@.len() == bytes.len());
        assert(output@ + encoded_from(base, bytes@, 0, 0) =~= encoded(base, bytes@));
        while bytes.len() - offset >= 16
            invariant
                literal <= offset <= bytes@.len(),
                bytes@.len() == bytes.len(),
                base == self.content(),
                output@ + encoded_from(base, bytes@, offset as int, literal as int) == encoded(base, bytes@),
            decreases bytes@.len() - offset,
        {
            let ghost before_step = output@;
            proof {
                lemma_matched(base, bytes@, offset as int);
            }
            match self.find(bytes, offset) {
                Some(at) => {
                    insert(&mut output, vstd::slice::slice_subrange(bytes, literal, offset));
                    let length: usize = self.extent(at, bytes, offset);
                    output.push(1);
                    push_be32(&mut output, at as u32);
                    push_be32(&mut output, length as u32);
                    proof {
                        let step = insertion(bytes@.subrange(literal as int, offset as int)) + copying(
                            at as int,
                            length as nat,
                        );
                        assert(output@ =~= before_step + step);
                        let rest = encoded_from(base, bytes@, offset + length, offset + length);
                        assert(before_step + (step + rest) =~= (before_step + step) + rest);
                    }
                    offset += length;
                    literal = offset;
                },
                None => {
                    offset += 1;
                },
            }
        }
        let ghost before_end = output@;
        insert(&mut output, vstd::slice::slice_subrange(bytes, literal, bytes.len()));
        assert(bytes@.subrange(literal as int, bytes@.len() as int) =~= bytes@.skip(literal as int));
        output
    }
}

proof fn lemma_length_from(base: Seq<u8>, bytes: Seq<u8>, offset: int, literal: int)
    requires
        0 <= literal <= offset <= bytes.len(),
    ensures
        encoded_from(base, bytes, offset, literal).len() <= bytes.len() - literal + 5,
    decreases bytes.len() - offset,
{
    if offset + 16 <= bytes.len() {
        lemma_matched(base, bytes, offset);
        match matched(base, bytes, offset) {
            Some(at) => {
                let length = common(base.skip(at), bytes.skip(offset));
                lemma_common_agrees(base.skip(at), bytes.skip(offset));
                lemma_length_from(base, bytes, offset + length, offset + length);
            },
            None => {
                lemma_length_from(base, bytes, offset + 1, literal);
            },
        }
    }
}

/// An encoding is at most five bytes longer than what it stands for.
pub proof fn lemma_encoded_length(base: Seq<u8>, bytes: Seq<u8>)
    ensures
        encoded(base, bytes).len() <= bytes.len() + 5,
{
    lemma_length_from(base, bytes, 0, 0);
}

// Decoding

/// Apply the operations of `input` to the base, continuing `output`, which may
/// not grow beyond `length` and has to reach it.
pub open spec fn decoded_from(
    base: Seq<u8>,
    input: Seq<u8>,
    length: int,
    output: Seq<u8>,
) -> Result<Seq<u8>, ErrorV>
    decreases input.len(),
{
    if input.len() == 0 {
        if output.len() == length {
            Ok(output)
        } else {
            Err(plain(Problem::DeltaLengthMismatch))
        }
    } else if input.len() < 5 {
        Err(plain(Problem::TruncatedDelta))
    } else {
        let first = unbe32(input.subrange(1, 5));
        let rest = input.skip(5);
        if input[0] == 0 {
            if first > length - output.len() || first > rest.len() {
                Err(plain(Problem::InvalidDeltaLiteral))
            } else {
                decoded_from(base, rest.skip(first), length, output + rest.take(first))
            }
        } else if input[0] == 1 {
            if rest.len() < 4 {
                Err(plain(Problem::TruncatedDeltaCopy))
            } else {
                let count = unbe32(rest.subrange(0, 4));
                if count > length - output.len() {
                    Err(plain(Problem::DeltaTooLong))
                } else if first + count > usize::MAX {
                    Err(plain(Problem::DeltaOffsetOverflow))
                } else if first + count > base.len() {
                    Err(plain(Problem::DeltaOutsideBase))
                } else {
                    decoded_from(base, rest.skip(4), length, output + base.subrange(first, first + count))
                }
            }
        } else {
            Err(plain(Problem::InvalidDeltaOperation))
        }
    }
}

/// What an encoding stands for.
pub open spec fn decoded(base: Seq<u8>, input: Seq<u8>, length: int) -> Result<Seq<u8>, ErrorV> {
    decoded_from(base, input, length, Seq::empty())
}

/// Decode an object of `length` bytes against its base.
pub fn decode(base: &[u8], encoded: &[u8], length: usize) -> (result: Result<Vec<u8>, Error>)
    ensures
        outcome(result) == decoded(base@, encoded@, length as int),
{
    let mut output: Vec<u8> = Vec::new();
    let mut at: usize = 0;
    assert(encoded@.len() == encoded.len());
    assert(base@.len() == base.len());
    assert(encoded@.skip(0) =~= encoded@);
    while at < encoded.len()
        invariant
            at <= encoded@.len(),
            encoded@.len() == encoded.len(),
            base@.len() == base.len(),
            output@.len() <= length,
            decoded_from(base@, encoded@.skip(at as int), length as int, output@) == decoded(
                base@,
                encoded@,
                length as int,
            ),
        decreases encoded@.len() - at,
    {
        let ghost input = encoded@.skip(at as int);
        if encoded.len() - at < 5 {
            return Err(Error::plain(Problem::TruncatedDelta));
        }
        let tag: u8 = encoded[at];
        let first: usize = read_be32(encoded, at + 1) as usize;
        let ghost rest = input.skip(5);
        proof {
            assert(input.subrange(1, 5) =~= encoded@.subrange(at + 1, at + 5));
        }
        at += 5;
        if tag == 0 {
            if first > length - output.len() || first > encoded.len() - at {
                return Err(Error::plain(Problem::InvalidDeltaLiteral));
            }
            let literal = vstd::slice::slice_subrange(encoded, at, at + first);
            proof {
                assert(literal@ =~= rest.take(first as int));
                assert(rest.skip(first as int) =~= encoded@.skip(at + first));
            }
            push_bytes(&mut output, literal);
            at += first;
        } else if tag == 1 {
            if encoded.len() - at < 4 {
                return Err(Error::plain(Problem::TruncatedDeltaCopy));
            }
            let count: usize = read_be32(encoded, at) as usize;
            proof {
                assert(rest.subrange(0, 4) =~= encoded@.subrange(at as int, at + 4));
                assert(rest.skip(4) =~= encoded@.skip(at + 4));
            }
            at += 4;
            if count > length - output.len() {
                return Err(Error::plain(Problem::DeltaTooLong));
            }
            match first.checked_add(count) {
                None => {
                    return Err(Error::plain(Problem::DeltaOffsetOverflow));
                },
                Some(end) => {
                    if end > base.len() {
                        return Err(Error::plain(Problem::DeltaOutsideBase));
                    }
                    push_bytes(&mut output, vstd::slice::slice_subrange(base, first, end));
                },
            }
        } else {
            return Err(Error::plain(Problem::InvalidDeltaOperation));
        }
    }
    if output.len() != length {
        return Err(Error::plain(Problem::DeltaLengthMismatch));
    }
    assert(output.deep_view() =~= output@);
    Ok(output)
}

// Round trip

proof fn lemma_insertion(base: Seq<u8>, bytes: Seq<u8>, tail: Seq<u8>, length: int, output: Seq<u8>)
    requires
        bytes.len() <= u32::MAX,
        output.len() + bytes.len() <= length,
    ensures
        decoded_from(base, insertion(bytes) + tail, length, output) == decoded_from(base, tail, length, output + bytes),
{
    let input = insertion(bytes) + tail;
    if bytes.len() == 0 {
        assert(input =~= tail);
        assert(output + bytes =~= output);
    } else {
        let n = bytes.len() as u32;
        crate::encoding::be32_round_trip(n);
        assert(input.subrange(1, 5) =~= be32(n));
        assert(input.skip(5) =~= bytes + tail);
        assert((bytes + tail).take(n as int) =~= bytes);
        assert((bytes + tail).skip(n as int) =~= tail);
    }
}

proof fn lemma_copying(base: Seq<u8>, at: int, count: nat, tail: Seq<u8>, length: int, output: Seq<u8>)
    requires
        0 <= at,
        base.len() <= u32::MAX,
        at + count <= base.len(),
        output.len() + count <= length,
    ensures
        decoded_from(base, copying(at, count) + tail, length, output) == decoded_from(
            base,
            tail,
            length,
            output + base.subrange(at, at + count),
        ),
{
    let input = copying(at, count) + tail;
    crate::encoding::be32_round_trip(at as u32);
    crate::encoding::be32_round_trip(count as u32);
    assert(input.subrange(1, 5) =~= be32(at as u32));
    assert(input.skip(5) =~= be32(count as u32) + tail);
    assert((be32(count as u32) + tail).subrange(0, 4) =~= be32(count as u32));
    assert((be32(count as u32) + tail).skip(4) =~= tail);
}

proof fn lemma_match_step(base: Seq<u8>, bytes: Seq<u8>, offset: int, literal: int, at: int, count: nat, rest: Seq<u8>)
    requires
        base.len() <= u32::MAX,
        bytes.len() <= u32::MAX,
        0 <= literal <= offset,
        offset + count <= bytes.len(),
        0 <= at,
        at + count <= base.len(),
        base.subrange(at, at + count) == bytes.subrange(offset, offset + count),
        decoded_from(base, rest, bytes.len() as int, bytes.take(offset + count)) == Ok::<Seq<u8>, ErrorV>(bytes),
    ensures
        decoded_from(
            base,
            insertion(bytes.subrange(literal, offset)) + copying(at, count) + rest,
            bytes.len() as int,
            bytes.take(literal),
        ) == Ok::<Seq<u8>, ErrorV>(bytes),
{
    let length = bytes.len() as int;
    let middle = bytes.subrange(literal, offset);
    lemma_insertion(base, middle, copying(at, count) + rest, length, bytes.take(literal));
    assert(insertion(middle) + copying(at, count) + rest =~= insertion(middle) + (copying(at, count) + rest));
    assert(bytes.take(literal) + middle =~= bytes.take(offset));
    lemma_copying(base, at, count, rest, length, bytes.take(offset));
    assert(bytes.take(offset) + bytes.subrange(offset, offset + count) =~= bytes.take(offset + count));
}

proof fn lemma_round_trip(base: Seq<u8>, bytes: Seq<u8>, offset: int, literal: int)
    requires
        base.len() <= u32::MAX,
        bytes.len() <= u32::MAX,
        0 <= literal <= offset <= bytes.len(),
    ensures
        decoded_from(
            base,
            encoded_from(base, bytes, offset, literal),
            bytes.len() as int,
            bytes.take(literal),
        ) == Ok::<Seq<u8>, ErrorV>(bytes),
    decreases bytes.len() - offset,
{
    let length = bytes.len() as int;
    if offset + 16 > bytes.len() {
        let tail = Seq::<u8>::empty();
        lemma_insertion(base, bytes.skip(literal), tail, length, bytes.take(literal));
        assert(insertion(bytes.skip(literal)) + tail =~= insertion(bytes.skip(literal)));
        assert(bytes.take(literal) + bytes.skip(literal) =~= bytes);
    } else {
        lemma_matched(base, bytes, offset);
        match matched(base, bytes, offset) {
            Some(at) => {
                let a = base.skip(at);
                let b = bytes.skip(offset);
                let count = common(a, b);
                lemma_common_agrees(a, b);
                lemma_round_trip(base, bytes, offset + count, offset + count);
                assert(base.subrange(at, at + count) =~= a.take(count as int));
                assert(bytes.subrange(offset, offset + count) =~= b.take(count as int));
                let rest = encoded_from(base, bytes, offset + count, offset + count);
                lemma_match_step(base, bytes, offset, literal, at, count, rest);
            },
            None => {
                lemma_round_trip(base, bytes, offset + 1, literal);
            },
        }
    }
}

/// Decoding gives back what was encoded, whatever the base. Lengths are
/// written in 32 bits.
pub proof fn delta_round_trip(base: Seq<u8>, bytes: Seq<u8>)
    requires
        base.len() <= u32::MAX,
        bytes.len() <= u32::MAX,
    ensures
        decoded(base, encoded(base, bytes), bytes.len() as int) == Ok::<Seq<u8>, ErrorV>(bytes),
{
    lemma_round_trip(base, bytes, 0, 0);
    assert(bytes.take(0) =~= Seq::<u8>::empty());
}

} // verus!
