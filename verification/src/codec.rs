//! Zstandard compression.
use vstd::prelude::*;

verus! {

/// The frame that zstd makes of a byte string at a level.
pub uninterp spec fn zstd_frame(bytes: Seq<u8>, level: i32) -> Seq<u8>;

/// What zstd reads out of a byte string into a buffer of the given capacity;
/// `None` where it fails.
pub uninterp spec fn zstd_content(bytes: Seq<u8>, capacity: usize) -> Option<Seq<u8>>;

/// A vector can hold the buffer that is reserved for the frame of so many
/// bytes.
pub open spec fn compressible(length: int) -> bool {
    length + length / 256 + 64 <= isize::MAX
}

/// Whether so many bytes can be compressed.
pub fn is_compressible(length: usize) -> (result: bool)
    ensures
        result == compressible(length as int),
{
    length as u128 + length as u128 / 256 + 64 <= isize::MAX as u128
}

/// A frame is read as the given bytes into every buffer that can hold them.
pub open spec fn opens_to(frame: Seq<u8>, bytes: Seq<u8>) -> bool {
    forall|capacity: usize| bytes.len() <= capacity ==> #[trigger] zstd_content(frame, capacity) == Some(bytes)
}

/// Wraps `zstd::bulk::compress`. Where it succeeds, the result is the frame
/// for these bytes at this level, the bytes are read out of the frame into
/// every buffer that can hold them, and the frame is not empty, for it begins
/// with a magic number. It fails only for want of memory, of which nothing is
/// said. The bound keeps the buffer that it reserves within what a vector can
/// hold.
#[verifier::external_body]
pub(crate) fn compress(bytes: &[u8], level: i32) -> (result: Option<Vec<u8>>)
    requires
        compressible(bytes@.len() as int),
    ensures
        result matches Some(frame) ==> frame@ == zstd_frame(bytes@, level) && frame@.len() > 0 && opens_to(
            frame@,
            bytes@,
        ),
{
    zstd::bulk::compress(bytes, level).ok()
}

/// Wraps `zstd::bulk::decompress_to_buffer`, on a buffer of the given
/// capacity. The result is what is read out of the bytes into such a buffer.
/// What damaged bytes are read as, and whether they are, is not said; it can
/// hang on the capacity too. The buffer is reserved beforehand, and a vector
/// has to be able to hold it.
#[verifier::external_body]
pub(crate) fn decompress(bytes: &[u8], capacity: usize) -> (result: Option<Vec<u8>>)
    requires
        capacity <= isize::MAX,
    ensures
        match result {
            Some(content) => zstd_content(bytes@, capacity) == Some(content@),
            None => zstd_content(bytes@, capacity) is None,
        },
{
    let mut content = vec![0; capacity];
    let length = zstd::bulk::decompress_to_buffer(bytes, &mut content).ok()?;
    content.truncate(length);
    Some(content)
}

} // verus!
