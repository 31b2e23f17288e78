//! The byte-stream compressor behind the store's blocks.
//!
//! Compression is done by the `zstd` crate. Nothing here is proved: the two
//! functions below are the whole of what the store assumes about it.

use vstd::prelude::*;

verus! {

/// Largest payload handed to the compressor in one piece: 128 MiB.
pub const MAX_BLOCK: usize = 0x0800_0000;

/// The frame that `zstd::bulk::compress` produces for `data` at `level`.
pub uninterp spec fn zstd_frame(data: Seq<u8>, level: i32) -> Seq<u8>;

/// Calls `zstd::bulk::compress`.
///
/// Assumed: when the call succeeds, its output is the frame of the input at
/// the given level. Whether it succeeds is left open. Inputs are kept
/// to `MAX_BLOCK` bytes so that the output buffer the crate allocates for the
/// worst case stays within what a vector can hold.
#[verifier::external_body]
pub(crate) fn compress(data: &[u8], level: i32) -> (r: Option<Vec<u8>>)
    requires
        data@.len() <= MAX_BLOCK,
    ensures
        r matches Some(frame) ==> frame@ == zstd_frame(data@, level),
{
    zstd::bulk::compress(data, level).ok()
}

/// Calls `zstd::bulk::decompress`.
///
/// Assumed: compression is lossless. Given a frame that `compress` made of
/// some data no longer than `capacity`, at whatever level, the call succeeds
/// and returns that data. Of any other input nothing is assumed.
#[verifier::external_body]
pub(crate) fn decompress(frame: &[u8], capacity: usize) -> (r: Option<Vec<u8>>)
    requires
        capacity <= MAX_BLOCK,
    ensures
        forall|data: Seq<u8>, level: i32|
            frame@ == #[trigger] zstd_frame(data, level) && data.len() <= capacity ==> r is Some
                && r->0@ == data,
{
    zstd::bulk::decompress(frame, capacity).ok()
}

} // verus!
