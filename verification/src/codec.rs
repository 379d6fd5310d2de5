//! Compression of frames.
//!
//! Frames travel as LZ4 blocks, made and read by `lz4_flex`. What that crate
//! does is trusted as stated here; nothing in this file depends on how it does
//! it.

use vstd::prelude::*;

use crate::protocol::Message;
use crate::protocol::ReceiverState;
use crate::reassembly;

verus! {

/// Longest block that is handed to the decoder, 8 MiB. Lengths inside a block
/// of this size fit the decoder's 32-bit sums.
pub const MAX_BLOCK: usize = 0x80_0000;

/// The error type of `lz4_flex`'s encoder.
#[verifier::external_type_specification]
#[verifier::external_body]
pub struct ExCompressError(lz4_flex::block::CompressError);

/// The error type of `lz4_flex`'s decoder.
#[verifier::external_type_specification]
#[verifier::external_body]
pub struct ExDecompressError(lz4_flex::block::DecompressError);

/// What a well-formed LZ4 block decodes to, and `None` for any other bytes.
pub uninterp spec fn lz4_decoded(block: Seq<u8>) -> Option<Seq<u8>>;

/// Bytes that a compressed frame of `len` bytes can take.
pub open spec fn max_compressed(len: int) -> int {
    20 + len * 110 / 100
}

/// `len` is small enough for the encoder: its size estimate does not overflow
/// and its positions fit 32 bits.
pub open spec fn compressible(len: int) -> bool {
    len * 110 <= usize::MAX && len <= u32::MAX
}

/// `lz4_flex::block::get_maximum_output_size`: 10 percent more than the input
/// and 20 bytes.
pub assume_specification[ lz4_flex::block::get_maximum_output_size ](input_len: usize) -> (r: usize)
    requires
        input_len * 110 <= usize::MAX,
    ensures
        r == max_compressed(input_len as int),
;

/// `lz4_flex::block::compress_into`: fails only where the output is shorter
/// than `get_maximum_output_size` asks for. Otherwise the output starts with a
/// block of the returned length, which is never empty, and that block decodes
/// to the input. Which block it is, and what follows it in the output, is left
/// unsaid: the encoder's choices differ from machine to machine.
pub assume_specification[ lz4_flex::block::compress_into ](input: &[u8], output: &mut [u8]) -> (r:
    Result<usize, lz4_flex::block::CompressError>)
    requires
        compressible(input@.len() as int),
    ensures
        final(output)@.len() == old(output)@.len(),
        r is Ok <==> old(output)@.len() >= max_compressed(input@.len() as int),
        r matches Ok(n) ==> 1 <= n <= max_compressed(input@.len() as int),
        r matches Ok(n) ==> n <= MAX_BLOCK ==> lz4_decoded(final(output)@.take(n as int)) == Some(
            input@,
        ),
;

/// `lz4_flex::block::decompress_into`: succeeds exactly on a well-formed block
/// whose contents fit the output. The output then starts with them, and their
/// length is returned. What follows them, and the output after a failure, is
/// left unsaid: the decoder writes ahead.
pub assume_specification[ lz4_flex::block::decompress_into ](input: &[u8], output: &mut [u8]) -> (r:
    Result<usize, lz4_flex::block::DecompressError>)
    requires
        input@.len() <= MAX_BLOCK,
    ensures
        final(output)@.len() == old(output)@.len(),
        match r {
            Ok(n) => n <= old(output)@.len() && lz4_decoded(input@) == Some(
                final(output)@.take(n as int),
            ),
            Err(e) => match lz4_decoded(input@) {
                Some(v) => v.len() > old(output)@.len(),
                None => true,
            },
        },
;

/// A buffer of zeros that every frame of up to `max_len` bytes can be
/// compressed into.
pub fn compression_buffer(max_len: usize) -> (buf: Vec<u8>)
    requires
        compressible(max_len as int),
        max_compressed(max_len as int) <= isize::MAX,
    ensures
        buf@ == Seq::new(max_compressed(max_len as int) as nat, |i: int| 0u8),
{
    let size: usize = lz4_flex::block::get_maximum_output_size(max_len);
    let buf: Vec<u8> = vec![0u8; size];
    assert(buf@ =~= Seq::new(max_compressed(max_len as int) as nat, |i: int| 0u8));
    buf
}

/// Compresses a frame into `buf` and returns the length of the block. `None`
/// if the buffer is too short or the frame too long for the encoder.
pub fn compress_frame(data: &[u8], buf: &mut [u8]) -> (r: Option<usize>)
    ensures
        final(buf)@.len() == old(buf)@.len(),
        r is Some <==> compressible(data@.len() as int) && old(buf)@.len() >= max_compressed(
            data@.len() as int,
        ),
        r matches Some(n) ==> 1 <= n <= max_compressed(data@.len() as int),
        r matches Some(n) ==> n <= MAX_BLOCK ==> lz4_decoded(final(buf)@.take(n as int)) == Some(
            data@,
        ),
{
    if data.len() > usize::MAX / 110 || data.len() as u64 > u32::MAX as u64 {
        assert(!compressible(data@.len() as int));
        return None;
    }
    match lz4_flex::block::compress_into(data, buf) {
        Ok(n) => Some(n),
        Err(_) => None,
    }
}

/// Decompresses a block to the start of `out` and returns the length of the
/// frame. `None` if the block is malformed or its frame does not fit.
pub fn decompress_frame(block: &[u8], out: &mut [u8]) -> (r: Option<usize>)
    requires
        block@.len() <= MAX_BLOCK,
    ensures
        final(out)@.len() == old(out)@.len(),
        match r {
            Some(n) => n <= old(out)@.len() && lz4_decoded(block@) == Some(
                final(out)@.take(n as int),
            ),
            None => match lz4_decoded(block@) {
                Some(v) => v.len() > old(out)@.len(),
                None => true,
            },
        },
{
    match lz4_flex::block::decompress_into(block, out) {
        Ok(n) => Some(n),
        Err(_) => None,
    }
}

/// A frame that is compressed, sent and put together again is decoded to what
/// it was: its block arrives as it was sent.
pub proof fn frame_survives_the_network(
    data: Seq<u8>,
    s: ReceiverState,
    m: Message,
    order: Seq<int>,
)
    requires
        lz4_decoded(m.data) == Some(data),
        s.wf(),
        reassembly::acceptable(m, s.max_payload),
        reassembly::is_new(m, s),
        reassembly::delivery_order(m, order),
        reassembly::all_arrived(m, order),
    ensures
        reassembly::last_outcome(s, reassembly::deliveries(m, order)).assembled matches Some(block)
            && lz4_decoded(block) == Some(data),
{
    reassembly::message_is_reassembled(s, m, order);
}

} // verus!
