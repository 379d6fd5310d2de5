//! Compression of whole maps.
//!
//! A map travels as an LZ4 block behind its length in four bytes, made and
//! read by the `lz4` crate.

use vstd::prelude::*;

use crate::mirror::protocol::{Message, ReceiverState};
use crate::mirror::protocol;
use crate::wire;

verus! {

/// Longest input that LZ4 compresses.
pub const LZ4_MAX_INPUT: usize = 0x7e00_0000;

/// What a well-formed LZ4 block behind the length of its contents holds, and
/// `None` for any other bytes.
pub uninterp spec fn prefixed_decoded(bytes: Seq<u8>) -> Option<Seq<u8>>;

/// What the decoder counts in a block behind the length of its contents: how
/// many bytes it decodes to, and `None` where it refuses the block.
pub uninterp spec fn prefixed_length(bytes: Seq<u8>) -> Option<nat>;

/// The message is too long for LZ4, or the length in front is missing, too
/// large for LZ4 or larger than the map.
pub open spec fn unreadable(compressed: Seq<u8>, map_len: nat) -> bool {
    ||| compressed.len() > i32::MAX
    ||| compressed.len() < 4
    ||| wire::u32_at(compressed, 0) > LZ4_MAX_INPUT
    ||| wire::u32_at(compressed, 0) > map_len
}

/// Room that always suffices for the compressed form of `len` bytes, without
/// the four bytes of the length.
pub open spec fn compress_bound(len: int) -> int {
    len + len / 255 + 16
}

/// `lz4::block::compress_to_buffer` with the default mode and the length in
/// front: fails on more input than LZ4 takes, and never where there is room
/// for the worst case. On success the buffer starts with as many bytes as are
/// returned, and they hold the input. Which bytes they are, what follows them,
/// and whether less room suffices, is left unsaid.
#[verifier::external_body]
fn lz4_compress(data: &[u8], buf: &mut [u8]) -> (r: Option<usize>)
    requires
        4 <= old(buf)@.len() <= i32::MAX,
    ensures
        final(buf)@.len() == old(buf)@.len(),
        data@.len() > LZ4_MAX_INPUT ==> r is None,
        data@.len() <= LZ4_MAX_INPUT && 4 + compress_bound(data@.len() as int) <= old(buf)@.len()
            ==> r is Some,
        r matches Some(n) ==> 4 < n <= old(buf)@.len() && prefixed_decoded(
            final(buf)@.take(n as int),
        ) == Some(data@),
{
    lz4::block::compress_to_buffer(data, None, true, buf).ok()
}

/// `lz4::block::decompress_to_buffer` with the length read from the front:
/// fails where there is no length, or it is too large for LZ4 or for the
/// output, and then leaves the output as it is. Anywhere else the bytes alone
/// decide whether it succeeds and how many bytes it returns, never more than
/// announced. What a well-formed input holds is written to the start of the
/// output. Bytes behind the announced length stay. Which bytes a malformed
/// input leaves before them is left unsaid: they can depend on what the output
/// held before.
#[verifier::external_body]
fn lz4_decompress(compressed: &[u8], out: &mut [u8]) -> (r: Option<usize>)
    requires
        compressed@.len() <= i32::MAX,
    ensures
        final(out)@.len() == old(out)@.len(),
        unreadable(compressed@, old(out)@.len()) ==> r is None && final(out)@ == old(out)@,
        !unreadable(compressed@, old(out)@.len()) ==> match r {
            Some(n) => prefixed_length(compressed@) == Some(n as nat) && n <= wire::u32_at(
                compressed@,
                0,
            ),
            None => prefixed_length(compressed@) is None,
        },
        forall|i: int|
            wire::u32_at(compressed@, 0) <= i < old(out)@.len() ==> #[trigger] final(out)@[i]
                == old(out)@[i],
        prefixed_decoded(compressed@) matches Some(v) ==> v.len() <= old(out)@.len() ==> r == Some(
            v.len() as usize,
        ) && final(out)@.take(v.len() as int) == v,
{
    lz4::block::decompress_to_buffer(compressed, None, out).ok()
}

/// Compresses a map into `buf` and returns how many bytes it takes there.
pub fn compress_map(map: &[u8], buf: &mut [u8]) -> (r: Option<usize>)
    requires
        4 <= old(buf)@.len() <= i32::MAX,
    ensures
        final(buf)@.len() == old(buf)@.len(),
        map@.len() > LZ4_MAX_INPUT ==> r is None,
        map@.len() <= LZ4_MAX_INPUT && 4 + compress_bound(map@.len() as int) <= old(buf)@.len()
            ==> r is Some,
        r matches Some(n) ==> 4 < n <= old(buf)@.len() && prefixed_decoded(
            final(buf)@.take(n as int),
        ) == Some(map@),
{
    lz4_compress(map, buf)
}

/// Decompresses a message to the start of the map. Tells whether it worked: it
/// does where the length in front makes sense and the decoder takes the block,
/// as it takes what a source sends.
pub fn try_decompress_data(compressed: &[u8], target: &mut [u8]) -> (r: bool)
    ensures
        final(target)@.len() == old(target)@.len(),
        r == (!unreadable(compressed@, old(target)@.len()) && prefixed_length(
            compressed@,
        ) is Some),
        unreadable(compressed@, old(target)@.len()) ==> final(target)@ == old(target)@,
        compressed@.len() <= i32::MAX ==> (prefixed_decoded(compressed@) matches Some(v) ==> v.len()
            <= old(target)@.len() ==> r && final(target)@.take(v.len() as int) == v),
        forall|i: int|
            wire::u32_at(compressed@, 0) <= i < old(target)@.len() ==> #[trigger] final(target)@[i]
                == old(target)@[i],
{
    if compressed.len() > i32::MAX as usize {
        return false;
    }
    match lz4_decompress(compressed, target) {
        Some(_) => true,
        None => false,
    }
}

/// A map that is compressed, sent and put together again is decoded to what it
/// was.
pub proof fn map_survives_the_network(
    map: Seq<u8>,
    s: ReceiverState,
    m: Message,
    order: Seq<int>,
)
    requires
        prefixed_decoded(m.data) == Some(map),
        protocol::sendable(m),
        s.current != Some(m.sequence),
        protocol::delivery_order(m, order),
        protocol::all_arrived(m, order),
    ensures
        ({
            let (message, first) = protocol::last_report(s, protocol::deliveries(m, order));
            message matches Some(bytes) && prefixed_decoded(bytes) == Some(map)
        }),
{
    protocol::message_is_reassembled(s, m, order);
}

/// A message is unreadable if it has no length in front, or one that LZ4 or the
/// map has no room for, or is itself too long for LZ4; any other is readable.
pub proof fn length_decides(compressed: Seq<u8>, map_len: nat)
    ensures
        compressed.len() < 4 ==> unreadable(compressed, map_len),
        compressed.len() >= 4 && wire::u32_at(compressed, 0) > map_len ==> unreadable(
            compressed,
            map_len,
        ),
        compressed.len() >= 4 && wire::u32_at(compressed, 0) > 0x7e00_0000 ==> unreadable(
            compressed,
            map_len,
        ),
        4 <= compressed.len() <= 0x7fff_ffff && wire::u32_at(compressed, 0) <= 0x7e00_0000
            && wire::u32_at(compressed, 0) <= map_len ==> !unreadable(compressed, map_len),
{
}

} // verus!
