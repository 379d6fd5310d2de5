//! What a sender promises over many calls.

use vstd::prelude::*;

use crate::protocol::{Header, Sender, SenderState, HEADER_SIZE};
use crate::protocol;
use crate::reassembly;

verus! {

/// A call of a sender.
pub enum Call {
    /// A message, and the datagram that the transport refuses, if it does.
    Send { data: Seq<u8>, source_us: u64, buf_offset: u32, refused_at: Option<nat> },
    /// A heartbeat, whether it is refused or not.
    Heartbeat,
}

/// A message is sent: it has as many fragments as fit a header, and none is
/// refused.
pub open spec fn succeeds(s: SenderState, call: Call) -> bool {
    match call {
        Call::Send { data, source_us, buf_offset, refused_at } => {
            let n = s.message(data, source_us, buf_offset).count();
            1 <= n <= u16::MAX && (refused_at matches Some(k) ==> k >= n)
        },
        Call::Heartbeat => false,
    }
}

/// The sender after a call.
pub open spec fn after(s: SenderState, call: Call) -> SenderState {
    if succeeds(s, call) {
        s.advanced()
    } else {
        s
    }
}

/// The datagrams that a call has to hand out: all of the message's, or those up
/// to the one that is refused.
pub open spec fn handed_out(s: SenderState, call: Call) -> Seq<Seq<u8>> {
    match call {
        Call::Send { data, source_us, buf_offset, refused_at } => {
            let m = s.message(data, source_us, buf_offset);
            if 1 <= m.count() <= u16::MAX {
                Seq::new(
                    match refused_at {
                        Some(k) => if k < m.count() {
                            k + 1
                        } else {
                            m.count()
                        },
                        None => m.count(),
                    },
                    |i: int| m.datagram(i),
                )
            } else {
                Seq::empty()
            }
        },
        Call::Heartbeat => seq![protocol::heartbeat_header().bytes()],
    }
}

/// The sender after the calls, one after another.
pub open spec fn after_all(s: SenderState, calls: Seq<Call>) -> SenderState
    decreases calls.len(),
{
    if calls.len() == 0 {
        s
    } else {
        after(after_all(s, calls.drop_last()), calls.last())
    }
}

/// How many of the calls send a message.
pub open spec fn successes(s: SenderState, calls: Seq<Call>) -> nat
    decreases calls.len(),
{
    if calls.len() == 0 {
        0
    } else {
        let before = calls.drop_last();
        successes(s, before) + if succeeds(after_all(s, before), calls.last()) {
            1nat
        } else {
            0nat
        }
    }
}

/// The datagrams of all the calls, and whether each sends a message.
pub open spec fn trace(s: SenderState, calls: Seq<Call>) -> Seq<(Seq<Seq<u8>>, bool)>
    decreases calls.len(),
{
    if calls.len() == 0 {
        Seq::empty()
    } else {
        let now = after_all(s, calls.drop_last());
        trace(s, calls.drop_last()).push(
            (handed_out(now, calls.last()), succeeds(now, calls.last())),
        )
    }
}

/// Every message that is sent takes the next number, and nothing else does: not
/// one that is refused, nor a heartbeat.
pub proof fn sends_take_numbers(s: SenderState, calls: Seq<Call>)
    ensures
        after_all(s, calls).sequence == (s.sequence + successes(s, calls)) % 0x1_0000_0000,
        after_all(s, calls).per == s.per,
    decreases calls.len(),
{
    if calls.len() > 0 {
        sends_take_numbers(s, calls.drop_last());
    }
}

/// The messages of a new sender are numbered from 0 on: each datagram of the one
/// that is sent after `k` others carries `k`, modulo 2^32.
pub proof fn sends_are_numbered(
    datagram_size: int,
    calls: Seq<Call>,
    data: Seq<u8>,
    source_us: u64,
    buf_offset: u32,
    i: int,
)
    ensures
        ({
            let s = SenderState::fresh(datagram_size);
            let m = after_all(s, calls).message(data, source_us, buf_offset);
            Header::of(m.datagram(i)).sequence == successes(s, calls) % 0x1_0000_0000
        }),
{
    let s = SenderState::fresh(datagram_size);
    let m = after_all(s, calls).message(data, source_us, buf_offset);
    sends_take_numbers(s, calls);
    protocol::header_round_trip(m.header(i), protocol::chunk(m.data, m.per, i));
}

/// Senders with the same next number and room give the same results and the same
/// datagrams over the same calls.
pub proof fn equal_senders_agree(a: Sender, b: Sender, calls: Seq<Call>)
    requires
        a@ == b@,
    ensures
        trace(a@, calls) == trace(b@, calls),
        after_all(a@, calls) == after_all(b@, calls),
{
}

/// No datagram of a sender is longer than it was made for, whatever it sent
/// before.
pub proof fn datagrams_keep_their_size(
    datagram_size: int,
    calls: Seq<Call>,
    data: Seq<u8>,
    source_us: u64,
    buf_offset: u32,
    i: int,
)
    requires
        datagram_size > HEADER_SIZE,
        0 <= i < after_all(SenderState::fresh(datagram_size), calls).message(
            data,
            source_us,
            buf_offset,
        ).count(),
    ensures
        after_all(SenderState::fresh(datagram_size), calls).message(
            data,
            source_us,
            buf_offset,
        ).datagram(i).len() <= datagram_size,
{
    let s = SenderState::fresh(datagram_size);
    sends_take_numbers(s, calls);
    reassembly::datagrams_fit(after_all(s, calls).message(data, source_us, buf_offset), i);
}

} // verus!
