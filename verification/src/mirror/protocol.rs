//! Fragmentation and reassembly of whole-map messages.

use vstd::prelude::*;

use crate::protocol::SendError;
use crate::protocol;
use crate::reassembly;
use crate::wire;

verus! {

/// Bytes of the largest datagram.
pub const MAX_DATAGRAM_SIZE: usize = 9_000;

/// Bytes of the header that starts every datagram.
pub const HEADER_SIZE: usize = 20;

/// Payload bytes of the largest datagram.
pub const MAX_PAYLOAD_SIZE: usize = 8_980;

// ── Header ────────────────────────────────────────────────────────────────────

/// The header of a datagram: 20 bytes on the wire, little-endian, in the order
/// of the fields.
#[derive(Clone, Copy)]
pub struct DatagramHeader {
    /// Number of the message, one higher for each.
    pub sequence: u32,
    /// Index of this fragment.
    pub fragment: u16,
    /// Fragments of this message.
    pub fragments: u16,
    /// Bytes of the whole message, over all its fragments.
    pub payload_size: u32,
    /// Microseconds spent on the source side.
    pub source_time_us: u64,
}

impl DatagramHeader {
    /// The bytes of the header on the wire.
    pub open spec fn bytes(self) -> Seq<u8> {
        wire::u32_bytes(self.sequence as int) + wire::u16_bytes(self.fragment as int)
            + wire::u16_bytes(self.fragments as int) + wire::u32_bytes(self.payload_size as int)
            + wire::u64_bytes(self.source_time_us as int)
    }

    /// The header that a datagram starts with.
    pub open spec fn of(datagram: Seq<u8>) -> DatagramHeader {
        DatagramHeader {
            sequence: wire::u32_at(datagram, 0) as u32,
            fragment: wire::u16_at(datagram, 4) as u16,
            fragments: wire::u16_at(datagram, 6) as u16,
            payload_size: wire::u32_at(datagram, 8) as u32,
            source_time_us: wire::u64_at(datagram, 12) as u64,
        }
    }

    /// Appends the header's bytes to `out`.
    pub fn encode(&self, out: &mut Vec<u8>)
        ensures
            final(out)@ == old(out)@ + self.bytes(),
    {
        wire::push_u32(out, self.sequence);
        wire::push_u16(out, self.fragment);
        wire::push_u16(out, self.fragments);
        wire::push_u32(out, self.payload_size);
        wire::push_u64(out, self.source_time_us);
        assert(out@ =~= old(out)@ + self.bytes());
    }

    /// Reads the header at the start of a datagram.
    pub fn decode(datagram: &[u8]) -> (h: DatagramHeader)
        requires
            datagram@.len() >= HEADER_SIZE,
        ensures
            h == DatagramHeader::of(datagram@),
    {
        DatagramHeader {
            sequence: wire::rd_u32(datagram, 0),
            fragment: wire::rd_u16(datagram, 4),
            fragments: wire::rd_u16(datagram, 6),
            payload_size: wire::rd_u32(datagram, 8),
            source_time_us: wire::rd_u64(datagram, 12),
        }
    }
}

/// A header written at the start of a datagram is the header read from it.
pub proof fn header_round_trip(h: DatagramHeader, rest: Seq<u8>)
    ensures
        h.bytes().len() == HEADER_SIZE,
        DatagramHeader::of(h.bytes() + rest) == h,
{
    wire::lemma_u32_round_trip(h.sequence as int);
    wire::lemma_u16_round_trip(h.fragment as int);
    wire::lemma_u16_round_trip(h.fragments as int);
    wire::lemma_u32_round_trip(h.payload_size as int);
    wire::lemma_u64_round_trip(h.source_time_us as int);
    let d = h.bytes() + rest;
    assert(wire::u32_at(d, 0) == wire::u32_at(wire::u32_bytes(h.sequence as int), 0));
    assert(wire::u16_at(d, 4) == wire::u16_at(wire::u16_bytes(h.fragment as int), 0));
    assert(wire::u16_at(d, 6) == wire::u16_at(wire::u16_bytes(h.fragments as int), 0));
    assert(wire::u32_at(d, 8) == wire::u32_at(wire::u32_bytes(h.payload_size as int), 0));
    assert(wire::u64_at(d, 12) == wire::u64_at(wire::u64_bytes(h.source_time_us as int), 0));
}

// ── Sender ────────────────────────────────────────────────────────────────────

/// A message as the sender puts it on the wire.
pub struct Message {
    pub sequence: u32,
    pub source_time_us: u64,
    pub data: Seq<u8>,
}

impl Message {
    /// How many datagrams the message takes.
    pub open spec fn count(self) -> nat {
        protocol::fragment_count(self.data.len(), MAX_PAYLOAD_SIZE as nat)
    }

    /// The header of datagram `i`. The length is cut to its low 32 bits.
    pub open spec fn header(self, i: int) -> DatagramHeader {
        DatagramHeader {
            sequence: self.sequence,
            fragment: i as u16,
            fragments: self.count() as u16,
            payload_size: (self.data.len() % 0x1_0000_0000) as u32,
            source_time_us: self.source_time_us,
        }
    }

    /// The bytes of the message that fragment `i` carries.
    pub open spec fn chunk(self, i: int) -> Seq<u8> {
        protocol::chunk(self.data, MAX_PAYLOAD_SIZE as nat, i)
    }

    /// Datagram `i` of the message.
    pub open spec fn datagram(self, i: int) -> Seq<u8> {
        self.header(i).bytes() + self.chunk(i)
    }
}

/// The number after `sequence`; after the highest comes 0.
pub open spec fn following(sequence: u32) -> u32 {
    ((sequence + 1) % 0x1_0000_0000) as u32
}

/// A call of a sender: the message, and the datagram that is refused, if one
/// is.
pub struct Call {
    pub data: Seq<u8>,
    pub source_time_us: u64,
    pub refused_at: Option<nat>,
}

impl Call {
    /// The message that a sender with this next number makes of it.
    pub open spec fn message(self, sequence: u32) -> Message {
        Message { sequence, source_time_us: self.source_time_us, data: self.data }
    }

    /// The message is sent: it is not too long, and none of its datagrams is
    /// refused.
    pub open spec fn succeeds(self) -> bool {
        let n = self.message(0).count();
        n <= u16::MAX && (self.refused_at matches Some(k) ==> k >= n)
    }
}

/// How many of the calls succeed.
pub open spec fn successes(calls: Seq<Call>) -> nat
    decreases calls.len(),
{
    if calls.len() == 0 {
        0
    } else {
        successes(calls.drop_last()) + if calls.last().succeeds() {
            1nat
        } else {
            0nat
        }
    }
}

/// The next number after the calls, one after another.
pub open spec fn number_after(sequence: u32, calls: Seq<Call>) -> u32
    decreases calls.len(),
{
    if calls.len() == 0 {
        sequence
    } else {
        let before = number_after(sequence, calls.drop_last());
        if calls.last().succeeds() {
            following(before)
        } else {
            before
        }
    }
}

/// Every message that is sent takes the next number, and one that is refused
/// takes none.
pub proof fn sends_take_numbers(sequence: u32, calls: Seq<Call>)
    ensures
        number_after(sequence, calls) == (sequence + successes(calls)) % 0x1_0000_0000,
    decreases calls.len(),
{
    if calls.len() > 0 {
        sends_take_numbers(sequence, calls.drop_last());
    }
}

/// The messages of a new sender are numbered from 0 on: each datagram of the one
/// that is sent after `k` others carries `k`, modulo 2^32.
pub proof fn sends_are_numbered(calls: Seq<Call>, next: Call, i: int)
    ensures
        DatagramHeader::of(next.message(number_after(0, calls)).datagram(i)).sequence
            == successes(calls) % 0x1_0000_0000,
{
    let m = next.message(number_after(0, calls));
    sends_take_numbers(0, calls);
    header_round_trip(m.header(i), m.chunk(i));
}

/// The bytes are those of one of the message's datagrams. A message that is
/// too long has none.
pub open spec fn is_datagram_of(m: Message, d: Seq<u8>) -> bool {
    m.count() <= u16::MAX && exists|i: int| 0 <= i < m.count() && d == #[trigger] m.datagram(i)
}

/// Splits messages into datagrams. Its view is the number of the next message.
pub struct Sender {
    sequence: u32,
}

impl View for Sender {
    type V = u32;

    closed spec fn view(&self) -> u32 {
        self.sequence
    }
}

impl Sender {
    /// A sender whose first message has the number 0.
    pub fn new() -> (s: Sender)
        ensures
            s@ == 0,
    {
        Sender { sequence: 0 }
    }

    /// The message that `send` puts on the wire for these arguments.
    pub open spec fn message(&self, data: Seq<u8>, source_time_us: u64) -> Message {
        Message { sequence: self@, source_time_us, data }
    }

    /// Datagram `i` of the message.
    fn datagram(&self, data: &[u8], source_time_us: u64, i: u16, n: u16) -> (d: Vec<u8>)
        requires
            n == self.message(data@, source_time_us).count(),
            i < n,
        ensures
            d@ == self.message(data@, source_time_us).datagram(i as int),
    {
        let total: usize = data.len();
        proof {
            protocol::lemma_fragment_count(total as nat, MAX_PAYLOAD_SIZE as nat);
            assert(0 <= i * MAX_PAYLOAD_SIZE < total);
        }
        let offset: usize = i as usize * MAX_PAYLOAD_SIZE;
        let end: usize = if total - offset > MAX_PAYLOAD_SIZE {
            offset + MAX_PAYLOAD_SIZE
        } else {
            total
        };
        let header = DatagramHeader {
            sequence: self.sequence,
            fragment: i,
            fragments: n,
            payload_size: (total as u64 % 0x1_0000_0000) as u32,
            source_time_us,
        };
        let mut d: Vec<u8> = Vec::new();
        header.encode(&mut d);
        d.extend_from_slice(&data[offset..end]);
        assert(d@ =~= self.message(data@, source_time_us).datagram(i as int));
        d
    }

    /// The datagrams of the next message, in the order in which they are sent.
    /// `None` if it needs more than `u16::MAX` of them.
    pub fn datagrams(&self, data: &[u8], source_time_us: u64) -> (r: Option<Vec<Vec<u8>>>)
        ensures
            ({
                let m = self.message(data@, source_time_us);
                &&& r is Some <==> m.count() <= u16::MAX
                &&& r matches Some(list) ==> {
                    &&& list@.len() == m.count()
                    &&& forall|i: int| 0 <= i < m.count() ==> (#[trigger] list@[i])@ == m.datagram(i)
                }
            }),
    {
        let total: usize = data.len();
        proof {
            protocol::lemma_ceiling(total as nat, MAX_PAYLOAD_SIZE as nat);
        }
        let n: usize = if total % MAX_PAYLOAD_SIZE == 0 {
            total / MAX_PAYLOAD_SIZE
        } else {
            total / MAX_PAYLOAD_SIZE + 1
        };
        if n > u16::MAX as usize {
            return None;
        }
        let ghost m = self.message(data@, source_time_us);
        let mut list: Vec<Vec<u8>> = Vec::new();
        let mut i: usize = 0;
        while i < n
            invariant
                i <= n <= u16::MAX,
                n == m.count(),
                m == self.message(data@, source_time_us),
                list@.len() == i,
                forall|j: int| 0 <= j < i ==> (#[trigger] list@[j])@ == m.datagram(j),
            decreases n - i,
        {
            list.push(self.datagram(data, source_time_us, i as u16, n as u16));
            i = i + 1;
        }
        Some(list)
    }

    /// Fragments `data` and hands its datagrams to `send_fn` until one is
    /// refused. Returns the number of fragments, which is 0 for an empty
    /// message. A message that is refused part-way keeps its sequence number.
    ///
    /// The contract says that `send_fn` is handed nothing but the message's
    /// datagrams, and which of them it took. It does not say how often it is
    /// called, nor in which order.
    pub fn send<E, F>(&mut self, data: &[u8], source_time_us: u64, send_fn: F) -> (r: Result<
        u16,
        SendError<E>,
    >) where F: FnMut(&[u8]) -> Result<(), E>
        requires
            forall|d: &[u8]|
                is_datagram_of(old(self).message(data@, source_time_us), d@) ==> call_requires(
                    send_fn,
                    (d,),
                ),
        ensures
            ({
                let m = old(self).message(data@, source_time_us);
                match r {
                    Ok(n) => {
                        &&& m.count() <= u16::MAX
                        &&& n == m.count()
                        &&& forall|i: int|
                            0 <= i < m.count() ==> protocol::taken(
                                send_fn,
                                #[trigger] m.datagram(i),
                            )
                        &&& final(self)@ == following(old(self)@)
                    },
                    Err(SendError::InvalidData) => {
                        &&& m.count() > u16::MAX
                        &&& final(self)@ == old(self)@
                    },
                    Err(SendError::Transport(e)) => {
                        &&& m.count() <= u16::MAX
                        &&& final(self)@ == old(self)@
                        &&& exists|k: int|
                            {
                                &&& 0 <= k < m.count()
                                &&& protocol::refused(send_fn, #[trigger] m.datagram(k), e)
                                &&& forall|i: int|
                                    0 <= i < k ==> protocol::taken(
                                        send_fn,
                                        #[trigger] m.datagram(i),
                                    )
                            }
                    },
                }
            }),
    {
        let list = match self.datagrams(data, source_time_us) {
            Some(list) => list,
            None => {
                return Err(SendError::InvalidData);
            },
        };
        let ghost m = self.message(data@, source_time_us);
        let mut f = send_fn;
        let mut i: usize = 0;
        while i < list.len()
            invariant
                i <= list@.len(),
                list@.len() == m.count(),
                m.count() <= u16::MAX,
                self@ == old(self)@,
                m == old(self).message(data@, source_time_us),
                forall|j: int| 0 <= j < m.count() ==> (#[trigger] list@[j])@ == m.datagram(j),
                f == send_fn,
                forall|d: &[u8]| is_datagram_of(m, d@) ==> call_requires(send_fn, (d,)),
                forall|j: int|
                    0 <= j < i ==> protocol::taken(send_fn, #[trigger] m.datagram(j)),
            decreases list@.len() - i,
        {
            let d = list[i].as_slice();
            assert(d@ == m.datagram(i as int));
            assert(is_datagram_of(m, d@));
            match f(d) {
                Ok(()) => {},
                Err(e) => {
                    assert(protocol::refused(send_fn, m.datagram(i as int), e));
                    return Err(SendError::Transport(e));
                },
            }
            assert(protocol::taken(send_fn, m.datagram(i as int)));
            i = i + 1;
        }
        self.sequence = self.sequence.wrapping_add(1);
        assert(i == m.count());
        assert(self@ == following(old(self)@));
        Ok(i as u16)
    }
}

// ── Receiver ──────────────────────────────────────────────────────────────────

/// What a receiver is, seen from outside.
#[verifier::ext_equal]
pub struct ReceiverState {
    /// Number of the message that is being put together.
    pub current: Option<u32>,
    /// Which of its fragments are in.
    pub received: Seq<bool>,
    /// Its bytes, as far as they are in.
    pub payload: Seq<u8>,
    /// Source-side time of the newest first fragment.
    pub source_time_us: u64,
}

/// The message, if a datagram completed one, and whether the datagram was the
/// first fragment of its message.
pub type Report = (Option<Seq<u8>>, bool);

impl ReceiverState {
    /// The state before any datagram.
    pub open spec fn initial() -> ReceiverState {
        ReceiverState {
            current: None,
            received: Seq::empty(),
            payload: Seq::empty(),
            source_time_us: 0,
        }
    }

    /// Every fragment is in.
    pub open spec fn complete(self) -> bool {
        forall|i: int| 0 <= i < self.received.len() ==> #[trigger] self.received[i]
    }

    /// The state in which the bytes of a datagram with this header are stored:
    /// the first datagram of another message gives up the one before.
    pub open spec fn joined(self, h: DatagramHeader) -> ReceiverState {
        let stamped = ReceiverState {
            source_time_us: if h.fragment == 0 {
                h.source_time_us
            } else {
                self.source_time_us
            },
            ..self
        };
        if self.current == Some(h.sequence) {
            stamped
        } else {
            ReceiverState {
                current: Some(h.sequence),
                received: Seq::new(h.fragments as nat, |i: int| false),
                payload: Seq::new(h.payload_size as nat, |i: int| 0u8),
                ..stamped
            }
        }
    }

    /// The header fits the message: a fragment that its header counts among
    /// the message's is one of those that the message began with.
    pub open spec fn fits(self, datagram: Seq<u8>) -> bool {
        let h = DatagramHeader::of(datagram);
        datagram.len() >= HEADER_SIZE && h.fragment < h.fragments ==> h.fragment < self.joined(
            h,
        ).received.len()
    }

    /// Stores the bytes of one fragment of the current message. A fragment out
    /// of range, already in or reaching past the message is left out.
    pub open spec fn stored(self, h: DatagramHeader, data: Seq<u8>) -> (ReceiverState, Report) {
        let idx = h.fragment as int;
        let at = idx * MAX_PAYLOAD_SIZE;
        let first = h.fragment == 0;
        if idx >= h.fragments || self.received[idx] || at + data.len() > self.payload.len() {
            (self, (None, first))
        } else {
            let next = ReceiverState {
                received: self.received.update(idx, true),
                payload: protocol::overwritten(self.payload, at, data),
                ..self
            };
            if next.complete() {
                (ReceiverState { current: None, ..next }, (Some(next.payload), first))
            } else {
                (next, (None, first))
            }
        }
    }

    /// What one datagram does: the state after it and what is reported.
    pub open spec fn step(self, datagram: Seq<u8>) -> (ReceiverState, Report) {
        let h = DatagramHeader::of(datagram);
        if datagram.len() < HEADER_SIZE {
            (self, (None, false))
        } else {
            self.joined(h).stored(h, datagram.skip(HEADER_SIZE as int))
        }
    }
}

/// Puts messages together again from datagrams that may come in any order,
/// more than once, or not at all.
pub struct Receiver {
    buffer: Vec<u8>,
    fragments: Vec<bool>,
    current_sequence: Option<u32>,
    total_fragments: u16,
    received_fragments: u16,
    payload_size: u32,
    last_source_time_us: u64,
}

impl View for Receiver {
    type V = ReceiverState;

    closed spec fn view(&self) -> ReceiverState {
        ReceiverState {
            current: self.current_sequence,
            received: self.fragments@,
            payload: self.buffer@,
            source_time_us: self.last_source_time_us,
        }
    }
}

impl Receiver {
    /// The counters agree with what has been received.
    pub closed spec fn wf(&self) -> bool {
        &&& self.total_fragments == self.fragments@.len()
        &&& self.received_fragments == protocol::count_set(self.fragments@)
        &&& self.payload_size == self.buffer@.len()
    }

    /// A receiver with room for messages of `max_payload_size` bytes. Longer
    /// ones make it grow.
    pub fn new(max_payload_size: usize) -> (r: Receiver)
        requires
            max_payload_size <= isize::MAX,
        ensures
            r.wf(),
            r@ == ReceiverState::initial(),
    {
        let r = Receiver {
            buffer: Vec::with_capacity(max_payload_size),
            fragments: Vec::new(),
            current_sequence: None,
            total_fragments: 0,
            received_fragments: 0,
            payload_size: 0,
            last_source_time_us: 0,
        };
        assert(r@ =~= ReceiverState::initial());
        r
    }

    /// Source-side time of the newest first fragment, in microseconds.
    pub fn last_source_time_us(&self) -> (v: u64)
        ensures
            v == self@.source_time_us,
    {
        self.last_source_time_us
    }

    /// Fragments of the newest message.
    pub fn total_fragments(&self) -> (n: u16)
        requires
            self.wf(),
        ensures
            n == self@.received.len(),
    {
        self.total_fragments
    }

    /// The bytes of the newest message, as far as they are in.
    pub fn payload(&self) -> (p: &[u8])
        ensures
            p@ == self@.payload,
    {
        self.buffer.as_slice()
    }

    /// Tells whether the datagram's header fits the message that is coming in,
    /// so that it can be processed.
    pub fn fits(&self, datagram: &[u8]) -> (r: bool)
        requires
            self.wf(),
        ensures
            r == self@.fits(datagram@),
    {
        if datagram.len() < HEADER_SIZE {
            return true;
        }
        let h = DatagramHeader::decode(datagram);
        let same: bool = match self.current_sequence {
            Some(s) => s == h.sequence,
            None => false,
        };
        h.fragment >= h.fragments || !same || h.fragment < self.total_fragments
    }

    /// Takes in one datagram. Returns the message once it is complete, and
    /// whether the datagram was a first fragment.
    pub fn process_datagram(&mut self, data: &[u8]) -> (r: (Option<&[u8]>, bool))
        requires
            old(self).wf(),
            old(self)@.fits(data@),
        ensures
            final(self).wf(),
            ({
                let (state, (message, first)) = old(self)@.step(data@);
                &&& final(self)@ == state
                &&& r.1 == first
                &&& match r.0 {
                    Some(m) => message == Some(m@),
                    None => message is None,
                }
            }),
    {
        if data.len() < HEADER_SIZE {
            return (None, false);
        }
        let header = DatagramHeader::decode(data);
        if header.fragment == 0 {
            self.last_source_time_us = header.source_time_us;
        }
        let different: bool = match self.current_sequence {
            Some(current) => header.sequence != current,
            None => true,
        };
        let sequence_changed: bool = header.fragment == 0;
        if different {
            self.start_new_sequence(&header);
        }
        assert(self@ =~= old(self)@.joined(header));
        let body: &[u8] = &data[HEADER_SIZE..data.len()];
        assert(body@ =~= data@.skip(HEADER_SIZE as int));
        if self.store(&header, body) {
            assert(self.buffer@.subrange(0, self.payload_size as int) =~= self.buffer@);
            (Some(&self.buffer[0..self.payload_size as usize]), sequence_changed)
        } else {
            (None, sequence_changed)
        }
    }

    /// Stores the bytes of one fragment. Tells whether the message is complete.
    fn store(&mut self, header: &DatagramHeader, body: &[u8]) -> (done: bool)
        requires
            old(self).wf(),
            header.fragment < header.fragments ==> header.fragment < old(self)@.received.len(),
        ensures
            final(self).wf(),
            final(self)@ == old(self)@.stored(*header, body@).0,
            old(self)@.stored(*header, body@).1 == (
                if done {
                    Some(final(self)@.payload)
                } else {
                    None
                },
                header.fragment == 0,
            ),
    {
        if header.fragment >= header.fragments {
            return false;
        }
        let idx: usize = header.fragment as usize;
        if self.fragments[idx] {
            return false;
        }
        let at: usize = idx * MAX_PAYLOAD_SIZE;
        if self.buffer.len() < at || self.buffer.len() - at < body.len() {
            return false;
        }
        proof {
            protocol::lemma_count_set_update(self.fragments@, idx as int);
            protocol::lemma_count_set(self.fragments@.update(idx as int, true));
        }
        protocol::copy_at(self.buffer.as_mut_slice(), at, body);
        self.fragments.set(idx, true);
        self.received_fragments = self.received_fragments + 1;
        if self.received_fragments == self.total_fragments {
            self.current_sequence = None;
            true
        } else {
            false
        }
    }

    /// Starts over for the message that `header` belongs to.
    fn start_new_sequence(&mut self, header: &DatagramHeader)
        requires
            old(self).wf(),
        ensures
            final(self).wf(),
            final(self)@ == (ReceiverState {
                current: Some(header.sequence),
                received: Seq::new(header.fragments as nat, |i: int| false),
                payload: Seq::new(header.payload_size as nat, |i: int| 0u8),
                ..old(self)@
            }),
    {
        self.current_sequence = Some(header.sequence);
        self.total_fragments = header.fragments;
        self.received_fragments = 0;
        self.payload_size = header.payload_size;
        self.fragments.clear();
        self.fragments.resize(header.fragments as usize, false);
        self.buffer.clear();
        self.buffer.resize(header.payload_size as usize, 0);
        proof {
            protocol::lemma_count_set(self.fragments@);
        }
        assert(self.fragments@ =~= Seq::new(header.fragments as nat, |i: int| false));
        assert(self.buffer@ =~= Seq::new(header.payload_size as nat, |i: int| 0u8));
    }
}

// ── Laws ──────────────────────────────────────────────────────────────────────

/// The state of a receiver after all of the datagrams, one after another.
pub open spec fn run(s: ReceiverState, datagrams: Seq<Seq<u8>>) -> ReceiverState
    decreases datagrams.len(),
{
    if datagrams.len() == 0 {
        s
    } else {
        run(s, datagrams.drop_last()).step(datagrams.last()).0
    }
}

/// What the receiver reports for the last of the datagrams.
pub open spec fn last_report(s: ReceiverState, datagrams: Seq<Seq<u8>>) -> Report {
    run(s, datagrams.drop_last()).step(datagrams.last()).1
}

/// The datagrams of a message as they are delivered: `order` names the
/// fragment that comes first, second, and so on.
pub open spec fn deliveries(m: Message, order: Seq<int>) -> Seq<Seq<u8>> {
    Seq::new(order.len(), |k: int| m.datagram(order[k]))
}

/// A message that can be sent: its length fits 32 bits and its fragments 16.
pub open spec fn sendable(m: Message) -> bool {
    1 <= m.count() <= u16::MAX && m.data.len() <= u32::MAX
}

/// Every fragment is among the deliveries.
pub open spec fn all_arrived(m: Message, order: Seq<int>) -> bool {
    forall|i: int| 0 <= i < m.count() ==> #[trigger] order.contains(i)
}

/// The deliveries of one message up to the one that completes it.
pub open spec fn delivery_order(m: Message, order: Seq<int>) -> bool {
    &&& order.len() > 0
    &&& forall|k: int| 0 <= k < order.len() ==> 0 <= #[trigger] order[k] < m.count()
    &&& forall|k: int| 0 <= k < order.len() ==> !all_arrived(m, #[trigger] order.take(k))
}

/// The receiver is putting `m` together, and what it holds of it is right.
spec fn holding(m: Message, s: ReceiverState) -> bool {
    &&& s.current == Some(m.sequence)
    &&& s.received.len() == m.count()
    &&& s.payload.len() == m.data.len()
    &&& forall|p: int|
        0 <= p < m.data.len() && s.received[p / MAX_PAYLOAD_SIZE as int] ==> #[trigger] s.payload[p]
            == m.data[p]
}

/// Fragment `i` holds the bytes from `i * MAX_PAYLOAD_SIZE` on.
proof fn lemma_chunk(m: Message, i: int)
    requires
        0 <= i < m.count(),
    ensures
        i * MAX_PAYLOAD_SIZE + m.chunk(i).len() <= m.data.len(),
        forall|p: int|
            0 <= p < m.data.len() ==> (#[trigger] (p / MAX_PAYLOAD_SIZE as int) == i <==> i
                * MAX_PAYLOAD_SIZE <= p < i * MAX_PAYLOAD_SIZE + m.chunk(i).len()),
        forall|p: int|
            0 <= p < m.data.len() ==> 0 <= #[trigger] (p / MAX_PAYLOAD_SIZE as int) < m.count(),
        forall|p: int|
            i * MAX_PAYLOAD_SIZE <= p < i * MAX_PAYLOAD_SIZE + m.chunk(i).len() ==> m.chunk(i)[p - i
                * MAX_PAYLOAD_SIZE] == #[trigger] m.data[p],
{
    protocol::lemma_fragment_count(m.data.len(), MAX_PAYLOAD_SIZE as nat);
    assert(0 <= i * MAX_PAYLOAD_SIZE < m.data.len());
}

proof fn lemma_stored(m: Message, s: ReceiverState, i: int)
    requires
        sendable(m),
        holding(m, s),
        0 <= i < m.count(),
    ensures
        ({
            let (t, r) = s.stored(m.header(i), m.chunk(i));
            &&& t.source_time_us == s.source_time_us
            &&& t.received == s.received.update(i, true)
            &&& if !s.received[i] && t.complete() {
                t.current is None && r == (Some(m.data), i == 0)
            } else {
                holding(m, t) && r == (None::<Seq<u8>>, i == 0)
            }
        }),
{
    lemma_chunk(m, i);
    let (t, r) = s.stored(m.header(i), m.chunk(i));
    if s.received[i] {
        assert(s.received.update(i, true) =~= s.received);
    } else {
        let next = ReceiverState {
            received: s.received.update(i, true),
            payload: protocol::overwritten(s.payload, i * MAX_PAYLOAD_SIZE, m.chunk(i)),
            ..s
        };
        assert forall|p: int|
            0 <= p < m.data.len()
                && next.received[p / MAX_PAYLOAD_SIZE as int] implies #[trigger] next.payload[p]
            == m.data[p] by {
            let q = p / MAX_PAYLOAD_SIZE as int;
            if q != i {
                assert(s.payload[p] == m.data[p]);
            }
        }
        if next.complete() {
            assert forall|p: int| 0 <= p < m.data.len() implies #[trigger] next.payload[p]
                == m.data[p] by {
                let q = p / MAX_PAYLOAD_SIZE as int;
                assert(next.received[q]);
            }
            assert(next.payload =~= m.data);
        }
    }
}

/// The bytes of a datagram are its header and its chunk again.
proof fn lemma_datagram(m: Message, i: int)
    ensures
        DatagramHeader::of(m.datagram(i)) == m.header(i),
        m.datagram(i).skip(HEADER_SIZE as int) == m.chunk(i),
        m.datagram(i).len() >= HEADER_SIZE,
{
    header_round_trip(m.header(i), m.chunk(i));
    assert(m.datagram(i).skip(HEADER_SIZE as int) =~= m.chunk(i));
}

proof fn lemma_begun(m: Message, s: ReceiverState, i: int)
    requires
        sendable(m),
        s.current != Some(m.sequence),
        0 <= i < m.count(),
    ensures
        holding(m, s.joined(m.header(i))),
        s.joined(m.header(i)).received == Seq::new(m.count(), |j: int| false),
{
    let t = s.joined(m.header(i));
    assert(m.data.len() % 0x1_0000_0000 == m.data.len());
    lemma_chunk(m, i);
    assert forall|p: int|
        0 <= p < m.data.len() && t.received[p / MAX_PAYLOAD_SIZE as int] implies #[trigger] t.payload[p]
        == m.data[p] by {
        let q = p / MAX_PAYLOAD_SIZE as int;
        assert(!t.received[q]);
    }
}

proof fn lemma_run(s: ReceiverState, m: Message, order: Seq<int>)
    requires
        sendable(m),
        s.current != Some(m.sequence),
        delivery_order(m, order),
    ensures
        ({
            let t = run(s, deliveries(m, order));
            let first = order.last() == 0;
            let report = last_report(s, deliveries(m, order));
            &&& t.received.len() == m.count()
            &&& forall|i: int|
                0 <= i < m.count() ==> #[trigger] t.received[i] == order.contains(i)
            &&& t.source_time_us == if order.contains(0) {
                m.source_time_us
            } else {
                s.source_time_us
            }
            &&& if all_arrived(m, order) {
                t.current is None && report == (Some(m.data), first)
            } else {
                holding(m, t) && report == (None::<Seq<u8>>, first)
            }
        }),
    decreases order.len(),
{
    let n = m.count();
    let before = order.drop_last();
    let i = order.last();
    assert(i == order[order.len() - 1]);
    let ds = deliveries(m, order);
    assert(ds.drop_last() =~= deliveries(m, before));
    assert(ds.last() == m.datagram(i));
    lemma_datagram(m, i);
    let p = run(s, ds.drop_last());
    let q = p.joined(m.header(i));
    assert(p.step(m.datagram(i)) == q.stored(m.header(i), m.chunk(i)));
    reassembly::lemma_contains_last(order, 0);
    assert(order.take(order.len() - 1) =~= before);
    if before.len() == 0 {
        lemma_begun(m, s, i);
    } else {
        assert forall|k: int| 0 <= k < before.len() implies !all_arrived(
            m,
            #[trigger] before.take(k),
        ) by {
            assert(before.take(k) =~= order.take(k));
        }
        assert forall|k: int| 0 <= k < before.len() implies 0 <= #[trigger] before[k] < n by {
            assert(before[k] == order[k]);
        }
        lemma_run(s, m, before);
    }
    assert(holding(m, q));
    lemma_stored(m, q, i);
    let t = run(s, ds);
    assert forall|j: int| 0 <= j < n implies #[trigger] t.received[j] == order.contains(j) by {
        reassembly::lemma_contains_last(order, j);
        assert(q.received[j] == before.contains(j));
    }
    if all_arrived(m, order) {
        assert forall|j: int| 0 <= j < n implies #[trigger] t.received[j] by {
            assert(order.contains(j));
        }
        if q.received[i] {
            assert forall|j: int| 0 <= j < n implies #[trigger] before.contains(j) by {
                assert(t.received[j]);
                assert(q.received[j]);
            }
        }
    } else {
        let j = choose|j: int| 0 <= j < n && !#[trigger] order.contains(j);
        assert(!t.received[j]);
    }
}

/// A message is handed out, byte for byte, with the delivery that brings in
/// the last of its fragments, whatever the order and however often each is
/// delivered.
pub proof fn message_is_reassembled(s: ReceiverState, m: Message, order: Seq<int>)
    requires
        sendable(m),
        s.current != Some(m.sequence),
        delivery_order(m, order),
        all_arrived(m, order),
    ensures
        last_report(s, deliveries(m, order)) == (Some(m.data), order.last() == 0),
        run(s, deliveries(m, order)).source_time_us == m.source_time_us,
        run(s, deliveries(m, order)).received.len() == m.count(),
        run(s, deliveries(m, order)).current is None,
{
    lemma_run(s, m, order);
    assert(order.contains(0));
}

/// As long as a fragment is missing, nothing is handed out.
pub proof fn incomplete_message_is_kept(s: ReceiverState, m: Message, order: Seq<int>)
    requires
        sendable(m),
        s.current != Some(m.sequence),
        delivery_order(m, order),
        !all_arrived(m, order),
    ensures
        last_report(s, deliveries(m, order)) == (None::<Seq<u8>>, order.last() == 0),
        run(s, deliveries(m, order)).current == Some(m.sequence),
{
    lemma_run(s, m, order);
}

/// A sender's datagrams can always be processed, whatever came before: unless
/// another message came in under the same number, the header fits.
pub proof fn own_datagrams_fit(s: ReceiverState, m: Message, i: int)
    requires
        sendable(m),
        0 <= i < m.count(),
        s.current == Some(m.sequence) ==> s.received.len() == m.count(),
    ensures
        s.fits(m.datagram(i)),
{
    lemma_datagram(m, i);
}

/// Every field of a header has its place in the datagram.
pub proof fn header_fields_have_their_places(h: DatagramHeader)
    ensures
        ({
            let b = h.bytes();
            &&& b.len() == 20
            &&& wire::u32_at(b, 0) == h.sequence
            &&& wire::u16_at(b, 4) == h.fragment
            &&& wire::u16_at(b, 6) == h.fragments
            &&& wire::u32_at(b, 8) == h.payload_size
            &&& wire::u64_at(b, 12) == h.source_time_us
        }),
{
    header_round_trip(h, Seq::empty());
    assert(h.bytes() + Seq::<u8>::empty() =~= h.bytes());
    let b = h.bytes();
    wire::numbers_are_little_endian(b, 0);
    wire::numbers_are_little_endian(b, 4);
    wire::numbers_are_little_endian(b, 6);
    wire::numbers_are_little_endian(b, 8);
    wire::numbers_are_little_endian(b, 12);
}

/// A message takes as many datagrams as its bytes need, and no more. Each but
/// the last is full, and byte `p` of the message stands in datagram `p / 8980`,
/// behind its header.
pub proof fn datagrams_hold_the_message(m: Message, p: int)
    requires
        0 <= p < m.data.len(),
    ensures
        ({
            let n = m.count();
            let i = p / 8980;
            &&& (n - 1) * 8980 < m.data.len() <= n * 8980
            &&& 0 <= i < n
            &&& m.datagram(i)[20 + p % 8980] == m.data[p]
            &&& m.datagram(i).len() == if i < n - 1 {
                9000
            } else {
                20 + m.data.len() - (n - 1) * 8980
            }
        }),
{
    let n = m.count() as int;
    let i = p / 8980;
    protocol::lemma_fragment_count(m.data.len(), 8980);
    header_fields_have_their_places(m.header(i));
    assert(m.datagram(i)[20 + p % 8980] == m.chunk(i)[p % 8980]);
}

/// A header in front of other bytes has the same fields at the same places.
pub proof fn header_stands_in_front(h: DatagramHeader, rest: Seq<u8>)
    ensures
        wire::u32_at(h.bytes() + rest, 0) == h.sequence,
        wire::u16_at(h.bytes() + rest, 4) == h.fragment,
        wire::u16_at(h.bytes() + rest, 6) == h.fragments,
        wire::u32_at(h.bytes() + rest, 8) == h.payload_size,
        wire::u64_at(h.bytes() + rest, 12) == h.source_time_us,
{
    header_round_trip(h, rest);
    let d = h.bytes() + rest;
    wire::numbers_are_little_endian(d, 0);
    wire::numbers_are_little_endian(d, 4);
    wire::numbers_are_little_endian(d, 6);
    wire::numbers_are_little_endian(d, 8);
    wire::numbers_are_little_endian(d, 12);
}

/// Every datagram of a message says what it is: the message's number, time,
/// length and number of fragments, and its own index.
pub proof fn datagrams_name_their_message(m: Message, i: int)
    requires
        0 <= i < m.count() <= 0xffff,
        m.data.len() <= 0xffff_ffff,
    ensures
        ({
            let d = m.datagram(i);
            &&& wire::u32_at(d, 0) == m.sequence
            &&& wire::u16_at(d, 4) == i
            &&& wire::u16_at(d, 6) == m.count()
            &&& wire::u32_at(d, 8) == m.data.len()
            &&& wire::u64_at(d, 12) == m.source_time_us
        }),
{
    header_stands_in_front(m.header(i), m.chunk(i));
}

/// A message that can be sent is handed out as it was sent, once each of its
/// fragments has come, in any order and any number of times, unless another of
/// its number is in progress.
pub proof fn every_message_gets_through(s: ReceiverState, m: Message, n: nat, order: Seq<int>)
    requires
        1 <= n <= 0xffff,
        (n - 1) * 8980 < m.data.len() <= n * 8980,
        m.data.len() <= 0xffff_ffff,
        s.current != Some(m.sequence),
        order.len() > 0,
        forall|k: int| 0 <= k < order.len() ==> 0 <= #[trigger] order[k] < n,
        forall|i: int| 0 <= i < n ==> #[trigger] order.contains(i),
        !order.drop_last().contains(order.last()),
    ensures
        ({
            let sent = Seq::new(order.len(), |k: int| m.datagram(order[k]));
            let t = run(s, sent);
            &&& last_report(s, sent) == (Some(m.data), order.last() == 0)
            &&& t.source_time_us == m.source_time_us
            &&& t.received.len() == n
            &&& t.current is None
        }),
{
    protocol::lemma_fragment_count(m.data.len(), 8980);
    assert(m.count() == n);
    assert(deliveries(m, order) =~= Seq::new(order.len(), |k: int| m.datagram(order[k])));
    assert(delivery_order(m, order)) by {
        assert forall|k: int| 0 <= k < order.len() implies !all_arrived(
            m,
            #[trigger] order.take(k),
        ) by {
            let i = order.last();
            assert(order[order.len() - 1] == i);
            if all_arrived(m, order.take(k)) {
                assert(order.take(k).contains(i));
                let j = choose|j: int| 0 <= j < order.take(k).len() && order.take(k)[j] == i;
                assert(order.drop_last()[j] == i);
            }
        }
    }
    message_is_reassembled(s, m, order);
}

/// A datagram without room for a header is ignored.
pub proof fn short_datagram_is_ignored(s: ReceiverState, datagram: Seq<u8>)
    requires
        datagram.len() < 20,
    ensures
        s.step(datagram).0 == s,
        s.step(datagram).1 == (None::<Seq<u8>>, false),
        s.fits(datagram),
{
}

/// A first fragment is told from all others, and brings the time of its message;
/// no other does.
pub proof fn first_fragment_brings_the_time(s: ReceiverState, datagram: Seq<u8>)
    requires
        datagram.len() >= 20,
    ensures
        s.step(datagram).1.1 <==> wire::u16_at(datagram, 4) == 0,
        wire::u16_at(datagram, 4) == 0 ==> s.step(datagram).0.source_time_us == wire::u64_at(
            datagram,
            12,
        ),
        wire::u16_at(datagram, 4) != 0 ==> s.step(datagram).0.source_time_us == s.source_time_us,
{
    wire::numbers_are_little_endian(datagram, 4);
    wire::numbers_are_little_endian(datagram, 12);
}

/// A fragment of the message in progress that is already in changes nothing but
/// the time.
pub proof fn duplicate_is_discarded(s: ReceiverState, datagram: Seq<u8>)
    requires
        datagram.len() >= 20,
        s.current == Some(wire::u32_at(datagram, 0) as u32),
        wire::u16_at(datagram, 4) < s.received.len(),
        s.received[wire::u16_at(datagram, 4)],
    ensures
        s.step(datagram).1.0 is None,
        s.step(datagram).0.received == s.received,
        s.step(datagram).0.payload == s.payload,
        s.step(datagram).0.current == s.current,
{
    wire::numbers_are_little_endian(datagram, 4);
}

/// The first datagram of another message clears what was there: as many
/// fragments and bytes as its header says, none of them in.
pub proof fn new_message_starts_over(s: ReceiverState, h: DatagramHeader, i: int)
    requires
        s.current != Some(h.sequence),
    ensures
        ({
            let t = s.joined(h);
            &&& t.current == Some(h.sequence)
            &&& t.received.len() == h.fragments
            &&& t.payload.len() == h.payload_size
            &&& 0 <= i < h.fragments ==> !t.received[i]
            &&& 0 <= i < h.payload_size ==> t.payload[i] == 0
        }),
{
}

/// A datagram can be processed unless it claims to be a fragment that the
/// message in progress does not have.
pub proof fn only_contradictions_do_not_fit(s: ReceiverState, datagram: Seq<u8>)
    requires
        datagram.len() >= 20,
    ensures
        s.fits(datagram) <==> !(wire::u16_at(datagram, 4) < wire::u16_at(datagram, 6) && s.current
            == Some(wire::u32_at(datagram, 0) as u32) && wire::u16_at(datagram, 4)
            >= s.received.len()),
{
    wire::numbers_are_little_endian(datagram, 4);
    wire::numbers_are_little_endian(datagram, 6);
}

/// The next number is one higher; after the highest comes 0.
pub proof fn next_number_is_one_higher(sequence: u32)
    ensures
        sequence < 0xffff_ffff ==> following(sequence) == sequence + 1,
        sequence == 0xffff_ffff ==> following(sequence) == 0,
{
}

/// Nothing but a datagram of the message may be handed over, and nothing at all
/// of a message that is too long.
pub proof fn only_datagrams_are_handed_over(m: Message, d: Seq<u8>)
    requires
        is_datagram_of(m, d),
    ensures
        1 <= m.count() <= 0xffff,
        exists|i: int| 0 <= i < m.count() && d == #[trigger] m.datagram(i),
{
}

/// A sender makes of what it is given a message under its next number.
pub proof fn sender_sends_what_it_is_given(s: Sender, data: Seq<u8>, source_time_us: u64)
    ensures
        s.message(data, source_time_us) == (Message { sequence: s@, source_time_us, data }),
{
}

/// A new receiver holds nothing.
pub proof fn new_receiver_is_empty()
    ensures
        ReceiverState::initial().current is None,
        ReceiverState::initial().received.len() == 0,
        ReceiverState::initial().payload.len() == 0,
        ReceiverState::initial().source_time_us == 0,
{
}

} // verus!
