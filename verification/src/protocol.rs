//! The datagram protocol: fragmentation, reassembly and XOR deltas.
//!
//! A message is split into fragments, one per UDP datagram. Every datagram
//! starts with a [`Header`]; a datagram whose header announces zero fragments
//! is a heartbeat and carries nothing else.

use vstd::prelude::*;

use crate::delta;
use crate::wire;

verus! {

/// Default UDP datagram size in bytes, chosen for jumbo-frame links. On
/// standard 1500-byte MTU networks use 1472 to avoid IP fragmentation.
pub const MAX_DATAGRAM_SIZE: usize = 9_000;

/// Bytes of the header that starts every datagram.
pub const HEADER_SIZE: usize = 24;

/// Payload bytes of a datagram of the default size.
pub const MAX_PAYLOAD_PER_DATAGRAM: usize = 8_976;

/// Most fragments a receiver accepts per message. It bounds what a malformed
/// datagram can make the receiver allocate.
pub const MAX_FRAGMENTS: u16 = 256;

/// Flag in `buf_offset` that marks an XOR-delta frame. The write offset is
/// `buf_offset` without this bit. It is never set on a session-info frame,
/// whose `buf_offset` is `u32::MAX`.
pub const DELTA_BIT: u32 = 0x8000_0000;

// ── XOR delta ─────────────────────────────────────────────────────────────────

/// The byte-wise exclusive or of two sequences of one length.
pub open spec fn xor_bytes(a: Seq<u8>, b: Seq<u8>) -> Seq<u8> {
    Seq::new(a.len(), |i: int| a[i] ^ b[i])
}

/// Writes the exclusive or of `current` and `previous` to `output`.
pub fn xor_delta(current: &[u8], previous: &[u8], output: &mut [u8])
    requires
        current@.len() == previous@.len(),
        current@.len() == old(output)@.len(),
    ensures
        final(output)@ == xor_bytes(current@, previous@),
        forall|i: int|
            0 <= i < current@.len() ==> #[trigger] final(output)@[i] == current@[i] ^ previous@[i],
{
    let len: usize = current.len();
    let mut i: usize = 0;
    while i < len
        invariant
            i <= len,
            len == current@.len(),
            len == previous@.len(),
            len == output@.len(),
            forall|j: int| 0 <= j < i ==> output@[j] == current@[j] ^ previous@[j],
        decreases len - i,
    {
        output[i] = current[i] ^ previous[i];
        i = i + 1;
    }
    assert(output@ =~= xor_bytes(current@, previous@));
}

/// Applying a delta to the buffer it was taken against restores the buffer it
/// was taken of.
pub proof fn xor_delta_round_trip(current: Seq<u8>, previous: Seq<u8>)
    requires
        current.len() == previous.len(),
    ensures
        xor_bytes(xor_bytes(current, previous), previous) == current,
{
    assert forall|i: int| 0 <= i < current.len() implies xor_bytes(
        xor_bytes(current, previous),
        previous,
    )[i] == current[i] by {
        let c = current[i];
        let p = previous[i];
        assert((c ^ p) ^ p == c) by (bit_vector);
    }
    assert(xor_bytes(xor_bytes(current, previous), previous) =~= current);
}

/// A delta against zeros is the buffer itself.
pub proof fn xor_delta_of_zeros(current: Seq<u8>, zeros: Seq<u8>)
    requires
        current.len() == zeros.len(),
        forall|i: int| 0 <= i < zeros.len() ==> zeros[i] == 0,
    ensures
        xor_bytes(current, zeros) == current,
{
    assert forall|i: int| 0 <= i < current.len() implies xor_bytes(current, zeros)[i]
        == current[i] by {
        let c = current[i];
        assert(c ^ 0 == c) by (bit_vector);
    }
    assert(xor_bytes(current, zeros) =~= current);
}

// ── Header ────────────────────────────────────────────────────────────────────

/// The header of a datagram: 24 bytes on the wire, little-endian, in the
/// order of the fields.
#[derive(Clone, Copy)]
pub struct Header {
    /// Microseconds spent on the source side.
    pub source_us: u64,
    /// Number of the message, one higher for each.
    pub sequence: u32,
    /// Bytes of the whole message, over all its fragments.
    pub payload_size: u32,
    /// Where the message belongs in the target's map.
    pub buf_offset: u32,
    /// Index of this fragment.
    pub fragment: u16,
    /// Fragments of this message; 0 marks a heartbeat.
    pub fragments: u16,
}

impl Header {
    /// The bytes of the header on the wire.
    pub open spec fn bytes(self) -> Seq<u8> {
        wire::u64_bytes(self.source_us as int) + wire::u32_bytes(self.sequence as int) + wire::u32_bytes(
            self.payload_size as int,
        ) + wire::u32_bytes(self.buf_offset as int) + wire::u16_bytes(self.fragment as int) + wire::u16_bytes(
            self.fragments as int,
        )
    }

    /// The header that a datagram starts with.
    pub open spec fn of(datagram: Seq<u8>) -> Header {
        Header {
            source_us: wire::u64_at(datagram, 0) as u64,
            sequence: wire::u32_at(datagram, 8) as u32,
            payload_size: wire::u32_at(datagram, 12) as u32,
            buf_offset: wire::u32_at(datagram, 16) as u32,
            fragment: wire::u16_at(datagram, 20) as u16,
            fragments: wire::u16_at(datagram, 22) as u16,
        }
    }

    /// Both are headers of one message: only the fragment may differ.
    pub open spec fn same_message(self, other: Header) -> bool {
        Header { fragment: 0, ..self } == Header { fragment: 0, ..other }
    }

    /// Tells whether both are headers of one message.
    pub fn is_same_message(&self, other: &Header) -> (r: bool)
        ensures
            r == self.same_message(*other),
    {
        self.source_us == other.source_us && self.sequence == other.sequence && self.payload_size
            == other.payload_size && self.buf_offset == other.buf_offset && self.fragments
            == other.fragments
    }

    /// Appends the header's bytes to `out`.
    pub fn encode(&self, out: &mut Vec<u8>)
        ensures
            final(out)@ == old(out)@ + self.bytes(),
    {
        wire::push_u64(out, self.source_us);
        wire::push_u32(out, self.sequence);
        wire::push_u32(out, self.payload_size);
        wire::push_u32(out, self.buf_offset);
        wire::push_u16(out, self.fragment);
        wire::push_u16(out, self.fragments);
        assert(out@ =~= old(out)@ + self.bytes());
    }

    /// Reads the header at the start of a datagram.
    pub fn decode(datagram: &[u8]) -> (h: Header)
        requires
            datagram@.len() >= HEADER_SIZE,
        ensures
            h == Header::of(datagram@),
    {
        Header {
            source_us: wire::rd_u64(datagram, 0),
            sequence: wire::rd_u32(datagram, 8),
            payload_size: wire::rd_u32(datagram, 12),
            buf_offset: wire::rd_u32(datagram, 16),
            fragment: wire::rd_u16(datagram, 20),
            fragments: wire::rd_u16(datagram, 22),
        }
    }
}

/// A header written at the start of a datagram is the header read from it.
pub proof fn header_round_trip(h: Header, rest: Seq<u8>)
    ensures
        h.bytes().len() == HEADER_SIZE,
        Header::of(h.bytes() + rest) == h,
{
    wire::lemma_u64_round_trip(h.source_us as int);
    wire::lemma_u32_round_trip(h.sequence as int);
    wire::lemma_u32_round_trip(h.payload_size as int);
    wire::lemma_u32_round_trip(h.buf_offset as int);
    wire::lemma_u16_round_trip(h.fragment as int);
    wire::lemma_u16_round_trip(h.fragments as int);
    let d = h.bytes() + rest;
    assert(wire::u64_at(d, 0) == wire::u64_at(wire::u64_bytes(h.source_us as int), 0));
    assert(wire::u32_at(d, 8) == wire::u32_at(wire::u32_bytes(h.sequence as int), 0));
    assert(wire::u32_at(d, 12) == wire::u32_at(wire::u32_bytes(h.payload_size as int), 0));
    assert(wire::u32_at(d, 16) == wire::u32_at(wire::u32_bytes(h.buf_offset as int), 0));
    assert(wire::u16_at(d, 20) == wire::u16_at(wire::u16_bytes(h.fragment as int), 0));
    assert(wire::u16_at(d, 22) == wire::u16_at(wire::u16_bytes(h.fragments as int), 0));
}

// ── Sender ────────────────────────────────────────────────────────────────────

/// Why a message was not sent.
#[derive(Debug)]
pub enum SendError<E> {
    /// The message is empty or needs more than `u16::MAX` fragments.
    InvalidData,
    /// The transport refused a datagram.
    Transport(E),
}

/// Datagrams that a message of `len` bytes needs at `per` payload bytes each.
pub open spec fn fragment_count(len: nat, per: nat) -> nat {
    ((len + per - 1) / per as int) as nat
}

/// The bytes of `data` that fragment `i` carries.
pub open spec fn chunk(data: Seq<u8>, per: nat, i: int) -> Seq<u8> {
    data.subrange(
        i * per,
        if (i + 1) * per < data.len() {
            (i + 1) * per
        } else {
            data.len() as int
        },
    )
}

/// A message as the sender puts it on the wire.
pub struct Message {
    pub sequence: u32,
    pub source_us: u64,
    pub buf_offset: u32,
    /// Payload bytes per datagram.
    pub per: nat,
    pub data: Seq<u8>,
}

impl Message {
    /// How many datagrams the message takes.
    pub open spec fn count(self) -> nat {
        fragment_count(self.data.len(), self.per)
    }

    /// The header of datagram `i`. The length is cut to its low 32 bits.
    pub open spec fn header(self, i: int) -> Header {
        Header {
            source_us: self.source_us,
            sequence: self.sequence,
            payload_size: (self.data.len() % 0x1_0000_0000) as u32,
            buf_offset: self.buf_offset,
            fragment: i as u16,
            fragments: self.count() as u16,
        }
    }

    /// Datagram `i` of the message.
    pub open spec fn datagram(self, i: int) -> Seq<u8> {
        self.header(i).bytes() + chunk(self.data, self.per, i)
    }
}

/// The header of every heartbeat.
pub open spec fn heartbeat_header() -> Header {
    Header {
        source_us: 0,
        sequence: 0,
        payload_size: 0,
        buf_offset: 0,
        fragment: 0,
        fragments: 0,
    }
}

/// The bytes are those of one of the message's datagrams. A message that is
/// empty or too long has none.
pub open spec fn is_datagram_of(m: Message, d: Seq<u8>) -> bool {
    1 <= m.count() <= u16::MAX && exists|i: int|
        0 <= i < m.count() && d == #[trigger] m.datagram(i)
}

/// `f` was handed the datagram and took it.
pub open spec fn taken<E, F: FnOnce(&[u8]) -> Result<(), E>>(f: F, datagram: Seq<u8>) -> bool {
    exists|d: &[u8], r: Result<(), E>|
        d@ == datagram && r is Ok && #[trigger] call_ensures(f, (d,), r)
}

/// `f` was handed the datagram and answered with `e`.
pub open spec fn refused<E, F: FnOnce(&[u8]) -> Result<(), E>>(
    f: F,
    datagram: Seq<u8>,
    e: E,
) -> bool {
    exists|d: &[u8], r: Result<(), E>|
        d@ == datagram && r == Err::<(), E>(e) && #[trigger] call_ensures(f, (d,), r)
}

/// What a sender is, seen from outside: the number of the next message and
/// the payload bytes it puts in one datagram.
pub struct SenderState {
    pub sequence: u32,
    pub per: nat,
}

impl SenderState {
    /// A sender before its first message, whose datagrams have at most
    /// `datagram_size` bytes, and room for at least one payload byte whatever
    /// the size.
    pub open spec fn fresh(datagram_size: int) -> SenderState {
        SenderState {
            sequence: 0,
            per: if datagram_size > HEADER_SIZE {
                (datagram_size - HEADER_SIZE) as nat
            } else {
                1
            },
        }
    }

    /// The next message with these contents.
    pub open spec fn message(self, data: Seq<u8>, source_us: u64, buf_offset: u32) -> Message {
        Message { sequence: self.sequence, source_us, buf_offset, per: self.per, data }
    }

    /// The sender after a message was sent: the next one has the next number.
    pub open spec fn advanced(self) -> SenderState {
        SenderState { sequence: ((self.sequence + 1) % 0x1_0000_0000) as u32, ..self }
    }
}

/// Splits messages into datagrams.
pub struct Sender {
    sequence: u32,
    payload_per_datagram: usize,
}

impl View for Sender {
    type V = SenderState;

    closed spec fn view(&self) -> SenderState {
        SenderState { sequence: self.sequence, per: self.payload_per_datagram as nat }
    }
}

impl Default for Sender {
    fn default() -> (s: Sender)
        ensures
            s.wf(),
            s@ == SenderState::fresh(MAX_DATAGRAM_SIZE as int),
            s@.sequence == 0 && s@.per == 9_000 - 24,
    {
        Sender::new()
    }
}

pub proof fn lemma_fragment_count(len: nat, per: nat)
    requires
        per > 0,
    ensures
        fragment_count(len, per) == 0 <==> len == 0,
        len > 0 ==> (fragment_count(len, per) - 1) * per < len <= fragment_count(len, per) * per,
        forall|i: int| 0 <= i < fragment_count(len, per) ==> 0 <= #[trigger] (i * per) < len,
{
    let n = fragment_count(len, per);
    vstd::arithmetic::div_mod::lemma_fundamental_div_mod(len + per - 1, per as int);
    vstd::arithmetic::div_mod::lemma_mod_bound(len + per - 1, per as int);
    vstd::arithmetic::div_mod::lemma_div_pos_is_pos(len + per - 1, per as int);
    assert(per * n == n * per) by (nonlinear_arith);
    assert((n - 1) * per == n * per - per) by (nonlinear_arith);
    if len == 0 {
        vstd::arithmetic::div_mod::lemma_basic_div(per - 1, per as int);
    } else {
        assert(n >= 1) by (nonlinear_arith)
            requires
                len + per - 1 < per * n + per,
                len >= 1,
                per > 0,
        ;
    }
    assert forall|i: int| 0 <= i < n implies 0 <= #[trigger] (i * per) < len by {
        assert(0 <= i * per <= (n - 1) * per) by (nonlinear_arith)
            requires
                0 <= i <= n - 1,
                per > 0,
        ;
    }
}

impl Sender {
    /// Every datagram has room for at least one payload byte.
    pub open spec fn wf(&self) -> bool {
        self@.per > 0
    }

    /// A sender for datagrams of the default size.
    pub fn new() -> (s: Sender)
        ensures
            s.wf(),
            s@ == SenderState::fresh(MAX_DATAGRAM_SIZE as int),
            s@.sequence == 0 && s@.per == 9_000 - 24,
    {
        Sender::with_datagram_size(MAX_DATAGRAM_SIZE)
    }

    /// A sender whose datagrams have at most `datagram_size` bytes, and room
    /// for at least one payload byte whatever the size.
    pub fn with_datagram_size(datagram_size: usize) -> (s: Sender)
        ensures
            s.wf(),
            s@ == SenderState::fresh(datagram_size as int),
    {
        let size: usize = if datagram_size > HEADER_SIZE {
            datagram_size
        } else {
            HEADER_SIZE + 1
        };
        Sender { sequence: 0, payload_per_datagram: size - HEADER_SIZE }
    }

    /// The message that `send` puts on the wire for these arguments.
    pub open spec fn message(&self, data: Seq<u8>, source_us: u64, buf_offset: u32) -> Message {
        self@.message(data, source_us, buf_offset)
    }

    /// Datagram `i` of the message.
    fn datagram(&self, data: &[u8], source_us: u64, buf_offset: u32, i: u16, n: u16) -> (d: Vec<u8>)
        requires
            self.wf(),
            n == self.message(data@, source_us, buf_offset).count(),
            i < n,
        ensures
            d@ == self.message(data@, source_us, buf_offset).datagram(i as int),
    {
        let total: usize = data.len();
        let per: usize = self.payload_per_datagram;
        proof {
            lemma_fragment_count(total as nat, per as nat);
            assert(0 <= i * per < total);
            assert((i + 1) * per == i * per + per) by (nonlinear_arith);
        }
        let offset: usize = i as usize * per;
        let end: usize = if total - offset > per {
            offset + per
        } else {
            total
        };
        let hdr = Header {
            source_us,
            sequence: self.sequence,
            payload_size: (total as u64 % 0x1_0000_0000) as u32,
            buf_offset,
            fragment: i,
            fragments: n,
        };
        let mut d: Vec<u8> = Vec::new();
        hdr.encode(&mut d);
        d.extend_from_slice(&data[offset..end]);
        assert(d@ =~= self.message(data@, source_us, buf_offset).datagram(i as int));
        d
    }

    /// The datagrams of the next message, in the order in which they are sent.
    /// `None` if it is empty or needs more than `u16::MAX` of them.
    pub fn datagrams(&self, data: &[u8], source_us: u64, buf_offset: u32) -> (r: Option<
        Vec<Vec<u8>>,
    >)
        requires
            self.wf(),
        ensures
            ({
                let m = self.message(data@, source_us, buf_offset);
                &&& r is Some <==> 1 <= m.count() <= u16::MAX
                &&& r matches Some(list) ==> {
                    &&& list@.len() == m.count()
                    &&& forall|i: int| 0 <= i < m.count() ==> (#[trigger] list@[i])@ == m.datagram(i)
                }
            }),
    {
        let total: usize = data.len();
        let per: usize = self.payload_per_datagram;
        proof {
            lemma_ceiling(total as nat, per as nat);
        }
        let n: usize = if total % per == 0 {
            total / per
        } else {
            total / per + 1
        };
        if n == 0 || n > u16::MAX as usize {
            return None;
        }
        let ghost m = self.message(data@, source_us, buf_offset);
        let mut list: Vec<Vec<u8>> = Vec::new();
        let mut i: usize = 0;
        while i < n
            invariant
                i <= n <= u16::MAX,
                n == m.count(),
                self.wf(),
                m == self.message(data@, source_us, buf_offset),
                list@.len() == i,
                forall|j: int| 0 <= j < i ==> (#[trigger] list@[j])@ == m.datagram(j),
            decreases n - i,
        {
            list.push(self.datagram(data, source_us, buf_offset, i as u16, n as u16));
            i = i + 1;
        }
        Some(list)
    }

    /// Fragments `data` and hands its datagrams to `send_fn` until one is
    /// refused. Returns the number of fragments. A message that is refused
    /// part-way keeps its sequence number.
    ///
    /// The contract says that `send_fn` is handed nothing but the message's
    /// datagrams, and which of them it took. It does not say how often it is
    /// called, nor in which order.
    pub fn send<E, F>(
        &mut self,
        data: &[u8],
        source_us: u64,
        buf_offset: u32,
        send_fn: F,
    ) -> (r: Result<u16, SendError<E>>) where F: FnMut(&[u8]) -> Result<(), E>
        requires
            old(self).wf(),
            forall|d: &[u8]|
                is_datagram_of(old(self).message(data@, source_us, buf_offset), d@)
                    ==> call_requires(send_fn, (d,)),
        ensures
            final(self).wf(),
            ({
                let m = old(self).message(data@, source_us, buf_offset);
                match r {
                    Ok(n) => {
                        &&& 1 <= m.count() <= u16::MAX
                        &&& n == m.count()
                        &&& forall|i: int|
                            0 <= i < m.count() ==> taken(send_fn, #[trigger] m.datagram(i))
                        &&& final(self)@ == old(self)@.advanced()
                    },
                    Err(SendError::InvalidData) => {
                        &&& m.count() == 0 || m.count() > u16::MAX
                        &&& final(self)@ == old(self)@
                    },
                    Err(SendError::Transport(e)) => {
                        &&& 1 <= m.count() <= u16::MAX
                        &&& final(self)@ == old(self)@
                        &&& exists|k: int|
                            {
                                &&& 0 <= k < m.count()
                                &&& refused(send_fn, #[trigger] m.datagram(k), e)
                                &&& forall|i: int|
                                    0 <= i < k ==> taken(send_fn, #[trigger] m.datagram(i))
                            }
                    },
                }
            }),
    {
        let list = match self.datagrams(data, source_us, buf_offset) {
            Some(list) => list,
            None => {
                return Err(SendError::InvalidData);
            },
        };
        let ghost m = self.message(data@, source_us, buf_offset);
        let mut f = send_fn;
        let mut i: usize = 0;
        while i < list.len()
            invariant
                i <= list@.len(),
                list@.len() == m.count(),
                1 <= m.count() <= u16::MAX,
                self.wf(),
                self@ == old(self)@,
                m == old(self).message(data@, source_us, buf_offset),
                forall|j: int| 0 <= j < m.count() ==> (#[trigger] list@[j])@ == m.datagram(j),
                f == send_fn,
                forall|d: &[u8]| is_datagram_of(m, d@) ==> call_requires(send_fn, (d,)),
                forall|j: int| 0 <= j < i ==> taken(send_fn, #[trigger] m.datagram(j)),
            decreases list@.len() - i,
        {
            let d = list[i].as_slice();
            assert(d@ == m.datagram(i as int));
            assert(is_datagram_of(m, d@));
            match f(d) {
                Ok(()) => {},
                Err(e) => {
                    assert(refused(send_fn, m.datagram(i as int), e));
                    return Err(SendError::Transport(e));
                },
            }
            assert(taken(send_fn, m.datagram(i as int)));
            i = i + 1;
        }
        self.sequence = self.sequence.wrapping_add(1);
        assert(i == m.count());
        assert(self@ =~= old(self)@.advanced());
        Ok(i as u16)
    }

    /// Sends one datagram without payload, so that the receiver keeps its map
    /// alive while the simulator is open between sessions. `send_fn` can be
    /// called but once.
    pub fn send_heartbeat<E, F>(&mut self, send_fn: F) -> (r: Result<(), E>) where
        F: FnOnce(&[u8]) -> Result<(), E>,

        requires
            forall|d: &[u8]| d@ == heartbeat_header().bytes() ==> call_requires(send_fn, (d,)),
        ensures
            final(self)@ == old(self)@,
            match r {
                Ok(()) => taken(send_fn, heartbeat_header().bytes()),
                Err(e) => refused(send_fn, heartbeat_header().bytes(), e),
            },
    {
        let hdr = Header {
            source_us: 0,
            sequence: 0,
            payload_size: 0,
            buf_offset: 0,
            fragment: 0,
            fragments: 0,
        };
        let mut buf: Vec<u8> = Vec::new();
        hdr.encode(&mut buf);
        let d = buf.as_slice();
        assert(d@ =~= heartbeat_header().bytes());
        send_fn(d)
    }
}

pub proof fn lemma_ceiling(len: nat, per: nat)
    requires
        per > 0,
    ensures
        fragment_count(len, per) == if len % per == 0 {
            len / per
        } else {
            len / per + 1
        },
        len % per != 0 ==> len / per + 1 <= len,
{
    let q = (len / per) as int;
    let r = (len % per) as int;
    vstd::arithmetic::div_mod::lemma_fundamental_div_mod(len as int, per as int);
    vstd::arithmetic::div_mod::lemma_mod_bound(len as int, per as int);
    if r == 0 {
        assert(len + per - 1 == q * per + (per - 1)) by (nonlinear_arith)
            requires
                len == per * q + r,
                r == 0,
        ;
        vstd::arithmetic::div_mod::lemma_fundamental_div_mod_converse(
            len + per - 1,
            per as int,
            q,
            per - 1,
        );
    } else {
        assert(len + per - 1 == (q + 1) * per + (r - 1)) by (nonlinear_arith)
            requires
                len == per * q + r,
        ;
        vstd::arithmetic::div_mod::lemma_fundamental_div_mod_converse(
            len + per - 1,
            per as int,
            q + 1,
            r - 1,
        );
        assert(q + 1 <= len) by (nonlinear_arith)
            requires
                len == per * q + r,
                r >= 1,
                per >= 1,
                q >= 0,
        ;
    }
}

// ── Receiver ──────────────────────────────────────────────────────────────────

/// What a datagram led to.
pub struct Ingested<'a> {
    /// The whole message, once its last fragment is in.
    pub assembled: Option<&'a [u8]>,
    /// The datagram was the first fragment of a message, and not in yet.
    pub new_seq: bool,
    /// The datagram was a heartbeat.
    pub heartbeat: bool,
    /// Where the message belongs in the target's map. 0 unless `assembled`.
    pub buf_offset: u32,
}

/// What a datagram led to, with the message as a sequence.
pub struct Outcome {
    pub assembled: Option<Seq<u8>>,
    pub new_seq: bool,
    pub heartbeat: bool,
    pub buf_offset: u32,
}

impl<'a> View for Ingested<'a> {
    type V = Outcome;

    open spec fn view(&self) -> Outcome {
        Outcome {
            assembled: match self.assembled {
                Some(m) => Some(m@),
                None => None,
            },
            new_seq: self.new_seq,
            heartbeat: self.heartbeat,
            buf_offset: self.buf_offset,
        }
    }
}

impl<'a> Default for Ingested<'a> {
    fn default() -> (r: Ingested<'a>)
        ensures
            r@ == Outcome::nothing(),
    {
        Ingested { assembled: None, new_seq: false, heartbeat: false, buf_offset: 0 }
    }
}

impl Outcome {
    /// The outcome of a datagram that changes nothing.
    pub open spec fn nothing() -> Outcome {
        Outcome { assembled: None, new_seq: false, heartbeat: false, buf_offset: 0 }
    }

    /// The outcome of a fragment that completes no message.
    pub open spec fn partial(new_seq: bool) -> Outcome {
        Outcome { new_seq, ..Outcome::nothing() }
    }
}

/// `s` cut, or filled up with zeros, to `n` bytes.
pub open spec fn resized(s: Seq<u8>, n: nat) -> Seq<u8> {
    Seq::new(
        n,
        |i: int|
            if i < s.len() {
                s[i]
            } else {
                0u8
            },
    )
}

/// `s` with `data` written over the bytes from `at` on.
pub open spec fn overwritten(s: Seq<u8>, at: int, data: Seq<u8>) -> Seq<u8> {
    Seq::new(
        s.len(),
        |i: int|
            if at <= i < at + data.len() {
                data[i - at]
            } else {
                s[i]
            },
    )
}

/// How many bytes each fragment but the last carries, as fragment `idx` with
/// `len` bytes tells of a message of `n` fragments and `total` bytes: all but
/// the last carry equally many, and the last one what is left. `None` if the
/// fragment cannot be one of such a message.
pub open spec fn share(n: int, total: int, idx: int, len: int) -> Option<int> {
    if n == 1 {
        if len == total {
            Some(total)
        } else {
            None
        }
    } else if idx < n - 1 {
        if len > 0 && (n - 1) * len <= total {
            Some(len)
        } else {
            None
        }
    } else if len < total && (total - len) % (n - 1) == 0 {
        Some((total - len) / (n - 1))
    } else {
        None
    }
}

/// The bytes that fragment `idx` of `n` carries, if all but the last carry
/// `per`.
pub open spec fn part(data: Seq<u8>, per: nat, n: int, idx: int) -> Seq<u8> {
    data.subrange(
        idx * per,
        if idx < n - 1 {
            (idx + 1) * per
        } else {
            data.len() as int
        },
    )
}

/// A message that was handed out.
pub struct Completed {
    /// The header of the datagram that completed it, with the message's own
    /// number of fragments.
    pub header: Header,
    /// Bytes in each fragment but the last.
    pub per: nat,
    pub data: Seq<u8>,
}

impl Completed {
    /// The fragments cover the message.
    pub open spec fn wf(self) -> bool {
        &&& self.header.fragments >= 1
        &&& (self.header.fragments - 1) * self.per <= self.data.len()
    }

    /// A datagram with this header and these bytes is one of the message's.
    pub open spec fn repeats(self, h: Header, data: Seq<u8>) -> bool {
        &&& self.header.same_message(h)
        &&& h.fragment < h.fragments
        &&& data == part(self.data, self.per, h.fragments as int, h.fragment as int)
    }
}

/// What a receiver is, seen from outside.
#[verifier::ext_equal]
pub struct ReceiverState {
    /// Longest message that is accepted.
    pub max_payload: nat,
    /// Number of the message that is being put together.
    pub current: Option<u32>,
    /// Which of its fragments are in. Empty while its fragments are refused.
    pub received: Seq<bool>,
    /// Its bytes, as far as they are in.
    pub payload: Seq<u8>,
    /// Bytes in each fragment but the last; 0 until a fragment is in.
    pub frag_size: nat,
    /// Where it belongs in the target's map.
    pub buf_offset: u32,
    /// Source-side time of the newest first fragment.
    pub source_us: u64,
    /// Fragments of the last complete message.
    pub fragment_count: u16,
    /// Messages given up before they were complete.
    pub dropped: u64,
    /// The message that was handed out last.
    pub completed: Option<Completed>,
}

impl ReceiverState {
    /// The state before any datagram.
    pub open spec fn initial(max_payload: nat) -> ReceiverState {
        ReceiverState {
            max_payload,
            current: None,
            received: Seq::empty(),
            payload: Seq::empty(),
            frag_size: 0,
            buf_offset: u32::MAX,
            source_us: 0,
            fragment_count: 0,
            dropped: 0,
            completed: None,
        }
    }

    /// The bounds that no datagram can break. The fragments that are in leave
    /// no room between them.
    pub open spec fn wf(self) -> bool {
        &&& self.received.len() <= MAX_FRAGMENTS
        &&& self.payload.len() <= self.max_payload
        &&& self.received.len() > 1 && self.frag_size > 0 ==> (self.received.len() - 1)
            * self.frag_size <= self.payload.len()
        &&& self.received.len() > 1 && self.frag_size == 0 ==> forall|i: int|
            0 <= i < self.received.len() ==> !#[trigger] self.received[i]
        &&& self.completed matches Some(c) ==> c.wf()
    }

    /// The datagram is one of the message that was handed out last.
    pub open spec fn repeats(self, datagram: Seq<u8>) -> bool {
        self.completed matches Some(c) && c.repeats(
            Header::of(datagram),
            datagram.skip(HEADER_SIZE as int),
        )
    }

    /// Every fragment is in.
    pub open spec fn complete(self) -> bool {
        forall|i: int| 0 <= i < self.received.len() ==> #[trigger] self.received[i]
    }

    /// Some fragments are in and some are missing.
    pub open spec fn interrupted(self) -> bool {
        self.received.contains(true) && self.received.contains(false)
    }

    /// The header announces more than the receiver accepts.
    pub open spec fn rejects(self, h: Header) -> bool {
        h.fragments > MAX_FRAGMENTS || h.payload_size > self.max_payload
    }

    /// The state after the first datagram of another message, before its
    /// bytes are stored.
    pub open spec fn begun(self, h: Header) -> ReceiverState {
        let dropped = if self.interrupted() {
            ((self.dropped + 1) % 0x1_0000_0000_0000_0000) as u64
        } else {
            self.dropped
        };
        if self.rejects(h) {
            ReceiverState {
                current: Some(h.sequence),
                received: Seq::empty(),
                dropped,
                ..self
            }
        } else {
            ReceiverState {
                current: Some(h.sequence),
                received: Seq::new(h.fragments as nat, |i: int| false),
                payload: resized(self.payload, h.payload_size as nat),
                frag_size: 0,
                buf_offset: h.buf_offset,
                dropped,
                ..self
            }
        }
    }

    /// Fragment `idx` is the first one of its message, and not in yet.
    pub open spec fn opens(self, idx: int) -> bool {
        idx == 0 && !(self.received.len() > 0 && self.received[0])
    }

    /// Stores the bytes of one fragment of the current message. A fragment
    /// out of range or already in is left out, and so is one whose length does
    /// not fit the message or the fragments that are in.
    pub open spec fn stored(self, h: Header, data: Seq<u8>) -> (ReceiverState, Outcome) {
        let idx = h.fragment as int;
        let n = self.received.len() as int;
        let outcome = Outcome::partial(self.opens(idx));
        if idx >= n || self.received[idx] {
            (self, outcome)
        } else {
            match share(n, self.payload.len() as int, idx, data.len() as int) {
                None => (self, outcome),
                Some(per) => if self.frag_size > 0 && self.frag_size != per {
                    (self, outcome)
                } else {
                    let next = ReceiverState {
                        received: self.received.update(idx, true),
                        payload: overwritten(self.payload, idx * per, data),
                        frag_size: per as nat,
                        ..self
                    };
                    if next.complete() {
                        (
                            ReceiverState {
                                current: None,
                                completed: Some(
                                    Completed {
                                        header: Header { fragments: n as u16, ..h },
                                        per: per as nat,
                                        data: next.payload,
                                    },
                                ),
                                fragment_count: n as u16,
                                ..next
                            },
                            Outcome {
                                assembled: Some(next.payload),
                                buf_offset: next.buf_offset,
                                ..outcome
                            },
                        )
                    } else {
                        (next, outcome)
                    }
                },
            }
        }
    }

    /// The state in which the bytes of a fragment with this header are stored.
    pub open spec fn joined(self, h: Header) -> ReceiverState {
        let stamped = ReceiverState {
            source_us: if h.fragment == 0 {
                h.source_us
            } else {
                self.source_us
            },
            ..self
        };
        if stamped.current == Some(h.sequence) {
            stamped
        } else {
            stamped.begun(h)
        }
    }

    /// What one datagram does: the state after it and what is reported. A
    /// datagram of the message that was handed out last is discarded.
    pub open spec fn step(self, datagram: Seq<u8>) -> (ReceiverState, Outcome) {
        let h = Header::of(datagram);
        if datagram.len() < HEADER_SIZE {
            (self, Outcome::nothing())
        } else if h.fragments == 0 {
            (self, Outcome { heartbeat: true, ..Outcome::nothing() })
        } else if self.repeats(datagram) {
            (self, Outcome::nothing())
        } else {
            self.joined(h).stored(h, datagram.skip(HEADER_SIZE as int))
        }
    }
}

/// How many of the flags are set.
pub open spec fn count_set(s: Seq<bool>) -> nat
    decreases s.len(),
{
    if s.len() == 0 {
        0
    } else {
        count_set(s.drop_last()) + if s.last() {
            1nat
        } else {
            0nat
        }
    }
}

pub proof fn lemma_count_set(s: Seq<bool>)
    ensures
        count_set(s) <= s.len(),
        count_set(s) == 0 <==> !s.contains(true),
        count_set(s) == s.len() <==> !s.contains(false),
        count_set(s) == s.len() <==> forall|i: int| 0 <= i < s.len() ==> #[trigger] s[i],
    decreases s.len(),
{
    if s.len() > 0 {
        let t = s.drop_last();
        lemma_count_set(t);
        assert(s[s.len() - 1] == s.last());
        assert forall|b: bool| t.contains(b) implies s.contains(b) by {
            let i = choose|i: int| 0 <= i < t.len() && t[i] == b;
            assert(s[i] == b);
        }
        assert forall|b: bool| s.contains(b) && s.last() != b implies t.contains(b) by {
            let i = choose|i: int| 0 <= i < s.len() && s[i] == b;
            assert(t[i] == b);
        }
    }
    if s.contains(false) {
        let i = choose|i: int| 0 <= i < s.len() && s[i] == false;
        assert(!s[i]);
    }
}

pub proof fn lemma_count_set_update(s: Seq<bool>, i: int)
    requires
        0 <= i < s.len(),
        !s[i],
    ensures
        count_set(s.update(i, true)) == count_set(s) + 1,
    decreases s.len(),
{
    let u = s.update(i, true);
    if i == s.len() - 1 {
        assert(u.drop_last() =~= s.drop_last());
    } else {
        lemma_count_set_update(s.drop_last(), i);
        assert(u.drop_last() =~= s.drop_last().update(i, true));
    }
}

/// Writes `data` over the bytes of `buf` from `at` on.
pub(crate) fn copy_at(buf: &mut [u8], at: usize, data: &[u8])
    requires
        at + data@.len() <= old(buf)@.len(),
    ensures
        final(buf)@ == overwritten(old(buf)@, at as int, data@),
{
    let mut i: usize = 0;
    while i < data.len()
        invariant
            i <= data@.len(),
            at + data@.len() <= buf@.len(),
            buf@ == overwritten(old(buf)@, at as int, data@.take(i as int)),
            buf@.len() == old(buf)@.len(),
        decreases data@.len() - i,
    {
        assert(at + data.len() <= buf.len());
        buf[at + i] = data[i];
        i = i + 1;
        assert(buf@ =~= overwritten(old(buf)@, at as int, data@.take(i as int)));
    }
    assert(data@.take(i as int) =~= data@);
}

/// The place of a fragment lies inside the message.
pub proof fn lemma_share(n: int, total: int, idx: int, len: int)
    requires
        0 <= idx < n,
        0 <= len,
        0 <= total,
        share(n, total, idx, len) is Some,
    ensures
        ({
            let per = share(n, total, idx, len).unwrap();
            &&& per >= 0
            &&& n > 1 ==> per > 0
            &&& 0 <= idx * per
            &&& (n - 1) * per <= total
            &&& (n - 1) * per == total - len || idx < n - 1 && len == per
            &&& idx * per + len <= total
        }),
{
    let per = share(n, total, idx, len).unwrap();
    if n == 1 {
        assert(idx * per == 0 && (n - 1) * per == 0) by (nonlinear_arith)
            requires
                idx == 0,
                n == 1,
        ;
    } else if idx < n - 1 {
        assert(0 <= idx * per && idx * per + per <= (n - 1) * per) by (nonlinear_arith)
            requires
                0 <= idx,
                idx + 1 <= n - 1,
                per > 0,
        ;
    } else {
        vstd::arithmetic::div_mod::lemma_fundamental_div_mod(total - len, n - 1);
        assert(per > 0) by (nonlinear_arith)
            requires
                (n - 1) * per == total - len,
                total - len > 0,
                n - 1 > 0,
        ;
        assert(idx * per >= 0) by (nonlinear_arith)
            requires
                idx >= 0,
                per > 0,
        ;
    }
}

/// Finds how many bytes each fragment but the last carries.
fn share_of(n: usize, total: usize, idx: usize, len: usize) -> (r: Option<usize>)
    requires
        idx < n <= MAX_FRAGMENTS,
    ensures
        match r {
            Some(per) => share(n as int, total as int, idx as int, len as int) == Some(per as int),
            None => share(n as int, total as int, idx as int, len as int) is None,
        },
{
    if n == 1 {
        if len == total {
            Some(total)
        } else {
            None
        }
    } else if idx < n - 1 {
        proof {
            assert(0 <= (n - 1) * len <= 256 * u64::MAX) by (nonlinear_arith)
                requires
                    0 <= n - 1 <= 256,
                    0 <= len <= u64::MAX,
            ;
        }
        let all: u128 = (n as u128 - 1) * len as u128;
        if len > 0 && all <= total as u128 {
            Some(len)
        } else {
            None
        }
    } else if len < total && (total - len) % (n - 1) == 0 {
        Some((total - len) / (n - 1))
    } else {
        None
    }
}

/// Tells whether both hold the same bytes.
fn same_bytes(a: &[u8], b: &[u8]) -> (r: bool)
    ensures
        r == (a@ == b@),
{
    if a.len() != b.len() {
        return false;
    }
    let mut i: usize = 0;
    while i < a.len()
        invariant
            i <= a@.len(),
            a@.len() == b@.len(),
            forall|j: int| 0 <= j < i ==> a@[j] == b@[j],
        decreases a@.len() - i,
    {
        if a[i] != b[i] {
            return false;
        }
        i = i + 1;
    }
    assert(a@ =~= b@);
    true
}

/// Puts messages together again from datagrams that may come in any order,
/// more than once, or not at all.
pub struct Receiver {
    buf: Vec<u8>,
    received: Vec<bool>,
    max_payload: usize,
    current_seq: Option<u32>,
    total_frags: u16,
    got_frags: u16,
    payload_size: usize,
    detected_frag_size: usize,
    done_header: Option<Header>,
    done_frag_size: usize,
    done: Vec<u8>,
    /// Source-side time of the newest first fragment, in microseconds.
    pub last_source_us: u64,
    /// Fragments of the last complete message.
    pub last_fragment_count: u16,
    /// Messages given up because another one began. Each stands for at least
    /// one lost datagram.
    pub dropped_sequences: u64,
    /// Where the newest message belongs in the target's map.
    pub last_buf_offset: u32,
}

impl View for Receiver {
    type V = ReceiverState;

    closed spec fn view(&self) -> ReceiverState {
        ReceiverState {
            max_payload: self.max_payload as nat,
            current: self.current_seq,
            received: if self.total_frags == 0 {
                Seq::empty()
            } else {
                self.received@
            },
            payload: self.buf@,
            frag_size: self.detected_frag_size as nat,
            buf_offset: self.last_buf_offset,
            source_us: self.last_source_us,
            fragment_count: self.last_fragment_count,
            dropped: self.dropped_sequences,
            completed: match self.done_header {
                Some(header) => Some(
                    Completed { header, per: self.done_frag_size as nat, data: self.done@ },
                ),
                None => None,
            },
        }
    }
}

impl Receiver {
    pub closed spec fn inv(&self) -> bool {
        &&& self.payload_size == self.buf@.len()
        &&& self.total_frags > 0 ==> self.received@.len() == self.total_frags
        &&& self.got_frags == count_set(self@.received)
    }

    /// The receiver is in a state that datagrams can lead to.
    pub open spec fn wf(&self) -> bool {
        self@.wf() && self.inv()
    }

    /// A receiver for messages of up to `max_payload` bytes.
    pub fn new(max_payload: usize) -> (r: Receiver)
        requires
            max_payload <= isize::MAX,
        ensures
            r.wf(),
            r@ == ReceiverState::initial(max_payload as nat),
    {
        let r = Receiver {
            buf: Vec::with_capacity(max_payload),
            received: Vec::new(),
            max_payload,
            current_seq: None,
            total_frags: 0,
            got_frags: 0,
            payload_size: 0,
            detected_frag_size: 0,
            done_header: None,
            done_frag_size: 0,
            done: Vec::new(),
            last_source_us: 0,
            last_fragment_count: 0,
            dropped_sequences: 0,
            last_buf_offset: u32::MAX,
        };
        assert(r@ =~= ReceiverState::initial(max_payload as nat));
        r
    }

    /// Takes in one datagram. Reports what happened, and the message once it
    /// is complete.
    pub fn ingest(&mut self, datagram: &[u8]) -> (r: Ingested<'_>)
        requires
            old(self).wf(),
        ensures
            final(self).wf(),
            (final(self)@, r@) == old(self)@.step(datagram@),
    {
        if datagram.len() < HEADER_SIZE {
            return Ingested::default();
        }
        let hdr = Header::decode(datagram);
        if hdr.fragments == 0 {
            return Ingested { assembled: None, new_seq: false, heartbeat: true, buf_offset: 0 };
        }
        let body: &[u8] = &datagram[HEADER_SIZE..datagram.len()];
        assert(body@ =~= datagram@.skip(HEADER_SIZE as int));
        if self.is_repeat(&hdr, body) {
            return Ingested::default();
        }
        if hdr.fragment == 0 {
            self.last_source_us = hdr.source_us;
        }
        let same: bool = match self.current_seq {
            Some(s) => s == hdr.sequence,
            None => false,
        };
        if !same {
            self.reset(&hdr);
        }
        assert(self@ =~= old(self)@.joined(hdr));
        let new_seq: bool = hdr.fragment == 0 && !(self.total_frags > 0 && self.received[0]);
        let done: bool = self.store(&hdr, body);
        if done {
            let offset: u32 = self.last_buf_offset;
            assert(self.buf@.subrange(0, self.payload_size as int) =~= self.buf@);
            Ingested {
                assembled: Some(&self.buf[0..self.payload_size]),
                new_seq,
                heartbeat: false,
                buf_offset: offset,
            }
        } else {
            Ingested { assembled: None, new_seq, heartbeat: false, buf_offset: 0 }
        }
    }

    /// Source-side time of the newest first fragment, in microseconds.
    pub fn last_source_us(&self) -> (v: u64)
        ensures
            v == self@.source_us,
    {
        self.last_source_us
    }

    /// Fragments of the last complete message.
    pub fn last_fragment_count(&self) -> (v: u16)
        ensures
            v == self@.fragment_count,
    {
        self.last_fragment_count
    }

    /// Messages given up because another one began.
    pub fn dropped_sequences(&self) -> (v: u64)
        ensures
            v == self@.dropped,
    {
        self.dropped_sequences
    }

    /// Where the newest message belongs in the target's map.
    pub fn last_buf_offset(&self) -> (v: u32)
        ensures
            v == self@.buf_offset,
    {
        self.last_buf_offset
    }

    /// The bytes of the newest message, as far as they are in.
    pub fn payload(&self) -> (p: &[u8])
        ensures
            p@ == self@.payload,
    {
        self.buf.as_slice()
    }

    /// Tells whether a datagram is one of the message that was handed out last.
    fn is_repeat(&self, hdr: &Header, body: &[u8]) -> (r: bool)
        requires
            self.wf(),
        ensures
            r == (self@.completed matches Some(c) && c.repeats(*hdr, body@)),
    {
        let last = match self.done_header {
            Some(last) => last,
            None => {
                return false;
            },
        };
        if !last.is_same_message(hdr) || hdr.fragment >= hdr.fragments {
            return false;
        }
        let idx: usize = hdr.fragment as usize;
        let per: usize = self.done_frag_size;
        let n: usize = hdr.fragments as usize;
        assert(self@.completed.unwrap().wf());
        proof {
            assert(0 <= idx * per <= (n - 1) * per) by (nonlinear_arith)
                requires
                    0 <= idx <= n - 1,
                    0 <= per,
            ;
            assert((idx + 1) * per == idx * per + per) by (nonlinear_arith);
            if idx < n - 1 {
                assert((idx + 1) * per <= (n - 1) * per) by (nonlinear_arith)
                    requires
                        idx + 1 <= n - 1,
                        0 <= per,
                ;
            }
        }
        assert((n - 1) * per <= self.done.len());
        let from: usize = idx * per;
        let to: usize = if idx < n - 1 {
            from + per
        } else {
            self.done.len()
        };
        same_bytes(body, &self.done[from..to])
    }

    /// Stores the bytes of one fragment. Tells whether the message is complete.
    fn store(&mut self, hdr: &Header, data: &[u8]) -> (done: bool)
        requires
            old(self).wf(),
        ensures
            final(self).wf(),
            final(self)@ == old(self)@.stored(*hdr, data@).0,
            old(self)@.stored(*hdr, data@).1 == if done {
                Outcome {
                    assembled: Some(final(self)@.payload),
                    buf_offset: final(self)@.buf_offset,
                    ..Outcome::partial(old(self)@.opens(hdr.fragment as int))
                }
            } else {
                Outcome::partial(old(self)@.opens(hdr.fragment as int))
            },
    {
        let idx: usize = hdr.fragment as usize;
        if idx >= self.total_frags as usize || self.received[idx] {
            return false;
        }
        let n: usize = self.total_frags as usize;
        let per: usize = match share_of(n, self.buf.len(), idx, data.len()) {
            Some(per) => per,
            None => {
                return false;
            },
        };
        if self.detected_frag_size > 0 && self.detected_frag_size != per {
            return false;
        }
        proof {
            lemma_share(n as int, self.buf@.len() as int, idx as int, data@.len() as int);
        }
        assert(idx * per <= self.buf.len());
        let dest_offset: usize = idx * per;
        proof {
            lemma_count_set_update(self.received@, idx as int);
            lemma_count_set(self.received@.update(idx as int, true));
        }
        copy_at(self.buf.as_mut_slice(), dest_offset, data);
        self.received.set(idx, true);
        self.detected_frag_size = per;
        self.got_frags = self.got_frags + 1;
        if self.got_frags == self.total_frags {
            self.last_fragment_count = self.total_frags;
            self.current_seq = None;
            self.done_header = Some(Header { fragments: self.total_frags, ..*hdr });
            self.done_frag_size = per;
            delta::copy_to(&mut self.done, self.buf.as_slice());
            true
        } else {
            false
        }
    }

    /// Starts over for the message that `hdr` belongs to: a message left
    /// incomplete counts as dropped, and no fragment is in. A message of too
    /// many fragments or bytes takes no room and gets no fragments.
    pub fn reset(&mut self, hdr: &Header)
        requires
            old(self).wf(),
            hdr.fragments > 0,
        ensures
            final(self).wf(),
            final(self)@ == old(self)@.begun(*hdr),
            final(self)@.current == Some(hdr.sequence),
            count_set(final(self)@.received) == 0,
            old(self)@.dropped < u64::MAX ==> final(self)@.dropped == old(self)@.dropped + if 0
                < count_set(old(self)@.received) < old(self)@.received.len() {
                1int
            } else {
                0
            },
            if hdr.fragments > MAX_FRAGMENTS || hdr.payload_size > old(self)@.max_payload {
                &&& final(self)@.received.len() == 0
                &&& final(self)@.payload == old(self)@.payload
            } else {
                &&& final(self)@.received == Seq::new(hdr.fragments as nat, |i: int| false)
                &&& final(self)@.payload.len() == hdr.payload_size
            },
    {
        proof {
            lemma_count_set(self@.received);
        }
        if self.got_frags > 0 && self.got_frags < self.total_frags {
            self.dropped_sequences = self.dropped_sequences.wrapping_add(1);
        }
        self.current_seq = Some(hdr.sequence);
        self.got_frags = 0;
        if hdr.fragments > MAX_FRAGMENTS || hdr.payload_size as usize > self.max_payload {
            self.total_frags = 0;
            assert(self@ =~= old(self)@.begun(*hdr));
            return;
        }
        self.total_frags = hdr.fragments;
        self.payload_size = hdr.payload_size as usize;
        self.last_buf_offset = hdr.buf_offset;
        self.detected_frag_size = 0;
        self.received.clear();
        self.received.resize(hdr.fragments as usize, false);
        let new_size: usize = hdr.payload_size as usize;
        if new_size > self.buf.len() {
            self.buf.resize(new_size, 0);
        } else {
            self.buf.truncate(new_size);
        }
        proof {
            lemma_count_set(self@.received);
        }
        assert(self@ =~= old(self)@.begun(*hdr));
    }
}

// ── Laws ──────────────────────────────────────────────────────────────────────

/// A delta undoes its buffer byte by byte: each byte of it and the byte it was
/// taken against give the byte it was taken of. Where both buffers agree it is
/// zero.
pub proof fn delta_works_byte_by_byte(current: Seq<u8>, previous: Seq<u8>, i: int)
    requires
        current.len() == previous.len(),
        0 <= i < current.len(),
    ensures
        xor_bytes(current, previous).len() == current.len(),
        xor_bytes(current, previous)[i] ^ previous[i] == current[i],
        current[i] == previous[i] ==> xor_bytes(current, previous)[i] == 0,
{
    let c = current[i];
    let p = previous[i];
    assert((c ^ p) ^ p == c) by (bit_vector);
    assert(c ^ c == 0) by (bit_vector);
}

/// Every field of a header has its place in the datagram.
pub proof fn header_fields_have_their_places(h: Header)
    ensures
        ({
            let b = h.bytes();
            &&& b.len() == 24
            &&& wire::u64_at(b, 0) == h.source_us
            &&& wire::u32_at(b, 8) == h.sequence
            &&& wire::u32_at(b, 12) == h.payload_size
            &&& wire::u32_at(b, 16) == h.buf_offset
            &&& wire::u16_at(b, 20) == h.fragment
            &&& wire::u16_at(b, 22) == h.fragments
        }),
{
    header_round_trip(h, Seq::empty());
    assert(h.bytes() + Seq::<u8>::empty() =~= h.bytes());
    let b = h.bytes();
    wire::numbers_are_little_endian(b, 0);
    wire::numbers_are_little_endian(b, 8);
    wire::numbers_are_little_endian(b, 12);
    wire::numbers_are_little_endian(b, 16);
    wire::numbers_are_little_endian(b, 20);
    wire::numbers_are_little_endian(b, 22);
}

/// A heartbeat is 24 zero bytes.
pub proof fn heartbeat_is_zeros(i: int)
    requires
        0 <= i < 24,
    ensures
        heartbeat_header().bytes().len() == 24,
        heartbeat_header().bytes()[i] == 0,
{
}

/// A message takes as many datagrams as its bytes need, and no more. Each but
/// the last is full, and byte `p` of the message stands in datagram `p / per`,
/// behind its header.
pub proof fn datagrams_hold_the_message(m: Message, p: int)
    requires
        m.per > 0,
        0 <= p < m.data.len(),
    ensures
        ({
            let n = m.count();
            let i = p / m.per as int;
            &&& (n - 1) * m.per < m.data.len() <= n * m.per
            &&& 0 <= i < n
            &&& 24 + p % m.per as int <= m.datagram(i).len()
            &&& m.datagram(i)[24 + p % m.per as int] == m.data[p]
            &&& m.datagram(i).len() == if i < n - 1 {
                24 + m.per as int
            } else {
                24 + m.data.len() - (n - 1) * m.per
            }
        }),
{
    let n = m.count() as int;
    let per = m.per as int;
    let i = p / per;
    lemma_fragment_count(m.data.len(), m.per);
    vstd::arithmetic::div_mod::lemma_fundamental_div_mod(p, per);
    vstd::arithmetic::div_mod::lemma_mod_bound(p, per);
    vstd::arithmetic::div_mod::lemma_div_pos_is_pos(p, per);
    assert(per * i == i * per) by (nonlinear_arith);
    assert((i + 1) * per == i * per + per) by (nonlinear_arith);
    assert(i < n) by (nonlinear_arith)
        requires
            i * per <= p,
            p < m.data.len(),
            m.data.len() <= n * per,
            per > 0,
    ;
    if i < n - 1 {
        assert((i + 1) * per <= (n - 1) * per) by (nonlinear_arith)
            requires
                i + 1 <= n - 1,
                per > 0,
        ;
    } else {
        assert((i + 1) * per >= m.data.len());
    }
    header_fields_have_their_places(m.header(i));
    assert(m.datagram(i)[24 + p % per] == chunk(m.data, m.per, i)[p % per]);
}

/// A header in front of other bytes has the same fields at the same places.
pub proof fn header_stands_in_front(h: Header, rest: Seq<u8>)
    ensures
        wire::u64_at(h.bytes() + rest, 0) == h.source_us,
        wire::u32_at(h.bytes() + rest, 8) == h.sequence,
        wire::u32_at(h.bytes() + rest, 12) == h.payload_size,
        wire::u32_at(h.bytes() + rest, 16) == h.buf_offset,
        wire::u16_at(h.bytes() + rest, 20) == h.fragment,
        wire::u16_at(h.bytes() + rest, 22) == h.fragments,
{
    header_round_trip(h, rest);
    let d = h.bytes() + rest;
    wire::numbers_are_little_endian(d, 0);
    wire::numbers_are_little_endian(d, 8);
    wire::numbers_are_little_endian(d, 12);
    wire::numbers_are_little_endian(d, 16);
    wire::numbers_are_little_endian(d, 20);
    wire::numbers_are_little_endian(d, 22);
}

/// Every datagram of a message says what it is: the message's number, time,
/// place, length and number of fragments, and its own index.
pub proof fn datagrams_name_their_message(m: Message, i: int)
    requires
        m.per > 0,
        0 <= i < m.count() <= 0xffff,
        m.data.len() <= 0xffff_ffff,
    ensures
        ({
            let d = m.datagram(i);
            &&& wire::u64_at(d, 0) == m.source_us
            &&& wire::u32_at(d, 8) == m.sequence
            &&& wire::u32_at(d, 12) == m.data.len()
            &&& wire::u32_at(d, 16) == m.buf_offset
            &&& wire::u16_at(d, 20) == i
            &&& wire::u16_at(d, 22) == m.count()
        }),
{
    header_stands_in_front(m.header(i), chunk(m.data, m.per, i));
}

/// A new sender fills its datagrams, with a byte of payload at least, and begins
/// with the number 0.
pub proof fn new_sender_fills_its_datagrams(datagram_size: int)
    ensures
        SenderState::fresh(datagram_size).sequence == 0,
        datagram_size >= 25 ==> SenderState::fresh(datagram_size).per + 24 == datagram_size,
        datagram_size < 25 ==> SenderState::fresh(datagram_size).per == 1,
{
}

/// The next number is one higher; after the highest comes 0.
pub proof fn next_number_is_one_higher(s: SenderState)
    ensures
        s.sequence < 0xffff_ffff ==> s.advanced().sequence == s.sequence + 1,
        s.sequence == 0xffff_ffff ==> s.advanced().sequence == 0,
        s.advanced().per == s.per,
{
}

/// What a sender puts into a message is what it was given, under its number.
pub proof fn message_is_what_was_given(
    s: SenderState,
    data: Seq<u8>,
    source_us: u64,
    buf_offset: u32,
)
    ensures
        ({
            let m = s.message(data, source_us, buf_offset);
            &&& m.data == data
            &&& m.source_us == source_us
            &&& m.buf_offset == buf_offset
            &&& m.sequence == s.sequence
            &&& m.per == s.per
        }),
{
}

/// A new receiver holds nothing and has counted nothing.
pub proof fn new_receiver_is_empty(max_payload: nat)
    ensures
        ({
            let s = ReceiverState::initial(max_payload);
            &&& s.max_payload == max_payload
            &&& s.current is None && s.completed is None
            &&& s.received.len() == 0 && s.payload.len() == 0
            &&& s.source_us == 0 && s.fragment_count == 0 && s.dropped == 0
            &&& s.wf()
        }),
{
}

/// A datagram without room for a header is ignored.
pub proof fn short_datagram_is_ignored(s: ReceiverState, datagram: Seq<u8>)
    requires
        datagram.len() < 24,
    ensures
        s.step(datagram).0 == s,
        s.step(datagram).1 == (Outcome {
            assembled: None,
            new_seq: false,
            heartbeat: false,
            buf_offset: 0,
        }),
{
}

/// A datagram of no fragments is a heartbeat, whatever else it holds, and any
/// other is none.
pub proof fn heartbeat_has_no_fragments(s: ReceiverState, datagram: Seq<u8>)
    requires
        datagram.len() >= 24,
    ensures
        s.step(datagram).1.heartbeat <==> wire::u16_at(datagram, 22) == 0,
        wire::u16_at(datagram, 22) == 0 ==> s.step(datagram).0 == s && s.step(
            datagram,
        ).1.assembled is None && !s.step(datagram).1.new_seq,
{
    wire::numbers_are_little_endian(datagram, 22);
}

/// The time of a message is that of its first fragment: no other datagram
/// changes it, and that one does unless it is a repeat.
pub proof fn first_fragment_brings_the_time(s: ReceiverState, datagram: Seq<u8>)
    requires
        datagram.len() >= 24,
    ensures
        ({
            let t = s.step(datagram).0;
            &&& wire::u16_at(datagram, 20) != 0 ==> t.source_us == s.source_us
            &&& wire::u16_at(datagram, 20) == 0 && wire::u16_at(datagram, 22) > 0 && !s.repeats(
                datagram,
            ) ==> t.source_us == wire::u64_at(datagram, 0)
            &&& s.step(datagram).1.new_seq ==> wire::u16_at(datagram, 20) == 0
        }),
{
    wire::numbers_are_little_endian(datagram, 0);
    wire::numbers_are_little_endian(datagram, 20);
    wire::numbers_are_little_endian(datagram, 22);
}

/// What was taken was handed over as it is, and the answer was `Ok`.
pub proof fn taken_was_handed_over<E, F: FnOnce(&[u8]) -> Result<(), E>>(f: F, datagram: Seq<u8>)
    requires
        taken(f, datagram),
    ensures
        exists|d: &[u8], r: Result<(), E>|
            d@ == datagram && r is Ok && #[trigger] call_ensures(f, (d,), r),
{
}

/// What was refused was handed over as it is, and the answer was the error.
pub proof fn refused_was_handed_over<E, F: FnOnce(&[u8]) -> Result<(), E>>(
    f: F,
    datagram: Seq<u8>,
    e: E,
)
    requires
        refused(f, datagram, e),
    ensures
        exists|d: &[u8], r: Result<(), E>|
            d@ == datagram && r == Err::<(), E>(e) && #[trigger] call_ensures(f, (d,), r),
{
}

/// Nothing but a datagram of the message may be handed over, and nothing at all
/// of a message that is empty or too long.
pub proof fn only_datagrams_are_handed_over(m: Message, d: Seq<u8>)
    requires
        is_datagram_of(m, d),
    ensures
        1 <= m.count() <= 0xffff,
        exists|i: int| 0 <= i < m.count() && d == #[trigger] m.datagram(i),
{
}

/// A sender makes of what it is given a message under its next number, with its
/// own room per datagram.
pub proof fn sender_sends_what_it_is_given(
    s: Sender,
    data: Seq<u8>,
    source_us: u64,
    buf_offset: u32,
)
    ensures
        s.message(data, source_us, buf_offset) == (Message {
            sequence: s@.sequence,
            source_us,
            buf_offset,
            per: s@.per,
            data,
        }),
{
}

/// What is reported of a datagram is what is in the report.
pub proof fn report_is_what_it_says(r: Ingested)
    ensures
        r@.new_seq == r.new_seq,
        r@.heartbeat == r.heartbeat,
        r@.buf_offset == r.buf_offset,
        r.assembled is None ==> r@.assembled is None,
        r.assembled matches Some(m) ==> r@.assembled == Some(m@),
{
}

/// Headers are of one message if and only if they agree in its number, time,
/// length, place and number of fragments.
pub proof fn headers_of_one_message_agree(a: Header, b: Header)
    ensures
        a.same_message(b) <==> a.sequence == b.sequence && a.source_us == b.source_us
            && a.payload_size == b.payload_size && a.buf_offset == b.buf_offset && a.fragments
            == b.fragments,
{
}

/// A datagram of the default size is 9000 bytes, of which 24 are the header.
pub proof fn default_datagram_has_room()
    ensures
        MAX_DATAGRAM_SIZE == 9_000,
        MAX_PAYLOAD_PER_DATAGRAM == 9_000 - 24,
{
}

/// A datagram repeats the message that was handed out last if its header is of
/// that message and its bytes are those that stood in its place; the last
/// fragment's place reaches to the end.
pub proof fn repeats_have_the_same_bytes(c: Completed, h: Header, data: Seq<u8>)
    requires
        c.wf(),
        c.header.same_message(h),
        h.fragment < h.fragments,
    ensures
        ({
            let at = h.fragment * c.per;
            let end = if h.fragment + 1 < h.fragments {
                at + c.per
            } else {
                c.data.len() as int
            };
            c.repeats(h, data) <==> data.len() == end - at && forall|i: int|
                0 <= i < data.len() ==> #[trigger] data[i] == c.data[at + i]
        }),
{
    let n = h.fragments as int;
    let idx = h.fragment as int;
    let at = idx * c.per;
    assert((idx + 1) * c.per == at + c.per) by (nonlinear_arith)
        requires
            at == idx * c.per,
    ;
    assert(0 <= at && idx * c.per <= (n - 1) * c.per) by (nonlinear_arith)
        requires
            0 <= idx <= n - 1,
            at == idx * c.per,
    ;
    if idx + 1 < n {
        assert((idx + 1) * c.per <= (n - 1) * c.per) by (nonlinear_arith)
            requires
                idx + 1 <= n - 1,
        ;
    }
    let bytes = part(c.data, c.per, n, idx);
    if c.repeats(h, data) {
        assert forall|i: int| 0 <= i < data.len() implies #[trigger] data[i] == c.data[at + i] by {
            assert(data[i] == bytes[i]);
        }
    }
    let end = if idx + 1 < n {
        at + c.per
    } else {
        c.data.len() as int
    };
    if data.len() == end - at && (forall|i: int|
        0 <= i < data.len() ==> #[trigger] data[i] == c.data[at + i]) {
        assert(data =~= bytes);
    }
}

} // verus!
