//! XOR-delta frames.
//!
//! A partial frame holds the newest variable buffer and the header that names
//! it; here both together are its buffer. Once the target has confirmed that it
//! can, it is sent as the difference to the one before, with a full keyframe at
//! regular intervals. Sender and receiver both keep the buffer of the last
//! frame; a session-info frame sets it back to zeros on both sides.

use vstd::prelude::*;

use crate::protocol::DELTA_BIT;
use crate::protocol;

verus! {

/// Marks a session-info frame in place of an offset.
pub const SESSION_INFO: u32 = u32::MAX;

// ── Frame kinds ───────────────────────────────────────────────────────────────

/// What a message is, by its `buf_offset`.
#[derive(Clone, Copy, Debug, PartialEq, Eq, Structural)]
pub enum FrameKind {
    /// Header, descriptors and session YAML, from the start of the map.
    SessionInfo,
    /// A partial frame, whole. Its variable buffer belongs at this offset.
    Key(u32),
    /// A partial frame as the difference to the last one. Its variable buffer
    /// belongs at this offset.
    Delta(u32),
}

/// The `buf_offset` of a frame.
pub open spec fn tag_of(kind: FrameKind) -> u32 {
    match kind {
        FrameKind::SessionInfo => SESSION_INFO,
        FrameKind::Key(offset) => offset,
        FrameKind::Delta(offset) => (offset + DELTA_BIT) as u32,
    }
}

/// The frame that a `buf_offset` stands for.
pub open spec fn kind_of(tag: u32) -> FrameKind {
    if tag == SESSION_INFO {
        FrameKind::SessionInfo
    } else if tag < DELTA_BIT {
        FrameKind::Key(tag)
    } else {
        FrameKind::Delta((tag - DELTA_BIT) as u32)
    }
}

/// The offset leaves room for the delta flag, and with it is not the mark of
/// a session-info frame.
pub open spec fn taggable(offset: int) -> bool {
    0 <= offset < 0x7fff_ffff
}

/// Makes the `buf_offset` of a frame.
pub fn tag(kind: FrameKind) -> (t: u32)
    requires
        kind matches FrameKind::Key(offset) ==> taggable(offset as int),
        kind matches FrameKind::Delta(offset) ==> taggable(offset as int),
    ensures
        t == tag_of(kind),
{
    match kind {
        FrameKind::SessionInfo => SESSION_INFO,
        FrameKind::Key(offset) => offset,
        FrameKind::Delta(offset) => offset + DELTA_BIT,
    }
}

/// Tells what a message is by its `buf_offset`.
pub fn kind(tag: u32) -> (k: FrameKind)
    ensures
        k == kind_of(tag),
{
    if tag == SESSION_INFO {
        FrameKind::SessionInfo
    } else if tag < DELTA_BIT {
        FrameKind::Key(tag)
    } else {
        FrameKind::Delta(tag - DELTA_BIT)
    }
}

/// A frame is recognised as what it was sent as.
pub proof fn kind_survives_the_wire(kind: FrameKind)
    requires
        kind matches FrameKind::Key(offset) ==> taggable(offset as int),
        kind matches FrameKind::Delta(offset) ==> taggable(offset as int),
    ensures
        kind_of(tag_of(kind)) == kind,
{
}

/// The delta flag is bit 31, and the offset of a delta frame is what is left
/// without it.
pub proof fn delta_flag_is_a_bit(tag: u32)
    requires
        tag != SESSION_INFO,
    ensures
        match kind_of(tag) {
            FrameKind::SessionInfo => false,
            FrameKind::Key(offset) => tag & DELTA_BIT == 0 && offset == tag,
            FrameKind::Delta(offset) => tag & DELTA_BIT != 0 && offset == tag & !DELTA_BIT,
        },
{
    assert(tag < 0x8000_0000 ==> tag & 0x8000_0000 == 0) by (bit_vector);
    assert(tag >= 0x8000_0000 ==> tag & 0x8000_0000 != 0) by (bit_vector);
    assert(tag >= 0x8000_0000 ==> tag & !0x8000_0000u32 == tag - 0x8000_0000) by (bit_vector);
}

/// A receiver that knows no delta frames takes the `buf_offset` of one for an
/// offset past the end of its map, if that has no more than 2 GiB, and so
/// discards it.
pub proof fn delta_frames_miss_the_map(offset: u32, map_len: int)
    requires
        taggable(offset as int),
        map_len <= 0x8000_0000,
    ensures
        tag_of(FrameKind::Delta(offset)) >= map_len,
{
}

// ── Sending side ──────────────────────────────────────────────────────────────

/// The difference of a buffer to the last one; what the last one lacks counts
/// as zero.
pub open spec fn difference(current: Seq<u8>, last: Seq<u8>) -> Seq<u8> {
    protocol::xor_bytes(current, protocol::resized(last, current.len()))
}

/// What the sending side of the delta stream is.
pub struct EncoderState {
    /// The buffer of the last partial frame. Empty stands for zeros.
    pub last: Seq<u8>,
    /// Partial frames since the last keyframe, that one included; 0 before the
    /// first.
    pub since_key: nat,
    /// Partial frames from one keyframe to the next.
    pub interval: nat,
}

impl EncoderState {
    /// The state after a session-info frame.
    pub open spec fn cleared(self) -> EncoderState {
        EncoderState { last: Seq::empty(), since_key: 0, ..self }
    }

    /// The next partial frame is a keyframe.
    pub open spec fn key_due(self, use_delta: bool) -> bool {
        !use_delta || self.since_key == 0 || self.since_key >= self.interval
    }

    /// The state after a partial frame.
    pub open spec fn after(self, current: Seq<u8>, use_delta: bool) -> EncoderState {
        EncoderState {
            last: current,
            since_key: if self.key_due(use_delta) {
                1
            } else {
                self.since_key + 1
            },
            ..self
        }
    }

    /// The bytes of a partial frame before compression.
    pub open spec fn frame(self, current: Seq<u8>, use_delta: bool) -> Seq<u8> {
        if self.key_due(use_delta) {
            current
        } else {
            difference(current, self.last)
        }
    }
}

/// `buf` as its content, cut or filled up with zeros to `n` bytes.
fn resize_to(buf: &mut Vec<u8>, n: usize)
    ensures
        final(buf)@ == protocol::resized(old(buf)@, n as nat),
{
    if n > buf.len() {
        buf.resize(n, 0);
    } else {
        buf.truncate(n);
    }
    assert(buf@ =~= protocol::resized(old(buf)@, n as nat));
}

/// `buf` becomes a copy of `data`.
pub(crate) fn copy_to(buf: &mut Vec<u8>, data: &[u8])
    ensures
        final(buf)@ == data@,
{
    buf.clear();
    buf.extend_from_slice(data);
    assert(buf@ =~= data@);
}

/// Turns variable buffers into key and delta frames.
pub struct DeltaEncoder {
    last: Vec<u8>,
    since_key: u16,
    interval: u16,
}

impl View for DeltaEncoder {
    type V = EncoderState;

    closed spec fn view(&self) -> EncoderState {
        EncoderState {
            last: self.last@,
            since_key: self.since_key as nat,
            interval: self.interval as nat,
        }
    }
}

impl DeltaEncoder {
    /// The count of frames since the last keyframe stays within the interval.
    pub open spec fn wf(&self) -> bool {
        &&& self@.interval <= u16::MAX
        &&& self@.since_key <= u16::MAX
        &&& self@.since_key > 1 ==> self@.since_key <= self@.interval
    }

    /// An encoder that makes every `interval`th partial frame a keyframe.
    pub fn new(interval: u16) -> (e: DeltaEncoder)
        ensures
            e.wf(),
            e@ == (EncoderState { last: Seq::empty(), since_key: 0, interval: interval as nat }),
    {
        let e = DeltaEncoder { last: Vec::new(), since_key: 0, interval };
        assert(e.last@ =~= Seq::<u8>::empty());
        e
    }

    /// A session-info frame goes out: the next partial frame is a keyframe.
    pub fn reset(&mut self)
        requires
            old(self).wf(),
        ensures
            final(self).wf(),
            final(self)@ == old(self)@.cleared(),
    {
        self.last.clear();
        self.since_key = 0;
        assert(self.last@ =~= Seq::<u8>::empty());
    }

    /// Puts the next partial frame into `out`. Tells whether it is a keyframe.
    pub fn encode(&mut self, current: &[u8], use_delta: bool, out: &mut Vec<u8>) -> (key: bool)
        requires
            old(self).wf(),
        ensures
            final(self).wf(),
            key == old(self)@.key_due(use_delta),
            final(out)@ == old(self)@.frame(current@, use_delta),
            final(self)@ == old(self)@.after(current@, use_delta),
    {
        let key: bool = !use_delta || self.since_key == 0 || self.since_key >= self.interval;
        if key {
            copy_to(out, current);
            self.since_key = 1;
        } else {
            resize_to(&mut self.last, current.len());
            resize_to(out, current.len());
            protocol::xor_delta(current, self.last.as_slice(), out.as_mut_slice());
            self.since_key = self.since_key + 1;
        }
        copy_to(&mut self.last, current);
        key
    }
}

// ── Receiving side ────────────────────────────────────────────────────────────

/// The buffer that a partial frame stands for, given the last one.
pub open spec fn restored(last: Seq<u8>, frame: Seq<u8>, is_delta: bool) -> Seq<u8> {
    if is_delta {
        difference(frame, last)
    } else {
        frame
    }
}

/// Turns key and delta frames back into variable buffers.
pub struct DeltaDecoder {
    last: Vec<u8>,
}

impl View for DeltaDecoder {
    type V = Seq<u8>;

    /// The buffer of the last partial frame. Empty stands for zeros.
    closed spec fn view(&self) -> Seq<u8> {
        self.last@
    }
}

impl DeltaDecoder {
    /// A decoder before any frame.
    pub fn new() -> (d: DeltaDecoder)
        ensures
            d@ == Seq::<u8>::empty(),
    {
        let d = DeltaDecoder { last: Vec::new() };
        assert(d@ =~= Seq::<u8>::empty());
        d
    }

    /// A session-info frame came in.
    pub fn reset(&mut self)
        ensures
            final(self)@ == Seq::<u8>::empty(),
    {
        self.last.clear();
        assert(self@ =~= Seq::<u8>::empty());
    }

    /// The buffer that a partial frame stands for.
    pub fn restore(&self, frame: &[u8], is_delta: bool) -> (buffer: Vec<u8>)
        ensures
            buffer@ == restored(self@, frame@, is_delta),
    {
        let mut buffer: Vec<u8> = Vec::new();
        if is_delta {
            let mut last: Vec<u8> = Vec::new();
            copy_to(&mut last, self.last.as_slice());
            resize_to(&mut last, frame.len());
            resize_to(&mut buffer, frame.len());
            protocol::xor_delta(frame, last.as_slice(), buffer.as_mut_slice());
        } else {
            copy_to(&mut buffer, frame);
        }
        buffer
    }

    /// The partial frame that stands for `buffer` is the last one.
    pub fn accept(&mut self, buffer: Vec<u8>)
        ensures
            final(self)@ == buffer@,
    {
        self.last = buffer;
    }

    /// Takes in a partial frame. The buffer it stands for is then the last
    /// one.
    pub fn decode(&mut self, frame: &[u8], is_delta: bool)
        ensures
            final(self)@ == restored(old(self)@, frame@, is_delta),
    {
        let buffer: Vec<u8> = self.restore(frame, is_delta);
        self.accept(buffer);
    }

    /// The buffer of the last partial frame.
    pub fn buffer(&self) -> (b: &[u8])
        ensures
            b@ == self@,
    {
        self.last.as_slice()
    }
}

// ── Laws ──────────────────────────────────────────────────────────────────────

/// A decoder in step with the encoder gets every buffer as it was, and stays
/// in step.
pub proof fn decoder_stays_in_step(e: EncoderState, last: Seq<u8>, current: Seq<u8>, use_delta: bool)
    requires
        last == e.last,
    ensures
        restored(last, e.frame(current, use_delta), !e.key_due(use_delta)) == current,
        e.after(current, use_delta).last == current,
{
    let zeros = protocol::resized(last, current.len());
    protocol::xor_delta_round_trip(current, zeros);
}

/// A keyframe brings a decoder into step whatever it missed.
pub proof fn keyframe_resynchronises(
    e: EncoderState,
    last: Seq<u8>,
    current: Seq<u8>,
    use_delta: bool,
)
    requires
        e.key_due(use_delta),
    ensures
        restored(last, e.frame(current, use_delta), !e.key_due(use_delta)) == current,
        e.after(current, use_delta).last == current,
{
}

/// A session-info frame brings both sides into step, and the partial frame
/// after it is a keyframe.
pub proof fn session_info_resynchronises(e: EncoderState, use_delta: bool)
    ensures
        e.cleared().last == Seq::<u8>::empty(),
        e.cleared().key_due(use_delta),
{
}

/// The state after the partial frames, one after another.
pub open spec fn after_all(e: EncoderState, buffers: Seq<Seq<u8>>, use_delta: bool) -> EncoderState
    decreases buffers.len(),
{
    if buffers.len() == 0 {
        e
    } else {
        after_all(e, buffers.drop_last(), use_delta).after(buffers.last(), use_delta)
    }
}

/// Frame `i` of the partial frames is a keyframe.
pub open spec fn key_at(e: EncoderState, buffers: Seq<Seq<u8>>, use_delta: bool, i: int) -> bool {
    after_all(e, buffers.take(i), use_delta).key_due(use_delta)
}

proof fn lemma_no_key(e: EncoderState, buffers: Seq<Seq<u8>>, use_delta: bool)
    requires
        forall|i: int|
            0 <= i < buffers.len() ==> !#[trigger] key_at(e, buffers, use_delta, i),
    ensures
        after_all(e, buffers, use_delta).since_key == e.since_key + buffers.len(),
        after_all(e, buffers, use_delta).interval == e.interval,
    decreases buffers.len(),
{
    if buffers.len() > 0 {
        let before = buffers.drop_last();
        assert forall|i: int| 0 <= i < before.len() implies !#[trigger] key_at(
            e,
            before,
            use_delta,
            i,
        ) by {
            assert(before.take(i) =~= buffers.take(i));
            assert(!key_at(e, buffers, use_delta, i));
        }
        lemma_no_key(e, before, use_delta);
        assert(buffers.take(buffers.len() - 1) =~= before);
        assert(!key_at(e, buffers, use_delta, buffers.len() - 1));
    }
}

/// Among as many partial frames as the interval says there is a keyframe, so
/// that a lost frame does harm no longer than that.
pub proof fn keyframes_are_regular(e: EncoderState, buffers: Seq<Seq<u8>>, use_delta: bool)
    requires
        buffers.len() >= 1,
        buffers.len() >= e.interval,
    ensures
        exists|i: int| 0 <= i < buffers.len() && #[trigger] key_at(e, buffers, use_delta, i),
{
    if forall|i: int| 0 <= i < buffers.len() ==> !#[trigger] key_at(e, buffers, use_delta, i) {
        let before = buffers.drop_last();
        assert forall|i: int| 0 <= i < before.len() implies !#[trigger] key_at(
            e,
            before,
            use_delta,
            i,
        ) by {
            assert(before.take(i) =~= buffers.take(i));
            assert(!key_at(e, buffers, use_delta, i));
        }
        lemma_no_key(e, before, use_delta);
        assert(buffers.take(buffers.len() - 1) =~= before);
        assert(buffers.take(0) =~= Seq::<Seq<u8>>::empty());
        assert(!key_at(e, buffers, use_delta, 0));
        assert(!key_at(e, buffers, use_delta, buffers.len() - 1));
    }
}

/// The decoder's last buffer after it got all of the encoder's partial frames.
pub open spec fn decoded_after(
    e: EncoderState,
    last: Seq<u8>,
    buffers: Seq<Seq<u8>>,
    use_delta: bool,
) -> Seq<u8>
    decreases buffers.len(),
{
    if buffers.len() == 0 {
        last
    } else {
        let before = after_all(e, buffers.drop_last(), use_delta);
        restored(
            decoded_after(e, last, buffers.drop_last(), use_delta),
            before.frame(buffers.last(), use_delta),
            !before.key_due(use_delta),
        )
    }
}

/// From the moment a decoder is in step, or gets a keyframe, it has every
/// buffer as it was sent, as long as no frame is lost.
pub proof fn stream_is_restored(
    e: EncoderState,
    last: Seq<u8>,
    buffers: Seq<Seq<u8>>,
    use_delta: bool,
)
    requires
        buffers.len() > 0,
        last == e.last || e.key_due(use_delta),
    ensures
        decoded_after(e, last, buffers, use_delta) == buffers.last(),
    decreases buffers.len(),
{
    let before = buffers.drop_last();
    let state = after_all(e, before, use_delta);
    if before.len() == 0 {
        assert(state == e);
        assert(decoded_after(e, last, before, use_delta) == last);
        if last == e.last {
            decoder_stays_in_step(e, last, buffers.last(), use_delta);
        } else {
            keyframe_resynchronises(e, last, buffers.last(), use_delta);
        }
    } else {
        stream_is_restored(e, last, before, use_delta);
        assert(state.last == before.last());
        decoder_stays_in_step(
            state,
            decoded_after(e, last, before, use_delta),
            buffers.last(),
            use_delta,
        );
    }
}

/// A frame's `buf_offset` is its offset, with the highest bit set in a delta
/// frame; all bits are set in a session-info frame.
pub proof fn tags_hold_the_offset(offset: u32)
    requires
        offset < 0x7fff_ffff,
    ensures
        tag_of(FrameKind::SessionInfo) == 0xffff_ffff,
        tag_of(FrameKind::Key(offset)) == offset,
        tag_of(FrameKind::Delta(offset)) == offset | 0x8000_0000,
{
    assert(offset < 0x7fff_ffff ==> offset | 0x8000_0000 == offset + 0x8000_0000) by (bit_vector);
}

/// A delta frame is as long as its buffer, and each of its bytes and the byte
/// before, or zero where there was none, give the byte of the buffer.
pub proof fn delta_frame_is_the_difference(
    e: EncoderState,
    current: Seq<u8>,
    use_delta: bool,
    i: int,
)
    requires
        !e.key_due(use_delta),
        0 <= i < current.len(),
    ensures
        ({
            let frame = e.frame(current, use_delta);
            let before = if i < e.last.len() {
                e.last[i]
            } else {
                0u8
            };
            &&& frame.len() == current.len()
            &&& frame[i] ^ before == current[i]
            &&& current[i] == before ==> frame[i] == 0
        }),
{
    protocol::delta_works_byte_by_byte(current, protocol::resized(e.last, current.len()), i);
}

/// A keyframe is the buffer itself, and the encoder goes on from the buffer in
/// any case.
pub proof fn keyframe_is_the_buffer(e: EncoderState, current: Seq<u8>, use_delta: bool)
    ensures
        e.key_due(use_delta) ==> e.frame(current, use_delta) == current,
        e.after(current, use_delta).last == current,
        e.after(current, use_delta).interval == e.interval,
        e.cleared().last.len() == 0 && e.cleared().interval == e.interval,
{
}

proof fn lemma_since_key(e: EncoderState, buffers: Seq<Seq<u8>>)
    requires
        e.since_key == 0,
        e.interval >= 1,
    ensures
        after_all(e, buffers, true).interval == e.interval,
        buffers.len() == 0 ==> after_all(e, buffers, true).since_key == 0,
        buffers.len() > 0 ==> after_all(e, buffers, true).since_key == (buffers.len() - 1)
            % e.interval as int + 1,
    decreases buffers.len(),
{
    if buffers.len() > 0 {
        let before = buffers.drop_last();
        let n = e.interval as int;
        lemma_since_key(e, before);
        if before.len() > 0 {
            let k = before.len() - 1;
            vstd::arithmetic::div_mod::lemma_fundamental_div_mod(k, n);
            vstd::arithmetic::div_mod::lemma_mod_bound(k, n);
            let q = k / n;
            let r = k % n;
            assert((q + 1) * n == n * q + n) by (nonlinear_arith);
            assert(q * n == n * q) by (nonlinear_arith);
            if r + 1 == n {
                vstd::arithmetic::div_mod::lemma_fundamental_div_mod_converse(k + 1, n, q + 1, 0);
            } else {
                vstd::arithmetic::div_mod::lemma_fundamental_div_mod_converse(k + 1, n, q, r + 1);
            }
        } else {
            vstd::arithmetic::div_mod::lemma_small_mod(0, e.interval);
        }
    }
}

/// With deltas, exactly every `interval`th partial frame is a keyframe, from the
/// first one after session info on. Without, or with an interval of 0, all are.
pub proof fn keyframes_come_every_interval(e: EncoderState, buffers: Seq<Seq<u8>>, i: int)
    requires
        0 <= i <= buffers.len(),
    ensures
        key_at(e, buffers, false, i),
        e.since_key == 0 && e.interval >= 1 ==> (key_at(e, buffers, true, i) <==> i
            % e.interval as int == 0),
        e.interval == 0 ==> key_at(e, buffers, true, i),
{
    if e.since_key == 0 && e.interval >= 1 {
        let n = e.interval as int;
        lemma_since_key(e, buffers.take(i));
        if i > 0 {
            let k = i - 1;
            vstd::arithmetic::div_mod::lemma_fundamental_div_mod(k, n);
            vstd::arithmetic::div_mod::lemma_mod_bound(k, n);
            let q = k / n;
            let r = k % n;
            assert((q + 1) * n == n * q + n) by (nonlinear_arith);
            assert(q * n == n * q) by (nonlinear_arith);
            if r + 1 == n {
                vstd::arithmetic::div_mod::lemma_fundamental_div_mod_converse(i, n, q + 1, 0);
            } else {
                vstd::arithmetic::div_mod::lemma_fundamental_div_mod_converse(i, n, q, r + 1);
            }
        } else {
            vstd::arithmetic::div_mod::lemma_small_mod(0, e.interval);
        }
    } else if e.interval == 0 {
        lemma_interval_stays(e, buffers.take(i));
    }
}

proof fn lemma_interval_stays(e: EncoderState, buffers: Seq<Seq<u8>>)
    ensures
        after_all(e, buffers, true).interval == e.interval,
    decreases buffers.len(),
{
    if buffers.len() > 0 {
        lemma_interval_stays(e, buffers.drop_last());
    }
}

/// A decoder takes a whole frame as it is, and of a delta frame each byte with
/// the byte before, or zero where there was none.
pub proof fn frames_are_restored_byte_by_byte(
    last: Seq<u8>,
    frame: Seq<u8>,
    is_delta: bool,
    i: int,
)
    requires
        0 <= i < frame.len(),
    ensures
        ({
            let before = if i < last.len() {
                last[i]
            } else {
                0u8
            };
            &&& restored(last, frame, is_delta).len() == frame.len()
            &&& restored(last, frame, is_delta)[i] == if is_delta {
                frame[i] ^ before
            } else {
                frame[i]
            }
        }),
{
    if is_delta {
        let r = protocol::resized(last, frame.len());
        assert(r[i] == if i < last.len() {
            last[i]
        } else {
            0u8
        });
    }
}

} // verus!
