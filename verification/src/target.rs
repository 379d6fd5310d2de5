//! The receiving side: what a message does to the map, and what silence does.
//!
//! Nothing here waits, reads a clock or touches a socket. The program around
//! it hands in datagrams and times and does what comes back. Times are
//! microseconds since the program started.

use vstd::prelude::*;

use crate::delta::{DeltaDecoder, FrameKind};
use crate::ibt_writer::OpenIbt;
use crate::irsdk::{IRSDK_HEADER_SIZE, OFF_NUMBUF, OFF_STATUS, OFF_TICKRATE, OFF_VARBUF};
use crate::protocol::{Receiver, ReceiverState};
use crate::codec;
use crate::delta;
use crate::irsdk;
use crate::protocol;
use crate::reassembly;
use crate::source;
use crate::wire;

verus! {

/// Seconds without data before the map is closed, unless set otherwise.
pub const DEFAULT_STALE_TIMEOUT_SECS: u64 = 10;

/// With two stages: silence after which the map is zeroed.
pub const STALE_TIMEOUT_US: u64 = 30_000_000;

/// With two stages: silence after which the map is closed.
pub const CLOSE_TIMEOUT_US: u64 = 60_000_000;

// ── Writing the map ───────────────────────────────────────────────────────────

/// What became of a frame.
#[derive(Clone, Copy, Debug, PartialEq, Eq, Structural)]
pub enum Applied {
    /// A session-info frame of this length was written.
    SessionInfo(usize),
    /// A partial frame of this length was written.
    Partial(usize),
    /// The frame made no sense.
    Malformed,
    /// The frame reaches past the end of the map.
    OutOfBounds,
    /// A partial frame came without the session info it belongs to.
    NoSessionInfo,
}

impl Applied {
    /// The map was written.
    pub open spec fn written(self) -> bool {
        self is SessionInfo || self is Partial
    }

    /// A session-info frame is needed before anything can be written.
    pub open spec fn wants_resync(self) -> bool {
        self is OutOfBounds || self is NoSessionInfo
    }
}

/// What the writer remembers between frames.
pub struct WriterState {
    /// The buffer of the last partial frame.
    pub last: Seq<u8>,
    /// A session-info frame has been written.
    pub has_session_info: bool,
}

/// The header describes the same variables and session YAML as the map: all of
/// it is equal but the status and the ring of buffers.
pub open spec fn same_session(map: Seq<u8>, header: Seq<u8>) -> bool {
    &&& map.len() >= IRSDK_HEADER_SIZE
    &&& header.len() >= IRSDK_HEADER_SIZE
    &&& forall|i: int|
        0 <= i < OFF_VARBUF && !(OFF_STATUS <= i < OFF_TICKRATE) ==> #[trigger] map[i] == header[i]
}

/// What a decompressed frame does: the writer and the map after it, and what
/// is reported.
pub open spec fn frame_applied(w: WriterState, map: Seq<u8>, frame: Seq<u8>, kind: FrameKind) -> (
    WriterState,
    Seq<u8>,
    Applied,
) {
    match kind {
        FrameKind::SessionInfo => if frame.len() > map.len() {
            (w, map, Applied::OutOfBounds)
        } else {
            (
                WriterState { last: Seq::empty(), has_session_info: true },
                protocol::overwritten(map, 0, frame),
                Applied::SessionInfo(frame.len() as usize),
            )
        },
        FrameKind::Key(offset) => buffer_applied(w, map, frame, offset as int, false),
        FrameKind::Delta(offset) => buffer_applied(w, map, frame, offset as int, true),
    }
}

/// What a partial frame does. The variable buffer is written first and the
/// header last, so that neither the status nor the tick shows before there is
/// telemetry behind it.
pub open spec fn buffer_applied(
    w: WriterState,
    map: Seq<u8>,
    frame: Seq<u8>,
    offset: int,
    is_delta: bool,
) -> (WriterState, Seq<u8>, Applied) {
    let body = delta::restored(w.last, frame, is_delta);
    let len = frame.len() - IRSDK_HEADER_SIZE;
    if !w.has_session_info {
        (w, map, Applied::NoSessionInfo)
    } else if len < 0 {
        (w, map, Applied::Malformed)
    } else if offset + len > map.len() || map.len() < IRSDK_HEADER_SIZE {
        (w, map, Applied::OutOfBounds)
    } else if !same_session(map, body.skip(len)) {
        (w, map, Applied::NoSessionInfo)
    } else {
        (
            WriterState { last: body, ..w },
            protocol::overwritten(
                protocol::overwritten(map, offset, body.take(len)),
                0,
                body.skip(len),
            ),
            Applied::Partial(frame.len() as usize),
        )
    }
}

/// Tells whether the header describes what the map does.
fn is_same_session(map: &[u8], header: &[u8]) -> (r: bool)
    requires
        map@.len() >= IRSDK_HEADER_SIZE,
        header@.len() >= IRSDK_HEADER_SIZE,
    ensures
        r == same_session(map@, header@),
{
    let mut i: usize = 0;
    while i < OFF_VARBUF
        invariant
            i <= OFF_VARBUF,
            map@.len() >= IRSDK_HEADER_SIZE,
            header@.len() >= IRSDK_HEADER_SIZE,
            forall|j: int|
                0 <= j < i && !(OFF_STATUS <= j < OFF_TICKRATE) ==> #[trigger] map@[j]
                    == header@[j],
        decreases OFF_VARBUF - i,
    {
        if !(OFF_STATUS <= i && i < OFF_TICKRATE) && map[i] != header[i] {
            return false;
        }
        i = i + 1;
    }
    true
}

/// Writes frames into the map.
pub struct MapWriter {
    decoder: DeltaDecoder,
    has_session_info: bool,
}

impl View for MapWriter {
    type V = WriterState;

    closed spec fn view(&self) -> WriterState {
        WriterState { last: self.decoder@, has_session_info: self.has_session_info }
    }
}

impl MapWriter {
    /// A writer before any frame.
    pub fn new() -> (w: MapWriter)
        ensures
            w@ == (WriterState { last: Seq::empty(), has_session_info: false }),
    {
        MapWriter { decoder: DeltaDecoder::new(), has_session_info: false }
    }

    /// The map is gone: the next one starts without session info.
    pub fn reset(&mut self)
        ensures
            final(self)@ == (WriterState { last: Seq::empty(), has_session_info: false }),
    {
        self.decoder.reset();
        self.has_session_info = false;
    }

    /// Writes a decompressed frame into the map.
    pub fn apply_frame(&mut self, map: &mut [u8], frame: &[u8], kind: FrameKind) -> (r: Applied)
        ensures
            (final(self)@, final(map)@, r) == frame_applied(old(self)@, old(map)@, frame@, kind),
    {
        match kind {
            FrameKind::SessionInfo => {
                if frame.len() > map.len() {
                    return Applied::OutOfBounds;
                }
                protocol::copy_at(map, 0, frame);
                self.decoder.reset();
                self.has_session_info = true;
                Applied::SessionInfo(frame.len())
            },
            FrameKind::Key(offset) => self.apply_buffer(map, frame, offset, false),
            FrameKind::Delta(offset) => self.apply_buffer(map, frame, offset, true),
        }
    }

    fn apply_buffer(&mut self, map: &mut [u8], frame: &[u8], offset: u32, is_delta: bool) -> (r:
        Applied)
        ensures
            (final(self)@, final(map)@, r) == buffer_applied(
                old(self)@,
                old(map)@,
                frame@,
                offset as int,
                is_delta,
            ),
    {
        if !self.has_session_info {
            return Applied::NoSessionInfo;
        }
        if frame.len() < IRSDK_HEADER_SIZE {
            return Applied::Malformed;
        }
        let len: usize = frame.len() - IRSDK_HEADER_SIZE;
        if map.len() < IRSDK_HEADER_SIZE || len > map.len() || offset as usize > map.len() - len {
            return Applied::OutOfBounds;
        }
        let body: Vec<u8> = self.decoder.restore(frame, is_delta);
        let buffer: &[u8] = &body[0..len];
        let header: &[u8] = &body[len..body.len()];
        assert(buffer@ =~= body@.take(len as int));
        assert(header@ =~= body@.skip(len as int));
        if !is_same_session(map, header) {
            return Applied::NoSessionInfo;
        }
        protocol::copy_at(map, offset as usize, buffer);
        protocol::copy_at(map, 0, header);
        self.decoder.accept(body);
        Applied::Partial(frame.len())
    }
}

/// What a compressed message does: it is decompressed, which fails if it is
/// malformed or its frame is longer than the map and a header, and then written.
pub open spec fn message_applied(w: WriterState, map: Seq<u8>, block: Seq<u8>, tag: u32) -> (
    WriterState,
    Seq<u8>,
    Applied,
) {
    match codec::lz4_decoded(block) {
        Some(frame) => if frame.len() > map.len() + IRSDK_HEADER_SIZE {
            (w, map, Applied::Malformed)
        } else {
            frame_applied(w, map, frame, delta::kind_of(tag))
        },
        None => (w, map, Applied::Malformed),
    }
}

/// Decompresses messages and writes them into the map.
pub struct MessageWriter {
    writer: MapWriter,
    scratch: Vec<u8>,
}

impl View for MessageWriter {
    type V = WriterState;

    closed spec fn view(&self) -> WriterState {
        self.writer@
    }
}

impl MessageWriter {
    /// A writer before any message.
    pub fn new() -> (w: MessageWriter)
        ensures
            w@ == (WriterState { last: Seq::empty(), has_session_info: false }),
    {
        MessageWriter { writer: MapWriter::new(), scratch: Vec::new() }
    }

    /// The map is gone: the next one starts without session info.
    pub fn reset(&mut self)
        ensures
            final(self)@ == (WriterState { last: Seq::empty(), has_session_info: false }),
    {
        self.writer.reset();
    }

    /// Decompresses a message and writes its frame into the map.
    pub fn apply_message(&mut self, map: &mut [u8], block: &[u8], tag: u32) -> (r: Applied)
        requires
            block@.len() <= codec::MAX_BLOCK,
            old(map)@.len() <= isize::MAX,
        ensures
            (final(self)@, final(map)@, r) == message_applied(old(self)@, old(map)@, block@, tag),
    {
        self.scratch.resize(map.len() + IRSDK_HEADER_SIZE, 0);
        match codec::decompress_frame(block, self.scratch.as_mut_slice()) {
            Some(n) => {
                assert(self.scratch@.subrange(0, n as int) =~= self.scratch@.take(n as int));
                self.writer.apply_frame(map, &self.scratch[0..n], delta::kind(tag))
            },
            None => Applied::Malformed,
        }
    }
}

// ── Laws of the map ───────────────────────────────────────────────────────────

/// A frame that is not written leaves the map and the writer as they were.
pub proof fn refused_frame_changes_nothing(
    w: WriterState,
    map: Seq<u8>,
    frame: Seq<u8>,
    kind: FrameKind,
)
    ensures
        ({
            let (after, written, applied) = frame_applied(w, map, frame, kind);
            &&& written.len() == map.len()
            &&& !applied.written() ==> after == w && written == map
        }),
{
}

/// What a source puts into a partial frame: the buffer written last, and the
/// header that names it.
pub open spec fn body_of(source_map: Seq<u8>) -> Seq<u8> {
    let (offset, len) = irsdk::frame_extent(source_map).unwrap();
    source::partial_body(
        source_map.subrange(offset, offset + len),
        source_map.take(IRSDK_HEADER_SIZE as int),
    )
}

/// The buffer written last can be sent, and has room in a map of this length.
pub open spec fn sendable(source_map: Seq<u8>, map_len: nat) -> bool {
    &&& irsdk::frame_extent(source_map) matches Some((offset, len))
    &&& delta::taggable(offset)
    &&& offset + len <= map_len
}

/// A reader of the map finds what a reader of the source's map finds: the same
/// header, and with it the same newest slot, whose buffer holds the same bytes.
pub open spec fn mirrors(map: Seq<u8>, source_map: Seq<u8>) -> bool {
    &&& irsdk::same_header(map, source_map)
    &&& irsdk::active_slot(map) == irsdk::active_slot(source_map)
    &&& irsdk::frame_extent(map) == irsdk::frame_extent(source_map)
    &&& irsdk::frame_extent(map) matches Some((offset, len)) && map.subrange(offset, offset + len)
        == source_map.subrange(offset, offset + len)
}

/// The kind of the next partial frame.
pub open spec fn partial_kind(e: delta::EncoderState, source_map: Seq<u8>, use_delta: bool) -> FrameKind {
    let offset = irsdk::frame_extent(source_map).unwrap().0 as u32;
    if e.key_due(use_delta) {
        FrameKind::Key(offset)
    } else {
        FrameKind::Delta(offset)
    }
}

proof fn lemma_body_applied(
    w: WriterState,
    map: Seq<u8>,
    frame: Seq<u8>,
    is_delta: bool,
    source_map: Seq<u8>,
)
    requires
        sendable(source_map, map.len()),
        w.has_session_info,
        same_session(map, source_map),
        frame.len() == body_of(source_map).len(),
        delta::restored(w.last, frame, is_delta) == body_of(source_map),
    ensures
        ({
            let (offset, len) = irsdk::frame_extent(source_map).unwrap();
            let (after, written, applied) = buffer_applied(w, map, frame, offset, is_delta);
            &&& applied is Partial
            &&& after == (WriterState { last: body_of(source_map), has_session_info: true })
            &&& mirrors(written, source_map)
            &&& written.len() == map.len()
            &&& forall|i: int|
                IRSDK_HEADER_SIZE <= i < map.len() && !(offset <= i < offset + len)
                    ==> #[trigger] written[i] == map[i]
        }),
{
    let (offset, len) = irsdk::frame_extent(source_map).unwrap();
    let body = body_of(source_map);
    assert(body.take(len) =~= source_map.subrange(offset, offset + len));
    assert(body.skip(len) =~= source_map.take(IRSDK_HEADER_SIZE as int));
    assert(same_session(map, body.skip(len)));
    let written = buffer_applied(w, map, frame, offset, is_delta).1;
    assert(irsdk::same_header(source_map, written));
    irsdk::header_names_the_buffer(source_map, written);
    assert(written.subrange(offset, offset + len) =~= source_map.subrange(offset, offset + len));
}

/// After a partial frame the map reads as the source's does: its header names
/// the same buffer as the newest, with the same tick and status, and that
/// buffer holds what the source read. It needs a writer that has the session
/// info and is in step with the encoder, or gets a keyframe.
pub proof fn buffer_reaches_the_map(
    e: delta::EncoderState,
    w: WriterState,
    map: Seq<u8>,
    source_map: Seq<u8>,
    use_delta: bool,
)
    requires
        sendable(source_map, map.len()),
        w.has_session_info,
        same_session(map, source_map),
        w.last == e.last || e.key_due(use_delta),
    ensures
        ({
            let body = body_of(source_map);
            let (after, written, applied) = frame_applied(
                w,
                map,
                e.frame(body, use_delta),
                partial_kind(e, source_map, use_delta),
            );
            &&& applied is Partial
            &&& mirrors(written, source_map)
            &&& status_of(written) == status_of(source_map)
            &&& after.has_session_info
            &&& after.last == e.after(body, use_delta).last
        }),
{
    let body = body_of(source_map);
    if w.last == e.last {
        delta::decoder_stays_in_step(e, w.last, body, use_delta);
    } else {
        delta::keyframe_resynchronises(e, w.last, body, use_delta);
    }
    lemma_body_applied(
        w,
        map,
        e.frame(body, use_delta),
        !e.key_due(use_delta),
        source_map,
    );
}

/// The recorder takes the buffer that the source read as its next row, if its
/// tick is ahead of the last one, the rows have its length and the header
/// counts its buffers.
pub proof fn newest_buffer_is_recorded(file: OpenIbt, map: Seq<u8>, source_map: Seq<u8>)
    requires
        mirrors(map, source_map),
        wire::i32_at(source_map, OFF_NUMBUF as int) >= 1,
        irsdk::active_slot(source_map).unwrap().0 > file.last_tick,
        file.layout.buf_len == irsdk::frame_extent(source_map).unwrap().1,
    ensures
        ({
            let (offset, len) = irsdk::frame_extent(source_map).unwrap();
            file.row_of(map) == Some(source_map.subrange(offset, offset + len))
        }),
{
    irsdk::readers_agree(source_map);
}

/// What the frames of a tick do: a session-info frame where one is due, and the
/// partial frame. Gives the encoder, the writer and the map after both, and what
/// is reported of the second.
pub open spec fn tick_applied(
    e: delta::EncoderState,
    w: WriterState,
    map: Seq<u8>,
    source_map: Seq<u8>,
    use_delta: bool,
    with_info: bool,
) -> (delta::EncoderState, WriterState, Seq<u8>, Applied) {
    let body = body_of(source_map);
    let extent = source::static_extent(source_map, source_map.len() as int);
    let (e1, w1, map1) = if with_info {
        let (w1, map1, r) = frame_applied(
            w,
            map,
            source::session_info_frame(source_map, extent),
            FrameKind::SessionInfo,
        );
        (e.cleared(), w1, map1)
    } else {
        (e, w, map)
    };
    let (after, written, applied) = frame_applied(
        w1,
        map1,
        e1.frame(body, use_delta),
        partial_kind(e1, source_map, use_delta),
    );
    (e1.after(body, use_delta), after, written, applied)
}

/// Every tick is mirrored: after what is sent for it, the map reads as the
/// source's does, and both sides are in step for the next one. With session
/// info that holds whatever was there before, and the descriptors and the YAML
/// are copied too; without, both sides must be in step and of the same session.
pub proof fn every_tick_is_mirrored(
    e: delta::EncoderState,
    w: WriterState,
    map: Seq<u8>,
    source_map: Seq<u8>,
    use_delta: bool,
    with_info: bool,
)
    requires
        source_map.len() >= IRSDK_HEADER_SIZE,
        sendable(source_map, map.len()),
        with_info ==> source::static_extent(source_map, source_map.len() as int) <= map.len(),
        !with_info ==> w.has_session_info && same_session(map, source_map) && (w.last == e.last
            || e.key_due(use_delta)),
    ensures
        ({
            let (next, after, written, applied) = tick_applied(
                e,
                w,
                map,
                source_map,
                use_delta,
                with_info,
            );
            let extent = source::static_extent(source_map, source_map.len() as int);
            &&& applied is Partial
            &&& mirrors(written, source_map)
            &&& status_of(written) == status_of(source_map)
            &&& with_info ==> written.take(extent) == source_map.take(extent)
            &&& written.len() == map.len()
            &&& after.has_session_info
            &&& after.last == next.last
            &&& same_session(written, source_map)
        }),
{
    let body = body_of(source_map);
    let extent = source::static_extent(source_map, source_map.len() as int);
    let info = source::session_info_frame(source_map, extent);
    let (e1, w1, map1) = if with_info {
        let (w1, map1, r) = frame_applied(w, map, info, FrameKind::SessionInfo);
        assert(IRSDK_HEADER_SIZE <= extent <= source_map.len());
        assert forall|i: int| 0 <= i < extent && !(4 <= i < 8) implies #[trigger] map1[i]
            == source_map[i] by {
            assert(info[i] == source_map[i]);
        }
        (e.cleared(), w1, map1)
    } else {
        (e, w, map)
    };
    buffer_reaches_the_map(e1, w1, map1, source_map, use_delta);
    if w1.last == e1.last {
        delta::decoder_stays_in_step(e1, w1.last, body, use_delta);
    } else {
        delta::keyframe_resynchronises(e1, w1.last, body, use_delta);
    }
    lemma_body_applied(
        w1,
        map1,
        e1.frame(body, use_delta),
        !e1.key_due(use_delta),
        source_map,
    );
    if with_info {
        let written = tick_applied(e, w, map, source_map, use_delta, with_info).2;
        let (offset, len) = irsdk::frame_extent(source_map).unwrap();
        assert forall|i: int| 0 <= i < extent implies written[i] == source_map[i] by {
            if offset <= i < offset + len {
                let k = i - offset;
                assert(written.subrange(offset, offset + len)[k] == source_map.subrange(
                    offset,
                    offset + len,
                )[k]);
            } else if i >= IRSDK_HEADER_SIZE {
                assert(written[i] == map1[i]);
            }
        }
        assert(written.take(extent) =~= source_map.take(extent));
    }
}

/// A session-info frame or a keyframe that is sent again changes nothing.
pub proof fn repeated_frame_changes_nothing(
    w: WriterState,
    map: Seq<u8>,
    frame: Seq<u8>,
    kind: FrameKind,
)
    requires
        kind !is Delta,
    ensures
        ({
            let (once, written, applied) = frame_applied(w, map, frame, kind);
            frame_applied(once, written, frame, kind) == (once, written, applied)
        }),
{
    let (once, written, applied) = frame_applied(w, map, frame, kind);
    let (twice, again, reply) = frame_applied(once, written, frame, kind);
    match kind {
        FrameKind::SessionInfo => {
            assert(again =~= written);
        },
        FrameKind::Key(offset) => {
            assert(again =~= written);
        },
        FrameKind::Delta(offset) => {},
    }
}

/// The encoder, the writer and the map after the frames of many ticks. `infos`
/// tells with which of them session info is sent.
pub open spec fn ticks_applied(
    e: delta::EncoderState,
    w: WriterState,
    map: Seq<u8>,
    source_maps: Seq<Seq<u8>>,
    use_delta: bool,
    infos: Seq<bool>,
) -> (delta::EncoderState, WriterState, Seq<u8>)
    decreases source_maps.len(),
{
    if source_maps.len() == 0 {
        (e, w, map)
    } else {
        let (e1, w1, map1) = ticks_applied(
            e,
            w,
            map,
            source_maps.drop_last(),
            use_delta,
            infos.drop_last(),
        );
        let (e2, w2, map2, applied) = tick_applied(
            e1,
            w1,
            map1,
            source_maps.last(),
            use_delta,
            infos.last(),
        );
        (e2, w2, map2)
    }
}

/// From the first session info on, the target's map reads as the source's after
/// every tick, as long as no frame is lost and a new session is told by session
/// info.
pub proof fn source_is_mirrored(
    e: delta::EncoderState,
    w: WriterState,
    map: Seq<u8>,
    source_maps: Seq<Seq<u8>>,
    use_delta: bool,
    infos: Seq<bool>,
)
    requires
        source_maps.len() > 0,
        infos.len() == source_maps.len(),
        infos[0],
        forall|k: int|
            #![trigger source_maps[k]]
            0 <= k < source_maps.len() ==> {
                &&& source_maps[k].len() >= IRSDK_HEADER_SIZE
                &&& sendable(source_maps[k], map.len())
                &&& infos[k] ==> source::static_extent(
                    source_maps[k],
                    source_maps[k].len() as int,
                ) <= map.len()
                &&& !infos[k] ==> same_session(source_maps[k - 1], source_maps[k])
            },
    ensures
        ({
            let (next, after, written) = ticks_applied(e, w, map, source_maps, use_delta, infos);
            &&& mirrors(written, source_maps.last())
            &&& status_of(written) == status_of(source_maps.last())
            &&& written.len() == map.len()
            &&& after.has_session_info
            &&& after.last == next.last
            &&& same_session(written, source_maps.last())
        }),
    decreases source_maps.len(),
{
    let before = source_maps.drop_last();
    let earlier = infos.drop_last();
    let last = source_maps.len() - 1;
    assert(source_maps.last() == source_maps[last]);
    let (e1, w1, map1) = ticks_applied(e, w, map, before, use_delta, earlier);
    if last > 0 {
        assert forall|k: int| #![trigger before[k]] 0 <= k < before.len() implies {
            &&& before[k] == source_maps[k]
            &&& earlier[k] == infos[k]
            &&& k > 0 ==> before[k - 1] == source_maps[k - 1]
        } by {}
        source_is_mirrored(e, w, map, before, use_delta, earlier);
        assert(before.last() == source_maps[last - 1]);
    }
    every_tick_is_mirrored(e1, w1, map1, source_maps[last], use_delta, infos[last]);
}

/// From the simulator's memory to the target's: a variable buffer that is
/// encoded, compressed, sent in fragments, put together, decompressed and
/// written can be read from the target's map as it could from the source's.
pub proof fn telemetry_crosses_the_network(
    e: delta::EncoderState,
    source_map: Seq<u8>,
    use_delta: bool,
    m: protocol::Message,
    s: ReceiverState,
    order: Seq<int>,
    w: WriterState,
    map: Seq<u8>,
)
    requires
        sendable(source_map, map.len()),
        codec::lz4_decoded(m.data) == Some(e.frame(body_of(source_map), use_delta)),
        m.buf_offset == delta::tag_of(partial_kind(e, source_map, use_delta)),
        s.wf(),
        reassembly::acceptable(m, s.max_payload),
        reassembly::is_new(m, s),
        reassembly::delivery_order(m, order),
        reassembly::all_arrived(m, order),
        w.has_session_info,
        same_session(map, source_map),
        w.last == e.last || e.key_due(use_delta),
    ensures
        ({
            let received = reassembly::run(s, reassembly::deliveries(m, order));
            let (after, written, applied) = message_applied(
                w,
                map,
                received.payload,
                received.buf_offset,
            );
            &&& applied is Partial
            &&& mirrors(written, source_map)
            &&& status_of(written) == status_of(source_map)
            &&& after.last == e.after(body_of(source_map), use_delta).last
        }),
{
    reassembly::message_is_reassembled(s, m, order);
    delta::kind_survives_the_wire(partial_kind(e, source_map, use_delta));
    buffer_reaches_the_map(e, w, map, source_map, use_delta);
}

/// The status field of a map.
pub open spec fn status_of(map: Seq<u8>) -> int {
    wire::i32_at(map, OFF_STATUS as int)
}

/// A source's session-info frames show no status, however the simulator's map
/// does.
pub proof fn session_info_shows_no_status(source_map: Seq<u8>, extent: int)
    requires
        8 <= extent <= source_map.len(),
    ensures
        status_of(source::session_info_frame(source_map, extent)) == 0,
{
}

/// What a source sends of a map, to a writer that is in step: a session-info
/// frame of its first bytes, or a partial frame.
pub open spec fn sent_by(
    source_map: Seq<u8>,
    extent: int,
    w: WriterState,
    frame: Seq<u8>,
    kind: FrameKind,
) -> bool {
    let is_delta = kind is Delta;
    match kind {
        FrameKind::SessionInfo => 8 <= extent <= source_map.len() && frame
            == source::session_info_frame(source_map, extent),
        FrameKind::Key(offset) | FrameKind::Delta(offset) => {
            &&& source_map.len() >= IRSDK_HEADER_SIZE
            &&& irsdk::frame_extent(source_map) matches Some((at, len)) && at == offset
            &&& delta::taggable(offset as int)
            &&& delta::restored(w.last, frame, is_delta) == body_of(source_map)
        },
    }
}

/// A map never shows a status without the telemetry behind it: where it shows
/// one after a frame, the frame was a partial one, and the buffer that the
/// header names as the newest is the one that the source sent with it; or the
/// frame was refused, and the map is as it was.
pub proof fn status_follows_the_telemetry(
    w: WriterState,
    map: Seq<u8>,
    source_map: Seq<u8>,
    extent: int,
    frame: Seq<u8>,
    kind: FrameKind,
)
    requires
        map.len() >= 8,
        sent_by(source_map, extent, w, frame, kind),
        status_of(frame_applied(w, map, frame, kind).1) != 0,
    ensures
        ({
            let (after, written, applied) = frame_applied(w, map, frame, kind);
            (applied is Partial && mirrors(written, source_map)) || (!applied.written() && written
                == map)
        }),
{
    let (after, written, applied) = frame_applied(w, map, frame, kind);
    if kind is SessionInfo {
        if frame.len() <= map.len() {
            assert(written[4] == frame[4] && written[5] == frame[5] && written[6] == frame[6]
                && written[7] == frame[7]);
        }
    } else if applied is Partial {
        let (offset, len) = irsdk::frame_extent(source_map).unwrap();
        assert(body_of(source_map).skip(len) =~= source_map.take(IRSDK_HEADER_SIZE as int));
        assert forall|i: int|
            0 <= i < OFF_VARBUF && !(OFF_STATUS <= i < OFF_TICKRATE) implies #[trigger] map[i]
            == source_map[i] by {
            assert(map[i] == body_of(source_map).skip(len)[i]);
        }
        lemma_body_applied(w, map, frame, kind is Delta, source_map);
    }
}

// ── Silence ───────────────────────────────────────────────────────────────────

/// What happens when no data comes in.
#[derive(Clone, Copy, Debug, PartialEq, Eq, Structural)]
pub struct StalePolicy {
    /// Silence after which the map is zeroed, if it ever is.
    pub zero_after_us: Option<u64>,
    /// Silence after which the map is closed.
    pub close_after_us: u64,
}

impl StalePolicy {
    /// The map is closed after so many seconds, and not zeroed before.
    pub fn close_after(secs: u64) -> (p: StalePolicy)
        ensures
            p == (StalePolicy {
                zero_after_us: None,
                close_after_us: if secs * 1_000_000 <= u64::MAX {
                    (secs * 1_000_000) as u64
                } else {
                    u64::MAX
                },
            }),
    {
        let close_after_us: u64 = match secs.checked_mul(1_000_000) {
            Some(us) => us,
            None => u64::MAX,
        };
        StalePolicy { zero_after_us: None, close_after_us }
    }

    /// The map is zeroed first, so that dashboards show a stopped car, and
    /// closed later.
    pub fn two_stage() -> (p: StalePolicy)
        ensures
            p == (StalePolicy {
                zero_after_us: Some(STALE_TIMEOUT_US),
                close_after_us: CLOSE_TIMEOUT_US,
            }),
            p.zero_after_us == Some(30_000_000u64),
            p.close_after_us == 60_000_000,
    {
        StalePolicy { zero_after_us: Some(STALE_TIMEOUT_US), close_after_us: CLOSE_TIMEOUT_US }
    }
}

/// What a silence asks for.
#[derive(Clone, Copy, Debug, PartialEq, Eq, Structural)]
pub struct Silence {
    /// The map is to be filled with zeros.
    pub zero_map: bool,
    /// The status field is to be cleared and the map closed.
    pub close_map: bool,
    /// Those who wait for it are to be told that the data is stale.
    pub stale: bool,
}

/// What a message that was written asks for.
#[derive(Clone, Copy, Debug, PartialEq, Eq, Structural)]
pub struct Delivery {
    /// Those who wait for it are to be told that data is there.
    pub first_data: bool,
    /// Time from the first fragment of the message to now, in microseconds.
    pub transit_us: Option<u64>,
}

/// What a running target knows of time.
#[derive(Clone, Copy)]
pub struct TargetClock {
    pub policy: StalePolicy,
    /// When a message was last written, or a heartbeat last came.
    pub last_update: u64,
    /// There is a map.
    pub map_open: bool,
    /// The map was zeroed because of the silence that lasts.
    pub zeroed: bool,
    /// It was told that data is there.
    pub announced: bool,
    /// When the message that is coming in began.
    pub seq_start: Option<u64>,
}

impl TargetClock {
    /// A clock that starts `now`, without a map.
    pub fn new(policy: StalePolicy, now: u64) -> (c: TargetClock)
        ensures
            c == (TargetClock {
                policy,
                last_update: now,
                map_open: false,
                zeroed: false,
                announced: false,
                seq_start: None,
            }),
    {
        TargetClock {
            policy,
            last_update: now,
            map_open: false,
            zeroed: false,
            announced: false,
            seq_start: None,
        }
    }

    /// What the silence up to `now` asks for. The staleness is told when the
    /// map is zeroed, or else when it is closed.
    pub open spec fn silence(self, now: u64) -> Silence {
        let lasted = source::elapsed(now, self.last_update);
        let close_map = self.map_open && lasted >= self.policy.close_after_us;
        let zero_map = self.map_open && !close_map && !self.zeroed
            && self.policy.zero_after_us is Some && lasted >= self.policy.zero_after_us.unwrap();
        Silence { zero_map, close_map, stale: zero_map || (close_map && !self.zeroed) }
    }

    /// The clock once that is done.
    pub open spec fn after_silence(self, now: u64) -> TargetClock {
        let s = self.silence(now);
        TargetClock {
            map_open: self.map_open && !s.close_map,
            zeroed: (self.zeroed || s.zero_map) && !s.close_map,
            announced: self.announced && !s.zero_map && !s.close_map,
            ..self
        }
    }

    /// Nothing came in for a while.
    pub fn on_silence(&mut self, now: u64) -> (s: Silence)
        ensures
            s == old(self).silence(now),
            *final(self) == old(self).after_silence(now),
    {
        let silence: u64 = source::elapsed_us(now, self.last_update);
        let close_map: bool = self.map_open && silence >= self.policy.close_after_us;
        let zero_due: bool = match self.policy.zero_after_us {
            Some(us) => silence >= us,
            None => false,
        };
        let zero_map: bool = self.map_open && !close_map && !self.zeroed && zero_due;
        let stale: bool = zero_map || (close_map && !self.zeroed);
        if close_map {
            self.map_open = false;
            self.zeroed = false;
            self.announced = false;
        } else if zero_map {
            self.zeroed = true;
            self.announced = false;
        }
        Silence { zero_map, close_map, stale }
    }

    /// A message was written.
    pub fn on_written(&mut self, now: u64) -> (d: Delivery)
        ensures
            d.first_data == !old(self).announced,
            d.transit_us == match old(self).seq_start {
                Some(start) => Some(source::elapsed(now, start) as u64),
                None => None,
            },
            *final(self) == (TargetClock {
                last_update: now,
                zeroed: false,
                announced: true,
                seq_start: None,
                ..*old(self)
            }),
    {
        let first_data: bool = !self.announced;
        let transit_us: Option<u64> = match self.seq_start {
            Some(start) => Some(source::elapsed_us(now, start)),
            None => None,
        };
        self.last_update = now;
        self.zeroed = false;
        self.announced = true;
        self.seq_start = None;
        Delivery { first_data, transit_us }
    }
}

/// Once the staleness was told, it is not told again until data comes in.
pub proof fn staleness_is_told_once(clock: TargetClock, now: u64, later: u64)
    requires
        clock.silence(now).stale,
    ensures
        !clock.after_silence(now).silence(later).stale,
{
}

/// A map is never closed before the policy's time, and always once it has
/// passed.
pub proof fn map_is_closed_in_time(clock: TargetClock, now: u64)
    requires
        clock.map_open,
    ensures
        clock.after_silence(now).map_open <==> source::elapsed(now, clock.last_update)
            < clock.policy.close_after_us,
{
}

// ── Session ───────────────────────────────────────────────────────────────────

/// What a datagram asks for.
#[derive(Clone, Copy, Debug, PartialEq, Eq, Structural)]
pub struct Arrival {
    /// A message is complete and is to be written into the map.
    pub message: bool,
    /// There is no map yet: one is to be created first.
    pub create_map: bool,
    /// The datagram was a heartbeat.
    pub heartbeat: bool,
}

/// What writing a message led to.
#[derive(Clone, Copy, Debug, PartialEq, Eq, Structural)]
pub struct Written {
    pub applied: Applied,
    /// The source is to be asked for a session-info frame.
    pub resync: bool,
    /// Those who wait for it are to be told that data is there.
    pub first_data: bool,
    /// Time from the first fragment of the message to now, in microseconds.
    pub transit_us: Option<u64>,
}

/// What a running target is.
pub struct TargetState {
    pub receiver: ReceiverState,
    pub writer: WriterState,
    pub clock: TargetClock,
}

/// A running target, from the datagrams to the map.
pub struct TargetSession {
    receiver: Receiver,
    writer: MessageWriter,
    clock: TargetClock,
}

impl View for TargetSession {
    type V = TargetState;

    closed spec fn view(&self) -> TargetState {
        TargetState { receiver: self.receiver@, writer: self.writer@, clock: self.clock }
    }
}

impl TargetSession {
    pub closed spec fn inv(&self) -> bool {
        self.receiver.wf()
    }

    /// The receiver is well-formed and its messages are short enough to be
    /// decompressed.
    pub open spec fn wf(&self) -> bool {
        &&& self.inv()
        &&& self@.receiver.wf()
        &&& self@.receiver.max_payload <= codec::MAX_BLOCK
    }

    /// A target for messages of up to `max_payload` bytes.
    pub fn new(policy: StalePolicy, max_payload: usize, now: u64) -> (t: TargetSession)
        requires
            max_payload <= codec::MAX_BLOCK,
        ensures
            t.wf(),
            t@.receiver == ReceiverState::initial(max_payload as nat),
            t@.writer == (WriterState { last: Seq::empty(), has_session_info: false }),
            t@.clock == (TargetClock {
                policy,
                last_update: now,
                map_open: false,
                zeroed: false,
                announced: false,
                seq_start: None,
            }),
    {
        TargetSession {
            receiver: Receiver::new(max_payload),
            writer: MessageWriter::new(),
            clock: TargetClock::new(policy, now),
        }
    }

    /// A datagram came in. A heartbeat keeps the map open; the first fragment
    /// of a message starts its clock.
    pub fn on_datagram(&mut self, datagram: &[u8], now: u64) -> (a: Arrival)
        requires
            old(self).wf(),
        ensures
            final(self).wf(),
            ({
                let (receiver, outcome) = old(self)@.receiver.step(datagram@);
                &&& final(self)@.receiver == receiver
                &&& final(self)@.writer == old(self)@.writer
                &&& a.message == outcome.assembled is Some
                &&& a.create_map == (a.message && !old(self)@.clock.map_open)
                &&& a.heartbeat == outcome.heartbeat
                &&& final(self)@.clock == (TargetClock {
                    seq_start: if outcome.new_seq {
                        Some(now)
                    } else {
                        old(self)@.clock.seq_start
                    },
                    last_update: if outcome.heartbeat {
                        now
                    } else {
                        old(self)@.clock.last_update
                    },
                    ..old(self)@.clock
                })
            }),
    {
        let ingested = self.receiver.ingest(datagram);
        let message: bool = ingested.assembled.is_some();
        let new_seq: bool = ingested.new_seq;
        let heartbeat: bool = ingested.heartbeat;
        if new_seq {
            self.clock.seq_start = Some(now);
        }
        if heartbeat {
            self.clock.last_update = now;
        }
        Arrival { message, create_map: message && !self.clock.map_open, heartbeat }
    }

    /// A map was created. It holds nothing yet.
    pub fn map_created(&mut self)
        requires
            old(self).wf(),
        ensures
            final(self).wf(),
            final(self)@.receiver == old(self)@.receiver,
            final(self)@.writer == (WriterState { last: Seq::empty(), has_session_info: false }),
            final(self)@.clock == (TargetClock {
                map_open: true,
                zeroed: false,
                announced: false,
                ..old(self)@.clock
            }),
    {
        self.writer.reset();
        self.clock.map_open = true;
        self.clock.zeroed = false;
        self.clock.announced = false;
    }

    /// Writes the message that is complete into the map.
    pub fn write(&mut self, map: &mut [u8], now: u64) -> (r: Written)
        requires
            old(self).wf(),
            old(map)@.len() <= isize::MAX,
        ensures
            final(self).wf(),
            final(self)@.receiver == old(self)@.receiver,
            ({
                let state = old(self)@.receiver;
                let (writer, written, applied) = message_applied(
                    old(self)@.writer,
                    old(map)@,
                    state.payload,
                    state.buf_offset,
                );
                &&& final(self)@.writer == writer
                &&& final(map)@ == written
                &&& r.applied == applied
                &&& r.resync == applied.wants_resync()
                &&& r.resync == (r.applied is OutOfBounds || r.applied is NoSessionInfo)
                &&& r.first_data == (applied.written() && !old(self)@.clock.announced)
                &&& r.transit_us == match old(self)@.clock.seq_start {
                    Some(start) if applied.written() => Some(source::elapsed(now, start) as u64),
                    _ => None,
                }
                &&& final(self)@.clock == if applied.written() {
                    TargetClock {
                        last_update: now,
                        zeroed: false,
                        announced: true,
                        seq_start: None,
                        ..old(self)@.clock
                    }
                } else {
                    old(self)@.clock
                }
            }),
    {
        let tag: u32 = self.receiver.last_buf_offset();
        let applied = self.writer.apply_message(map, self.receiver.payload(), tag);
        match applied {
            Applied::SessionInfo(_) | Applied::Partial(_) => {
                let d = self.clock.on_written(now);
                Written {
                    applied,
                    resync: false,
                    first_data: d.first_data,
                    transit_us: d.transit_us,
                }
            },
            Applied::Malformed => {
                Written { applied, resync: false, first_data: false, transit_us: None }
            },
            Applied::OutOfBounds | Applied::NoSessionInfo => {
                Written { applied, resync: true, first_data: false, transit_us: None }
            },
        }
    }

    /// Nothing came in for a while.
    pub fn on_silence(&mut self, now: u64) -> (s: Silence)
        requires
            old(self).wf(),
        ensures
            final(self).wf(),
            final(self)@.receiver == old(self)@.receiver,
            ({
                let clock = old(self)@.clock;
                &&& s == clock.silence(now)
                &&& final(self)@.clock == clock.after_silence(now)
                &&& final(self)@.writer == if s.zero_map || s.close_map {
                    WriterState { last: Seq::empty(), has_session_info: false }
                } else {
                    old(self)@.writer
                }
            }),
    {
        let s = self.clock.on_silence(now);
        if s.zero_map || s.close_map {
            self.writer.reset();
        }
        s
    }

    /// Source-side time of the newest message, in microseconds.
    pub fn source_us(&self) -> (v: u64)
        ensures
            v == self@.receiver.source_us,
    {
        self.receiver.last_source_us()
    }

    /// Tells whether the newest message is a delta frame.
    pub fn last_was_delta(&self) -> (r: bool)
        ensures
            r == (delta::kind_of(self@.receiver.buf_offset) is Delta),
    {
        match delta::kind(self.receiver.last_buf_offset()) {
            FrameKind::Delta(_) => true,
            _ => false,
        }
    }

    /// Length of the newest message.
    pub fn message_len(&self) -> (n: usize)
        ensures
            n == self@.receiver.payload.len(),
    {
        self.receiver.payload().len()
    }

    /// Fragments of the newest message.
    pub fn fragment_count(&self) -> (n: u16)
        ensures
            n == self@.receiver.fragment_count,
    {
        self.receiver.last_fragment_count()
    }

    /// Messages given up so far.
    pub fn dropped(&self) -> (n: u64)
        ensures
            n == self@.receiver.dropped,
    {
        self.receiver.dropped_sequences()
    }
}

/// Fills the map with zeros, so that dashboards show a stopped car.
pub fn zero_map(map: &mut [u8])
    ensures
        final(map)@ == Seq::new(old(map)@.len(), |i: int| 0u8),
{
    let n: usize = map.len();
    let mut i: usize = 0;
    while i < n
        invariant
            i <= n,
            n == map@.len(),
            n == old(map)@.len(),
            forall|j: int| 0 <= j < i ==> map@[j] == 0,
        decreases n - i,
    {
        map[i] = 0;
        i = i + 1;
    }
    assert(map@ =~= Seq::new(old(map)@.len(), |i: int| 0u8));
}

// ── Laws of messages ──────────────────────────────────────────────────────────

/// A session-info message whose frame has room in the map is written, whatever
/// the writer knew before: the map then starts with the frame, and keeps what
/// lies behind it, and partial frames can follow.
pub proof fn session_info_message_is_written(
    w: WriterState,
    map: Seq<u8>,
    block: Seq<u8>,
    frame: Seq<u8>,
)
    requires
        codec::lz4_decoded(block) == Some(frame),
        frame.len() <= map.len() <= usize::MAX,
    ensures
        ({
            let (after, written, applied) = message_applied(w, map, block, 0xffff_ffff);
            &&& applied == Applied::SessionInfo(frame.len() as usize)
            &&& written.len() == map.len()
            &&& written.take(frame.len() as int) == frame
            &&& written.skip(frame.len() as int) == map.skip(frame.len() as int)
            &&& after.has_session_info
            &&& after.last.len() == 0
        }),
{
    let written = message_applied(w, map, block, 0xffff_ffff).1;
    assert(written.take(frame.len() as int) =~= frame);
    assert(written.skip(frame.len() as int) =~= map.skip(frame.len() as int));
}

/// A session-info message whose frame has no room leaves the map and the writer
/// as they were.
pub proof fn long_session_info_is_refused(
    w: WriterState,
    map: Seq<u8>,
    block: Seq<u8>,
    frame: Seq<u8>,
)
    requires
        codec::lz4_decoded(block) == Some(frame),
        frame.len() > map.len(),
    ensures
        ({
            let (after, written, applied) = message_applied(w, map, block, 0xffff_ffff);
            &&& applied is OutOfBounds || applied is Malformed
            &&& written == map
            &&& after == w
        }),
{
}

/// A message that cannot be decompressed is reported, and changes nothing.
pub proof fn malformed_message_changes_nothing(
    w: WriterState,
    map: Seq<u8>,
    block: Seq<u8>,
    tag: u32,
)
    requires
        codec::lz4_decoded(block) is None,
    ensures
        message_applied(w, map, block, tag) == (w, map, Applied::Malformed),
{
}

/// The bytes of a partial frame: those of the frame itself, or each with the
/// byte before where the frame is a delta.
pub open spec fn is_body(body: Seq<u8>, w: WriterState, frame: Seq<u8>, is_delta: bool) -> bool {
    &&& body.len() == frame.len()
    &&& forall|i: int|
        0 <= i < frame.len() ==> #[trigger] body[i] == if is_delta {
            frame[i] ^ if i < w.last.len() {
                w.last[i]
            } else {
                0u8
            }
        } else {
            frame[i]
        }
}

proof fn lemma_body(w: WriterState, frame: Seq<u8>, is_delta: bool, body: Seq<u8>)
    requires
        is_body(body, w, frame, is_delta),
    ensures
        delta::restored(w.last, frame, is_delta) == body,
{
    let r = delta::restored(w.last, frame, is_delta);
    assert forall|i: int| 0 <= i < frame.len() implies #[trigger] r[i] == body[i] by {
        delta::frames_are_restored_byte_by_byte(w.last, frame, is_delta, i);
    }
    if frame.len() > 0 {
        delta::frames_are_restored_byte_by_byte(w.last, frame, is_delta, 0);
    }
    assert(r =~= body);
}

/// A partial message is written where its buffer has room and its header, the
/// last 112 bytes, is of the map's session: the buffer stands at the offset that
/// the message names, the header stands at the start, and all else is as it was.
pub proof fn partial_message_is_written(
    w: WriterState,
    map: Seq<u8>,
    block: Seq<u8>,
    tag: u32,
    frame: Seq<u8>,
    body: Seq<u8>,
)
    requires
        codec::lz4_decoded(block) == Some(frame),
        tag != 0xffff_ffff,
        w.has_session_info,
        112 <= frame.len() <= usize::MAX,
        112 <= map.len(),
        (tag & 0x7fff_ffff) + frame.len() - 112 <= map.len(),
        is_body(body, w, frame, tag & 0x8000_0000 != 0),
        forall|i: int|
            0 <= i < 48 && (i < 4 || i >= 8) ==> #[trigger] map[i] == body[frame.len() - 112 + i],
    ensures
        ({
            let offset = (tag & 0x7fff_ffff) as int;
            let len = frame.len() - 112;
            let (after, written, applied) = message_applied(w, map, block, tag);
            &&& applied == Applied::Partial(frame.len() as usize)
            &&& written.len() == map.len()
            &&& written.take(112) == body.skip(len)
            &&& forall|i: int|
                112 <= i < map.len() ==> #[trigger] written[i] == if offset <= i < offset + len {
                    body[i - offset]
                } else {
                    map[i]
                }
            &&& after.has_session_info
            &&& after.last == body
        }),
{
    let len = frame.len() - 112;
    let is_delta = tag & 0x8000_0000 != 0;
    assert(tag & 0x8000_0000 == 0 ==> tag < 0x8000_0000 && tag & 0x7fff_ffff == tag) by (bit_vector);
    assert(tag & 0x8000_0000 != 0 ==> tag >= 0x8000_0000 && tag & 0x7fff_ffff == tag
        - 0x8000_0000) by (bit_vector);
    lemma_body(w, frame, is_delta, body);
    let header = body.skip(len);
    assert forall|i: int|
        0 <= i < OFF_VARBUF && !(OFF_STATUS <= i < OFF_TICKRATE) implies #[trigger] map[i]
        == header[i] by {
        assert(header[i] == body[len + i]);
    }
    assert(same_session(map, header));
    let written = message_applied(w, map, block, tag).1;
    assert(written.take(112) =~= header);
}

/// A partial message that finds no session info, or whose header is of another
/// session than the map, asks for it and changes nothing. `i` is a byte in which
/// the headers differ.
pub proof fn partial_message_needs_its_session(
    w: WriterState,
    map: Seq<u8>,
    block: Seq<u8>,
    tag: u32,
    frame: Seq<u8>,
    body: Seq<u8>,
    i: int,
)
    requires
        codec::lz4_decoded(block) == Some(frame),
        tag != 0xffff_ffff,
        112 <= frame.len(),
        112 <= map.len(),
        (tag & 0x7fff_ffff) + frame.len() - 112 <= map.len(),
        is_body(body, w, frame, tag & 0x8000_0000 != 0),
        !w.has_session_info || (0 <= i < 48 && (i < 4 || i >= 8) && map[i] != body[frame.len() - 112
            + i]),
    ensures
        message_applied(w, map, block, tag) == (w, map, Applied::NoSessionInfo),
{
    let len = frame.len() - 112;
    let is_delta = tag & 0x8000_0000 != 0;
    assert(tag & 0x8000_0000 == 0 ==> tag < 0x8000_0000 && tag & 0x7fff_ffff == tag) by (bit_vector);
    assert(tag & 0x8000_0000 != 0 ==> tag >= 0x8000_0000 && tag & 0x7fff_ffff == tag
        - 0x8000_0000) by (bit_vector);
    lemma_body(w, frame, is_delta, body);
    if w.has_session_info {
        assert(body.skip(len)[i] == body[len + i]);
        assert(!same_session(map, body.skip(len)));
    }
}

/// A partial message whose buffer reaches past the end of the map changes
/// nothing.
pub proof fn partial_message_needs_room(
    w: WriterState,
    map: Seq<u8>,
    block: Seq<u8>,
    tag: u32,
    frame: Seq<u8>,
)
    requires
        codec::lz4_decoded(block) == Some(frame),
        tag != 0xffff_ffff,
        (tag & 0x7fff_ffff) + frame.len() - 112 > map.len(),
    ensures
        ({
            let (after, written, applied) = message_applied(w, map, block, tag);
            &&& !(applied is SessionInfo) && !(applied is Partial)
            &&& written == map
            &&& after == w
        }),
{
    assert(tag & 0x8000_0000 == 0 ==> tag < 0x8000_0000 && tag & 0x7fff_ffff == tag) by (bit_vector);
    assert(tag & 0x8000_0000 != 0 ==> tag >= 0x8000_0000 && tag & 0x7fff_ffff == tag
        - 0x8000_0000) by (bit_vector);
}

/// Session info crosses the network: what a source compresses and sends of its
/// map, in fragments that arrive in any order, stands at the start of the
/// target's map, byte for byte but for the status, which is 0.
pub proof fn session_info_crosses_the_network(
    source_map: Seq<u8>,
    extent: int,
    m: protocol::Message,
    s: ReceiverState,
    order: Seq<int>,
    w: WriterState,
    map: Seq<u8>,
)
    requires
        8 <= extent <= source_map.len(),
        extent <= map.len() <= usize::MAX,
        codec::lz4_decoded(m.data) == Some(source::session_info_frame(source_map, extent)),
        m.buf_offset == 0xffff_ffff,
        s.wf(),
        reassembly::acceptable(m, s.max_payload),
        reassembly::is_new(m, s),
        reassembly::delivery_order(m, order),
        reassembly::all_arrived(m, order),
    ensures
        ({
            let received = reassembly::run(s, reassembly::deliveries(m, order));
            let (after, written, applied) = message_applied(
                w,
                map,
                received.payload,
                received.buf_offset,
            );
            &&& applied == Applied::SessionInfo(extent as usize)
            &&& written.len() == map.len()
            &&& wire::i32_at(written, 4) == 0
            &&& forall|i: int|
                0 <= i < extent && (i < 4 || i >= 8) ==> #[trigger] written[i] == source_map[i]
            &&& forall|i: int| extent <= i < map.len() ==> #[trigger] written[i] == map[i]
            &&& after.has_session_info
        }),
{
    reassembly::message_is_reassembled(s, m, order);
    let frame = source::session_info_frame(source_map, extent);
    session_info_message_is_written(w, map, m.data, frame);
    source::session_info_copies_the_map(source_map, extent);
    let written = message_applied(w, map, m.data, 0xffff_ffff).1;
    assert forall|i: int| 0 <= i < extent implies written[i] == frame[i] by {
        assert(written.take(extent)[i] == frame[i]);
    }
    assert forall|i: int| extent <= i < map.len() implies #[trigger] written[i] == map[i] by {
        assert(written.skip(extent)[i - extent] == map.skip(extent)[i - extent]);
    }
}

/// After a tick with session info the target has the whole session YAML and all
/// descriptors, where the header says that they lie.
pub proof fn session_yaml_reaches_the_map(
    e: delta::EncoderState,
    w: WriterState,
    map: Seq<u8>,
    source_map: Seq<u8>,
    use_delta: bool,
)
    requires
        source_map.len() >= 112,
        source_map.len() <= map.len(),
        sendable(source_map, map.len()),
        ({
            let vh_off = wire::i32_at(source_map, 28);
            let num_vars = wire::i32_at(source_map, 24);
            let si_off = wire::i32_at(source_map, 20);
            let si_len = wire::i32_at(source_map, 16);
            &&& vh_off >= 0 && num_vars >= 0 && vh_off + 144 * num_vars <= source_map.len()
            &&& si_off >= 0 && si_len >= 0 && si_off + si_len <= source_map.len()
        }),
    ensures
        ({
            let vh_off = wire::i32_at(source_map, 28);
            let vh_end = vh_off + 144 * wire::i32_at(source_map, 24);
            let si_off = wire::i32_at(source_map, 20);
            let si_end = si_off + wire::i32_at(source_map, 16);
            let written = tick_applied(e, w, map, source_map, use_delta, true).2;
            &&& written.take(112) == source_map.take(112)
            &&& written.subrange(vh_off, vh_end) == source_map.subrange(vh_off, vh_end)
            &&& written.subrange(si_off, si_end) == source_map.subrange(si_off, si_end)
        }),
{
    let n = source_map.len() as int;
    let extent = source::static_extent(source_map, n);
    source::session_info_is_whole(source_map, n);
    every_tick_is_mirrored(e, w, map, source_map, use_delta, true);
    let written = tick_applied(e, w, map, source_map, use_delta, true).2;
    assert forall|i: int| 0 <= i < extent implies written[i] == source_map[i] by {
        assert(written.take(extent)[i] == source_map.take(extent)[i]);
    }
    let vh_off = wire::i32_at(source_map, 28);
    let vh_end = vh_off + 144 * wire::i32_at(source_map, 24);
    let si_off = wire::i32_at(source_map, 20);
    let si_end = si_off + wire::i32_at(source_map, 16);
    assert(written.take(112) =~= source_map.take(112));
    assert(written.subrange(vh_off, vh_end) =~= source_map.subrange(vh_off, vh_end));
    assert(written.subrange(si_off, si_end) =~= source_map.subrange(si_off, si_end));
}

// ── Laws of silence ───────────────────────────────────────────────────────────

/// What a silence asks for, by how long it has lasted: nothing without a map; to
/// close the map once its time has come; to zero it once, in between, where that
/// is wanted. Those who wait are told with the first of these.
pub proof fn silence_asks_in_time(clock: TargetClock, now: u64)
    requires
        now >= clock.last_update,
    ensures
        ({
            let lasted = now - clock.last_update;
            let s = clock.silence(now);
            let next = clock.after_silence(now);
            &&& !clock.map_open ==> !s.close_map && !s.zero_map && !s.stale
            &&& clock.map_open && lasted >= clock.policy.close_after_us ==> s.close_map
                && !s.zero_map
            &&& lasted < clock.policy.close_after_us ==> !s.close_map
            &&& s.zero_map ==> clock.map_open && !clock.zeroed && !s.close_map
            &&& clock.policy.zero_after_us is None ==> !s.zero_map
            &&& clock.policy.zero_after_us matches Some(us) ==> (lasted < us ==> !s.zero_map) && (
            clock.map_open && !clock.zeroed && us <= lasted < clock.policy.close_after_us
                ==> s.zero_map)
            &&& s.stale <==> s.zero_map || (s.close_map && !clock.zeroed)
            &&& next.map_open == (clock.map_open && !s.close_map)
            &&& next.last_update == clock.last_update
            &&& s.zero_map ==> next.zeroed
            &&& s.zero_map || s.close_map ==> !next.announced
            &&& !s.zero_map && !s.close_map ==> next == clock
        }),
{
}

/// A frame counts as written where session info or a buffer was, and calls for
/// session info where it was missing or did not fit.
pub proof fn reports_are_told_apart(applied: Applied, n: usize)
    ensures
        Applied::SessionInfo(n).written() && Applied::Partial(n).written(),
        !Applied::Malformed.written() && !Applied::OutOfBounds.written()
            && !Applied::NoSessionInfo.written(),
        applied.wants_resync() <==> applied == Applied::OutOfBounds || applied
            == Applied::NoSessionInfo,
{
}

} // verus!
