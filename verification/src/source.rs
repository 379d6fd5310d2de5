//! The sending side: when a frame goes out, and what is in it.
//!
//! Nothing here waits, reads a clock or touches a socket. The program around
//! it polls the simulator, hands in what it saw and at what time, and does
//! what comes back. Times are microseconds since the program started.

use vstd::prelude::*;

use crate::delta::{DeltaEncoder, EncoderState, FrameKind};
use crate::irsdk::{
    IRSDK_HEADER_SIZE, OFF_NUMVARS, OFF_SESSIONINFOLEN, OFF_SESSIONINFOOFFSET,
    OFF_SESSIONINFOUPDATE, OFF_VARHEADEROFFSET, VARHEADER_SIZE,
};
use crate::codec;
use crate::delta;
use crate::irsdk;
use crate::wire;

verus! {

/// Seconds without telemetry before the source reconnects, unless set
/// otherwise.
pub const DEFAULT_RECONNECT_TIMEOUT_SECS: u64 = 10;

/// Bytes per datagram, unless set otherwise.
pub const DEFAULT_DATAGRAM_SIZE: usize = 9_000;

/// Partial frames from one keyframe to the next, unless set otherwise.
pub const DEFAULT_KEYFRAME_INTERVAL: u16 = 60;

/// How long one wait for the simulator's event may take, in milliseconds.
pub const POLL_INTERVAL_MS: u32 = 250;

/// Something is sent at least this often, so that the target keeps its map.
pub const KEEPALIVE_AFTER_US: u64 = 1_000_000;

/// A gap of this length is worth a line in the log.
pub const GAP_LOG_THRESHOLD_US: u64 = 1_000_000;

/// A session-info frame is sent at least this often.
pub const SESSION_INFO_INTERVAL_US: u64 = 10_000_000;

/// Seconds between two attempts to find the simulator.
pub const RETRY_AFTER_SECS: u64 = 5;

// ── Resync packets ────────────────────────────────────────────────────────────

/// First byte of a packet that asks for a session-info frame.
pub const RESYNC_FLAG: u8 = 1;

/// Capability bit of a target that understands delta frames.
pub const CAP_DELTA: u8 = 1;

/// What a target asks for and can do.
#[derive(Clone, Copy, Debug, PartialEq, Eq, Structural)]
pub struct Resync {
    /// The target understands delta frames.
    pub delta_capable: bool,
}

/// The request that a packet holds. A packet of one byte comes from a target
/// that knows no delta frames.
pub open spec fn resync_of(packet: Seq<u8>) -> Option<Resync> {
    if packet.len() == 0 || packet[0] != RESYNC_FLAG {
        None
    } else {
        Some(Resync { delta_capable: packet.len() >= 2 && packet[1] % 2 == 1 })
    }
}

/// The packet of a request.
pub open spec fn resync_bytes(r: Resync) -> Seq<u8> {
    seq![
        RESYNC_FLAG,
        if r.delta_capable {
            CAP_DELTA
        } else {
            0
        },
    ]
}

impl Resync {
    /// Reads a packet that came from a target.
    pub fn parse(packet: &[u8]) -> (r: Option<Resync>)
        ensures
            r == resync_of(packet@),
    {
        if packet.len() == 0 || packet[0] != RESYNC_FLAG {
            return None;
        }
        Some(Resync { delta_capable: packet.len() >= 2 && packet[1] % 2 == 1 })
    }

    /// The packet to send to a source.
    pub fn packet(&self) -> (p: Vec<u8>)
        ensures
            p@ == resync_bytes(*self),
    {
        let mut p: Vec<u8> = Vec::new();
        p.push(RESYNC_FLAG);
        p.push(
            if self.delta_capable {
                CAP_DELTA
            } else {
                0
            },
        );
        assert(p@ =~= resync_bytes(*self));
        p
    }
}

/// A source reads from a packet what the target put there.
pub proof fn resync_round_trip(r: Resync)
    ensures
        resync_of(resync_bytes(r)) == Some(r),
{
}

// ── Session ───────────────────────────────────────────────────────────────────

/// The time from `since` to `now`, and 0 if the clock went back.
pub open spec fn elapsed(now: u64, since: u64) -> int {
    if now > since {
        now - since
    } else {
        0
    }
}

/// The time from `since` to `now`, and 0 if the clock went back.
pub fn elapsed_us(now: u64, since: u64) -> (t: u64)
    ensures
        t == elapsed(now, since),
{
    if now > since {
        now - since
    } else {
        0
    }
}

/// How a target is kept waiting.
#[derive(Clone, Copy, Debug, PartialEq, Eq, Structural)]
pub enum Keepalive {
    /// The last frame is sent once more.
    Resend,
    /// A heartbeat is sent: there is no last frame, or it was a delta frame,
    /// which must not be applied twice.
    Heartbeat,
}

/// What one poll of the simulator asks for.
#[derive(Clone, Copy)]
pub struct Poll {
    /// A frame is to be made and sent.
    pub frame: bool,
    /// A gap that just ended, in microseconds, if it is worth a log line.
    pub gap_us: Option<u64>,
    /// Something is to be sent to keep the target's map open.
    pub keepalive: Option<Keepalive>,
    /// The simulator is gone: it is to be opened anew.
    pub reconnect: bool,
}

/// What is sent for a tick.
#[derive(Clone, Copy, Debug, PartialEq, Eq)]
pub struct Plan {
    /// First a session-info frame of so many bytes from the start of the map.
    pub session_info: Option<usize>,
    /// Then a partial frame with the buffer at this offset, of this length.
    pub partial: Option<(usize, usize)>,
}

/// The state of a running source.
#[derive(Clone, Copy)]
pub struct SourceSession {
    /// Silence after which the simulator counts as gone.
    pub reconnect_after_us: u64,
    /// Delta frames are switched off.
    pub no_delta: bool,
    /// When the simulator last showed a sign of life.
    pub last_data: u64,
    /// The tick count seen last.
    pub last_tick: i32,
    /// When anything was last sent.
    pub last_sent: u64,
    /// The last frame may be sent again.
    pub can_resend: bool,
    /// The target understands delta frames.
    pub delta_capable: bool,
    /// The target waits for a session-info frame.
    pub resync_pending: bool,
    /// The session that the last session-info frame was of, and when it was
    /// sent.
    pub session_info: Option<(i32, u64)>,
}

/// The end of the static part of a map of `map_len` bytes with this header:
/// header, descriptors and session YAML. The whole map where the header does
/// not say.
pub open spec fn static_extent(header: Seq<u8>, map_len: int) -> int {
    let vh_off = wire::i32_at(header, OFF_VARHEADEROFFSET as int);
    let num_vars = wire::i32_at(header, OFF_NUMVARS as int);
    let si_off = wire::i32_at(header, OFF_SESSIONINFOOFFSET as int);
    let si_len = wire::i32_at(header, OFF_SESSIONINFOLEN as int);
    let vh_end = vh_off + num_vars * VARHEADER_SIZE;
    let si_end = si_off + si_len;
    if header.len() < IRSDK_HEADER_SIZE || map_len < IRSDK_HEADER_SIZE || vh_off < 0 || num_vars < 0
        || si_off < 0 || si_len < 0 || vh_end > map_len || si_end > map_len {
        map_len
    } else if vh_end >= si_end && vh_end >= IRSDK_HEADER_SIZE {
        vh_end
    } else if si_end >= IRSDK_HEADER_SIZE {
        si_end
    } else {
        IRSDK_HEADER_SIZE as int
    }
}

/// Finds the end of the static part of a map of `map_len` bytes.
pub fn session_info_extent(header: &[u8], map_len: usize) -> (n: usize)
    ensures
        n == static_extent(header@, map_len as int),
        n <= map_len,
{
    if header.len() < IRSDK_HEADER_SIZE || map_len < IRSDK_HEADER_SIZE {
        return map_len;
    }
    let vh_off: i32 = wire::rd_i32(header, OFF_VARHEADEROFFSET);
    let num_vars: i32 = wire::rd_i32(header, OFF_NUMVARS);
    let si_off: i32 = wire::rd_i32(header, OFF_SESSIONINFOOFFSET);
    let si_len: i32 = wire::rd_i32(header, OFF_SESSIONINFOLEN);
    if vh_off < 0 || num_vars < 0 || si_off < 0 || si_len < 0 {
        return map_len;
    }
    let vh_end: u64 = vh_off as u64 + num_vars as u64 * VARHEADER_SIZE as u64;
    let si_end: u64 = si_off as u64 + si_len as u64;
    if vh_end > map_len as u64 || si_end > map_len as u64 {
        return map_len;
    }
    if vh_end >= si_end && vh_end >= IRSDK_HEADER_SIZE as u64 {
        vh_end as usize
    } else if si_end >= IRSDK_HEADER_SIZE as u64 {
        si_end as usize
    } else {
        IRSDK_HEADER_SIZE
    }
}

/// The buffer that a partial frame is made of: the one written last, if its
/// offset leaves room for the delta flag.
pub open spec fn sendable_buffer(header: Seq<u8>, map_len: int) -> Option<(int, int)> {
    match irsdk::extent_in(header, map_len) {
        Some((offset, len)) => if delta::taggable(offset) {
            Some((offset, len))
        } else {
            None
        },
        None => None,
    }
}

impl SourceSession {
    /// The session that a map is of: the count of its session changes, and 0
    /// if it has no header.
    pub open spec fn session_of(header: Seq<u8>) -> int {
        if header.len() < IRSDK_HEADER_SIZE {
            0
        } else {
            wire::i32_at(header, OFF_SESSIONINFOUPDATE as int)
        }
    }

    /// A session-info frame is due: none was sent yet, the session changed,
    /// the target asked for one, or the last one is old. It also stands in
    /// for a partial frame where the map has no buffer to send.
    pub open spec fn session_info_due(self, header: Seq<u8>, map_len: int, now: u64) -> bool {
        ||| self.resync_pending
        ||| match self.session_info {
            Some((session, at)) => session != SourceSession::session_of(header) || elapsed(now, at)
                >= SESSION_INFO_INTERVAL_US,
            None => true,
        }
        ||| sendable_buffer(header, map_len) is None
    }

    /// Partial frames go out as deltas.
    pub open spec fn uses_delta(self) -> bool {
        self.delta_capable && !self.no_delta
    }

    /// A session that begins `now`, when the tick count was `tick`.
    pub fn new(reconnect_timeout_secs: u64, no_delta: bool, tick: i32, now: u64) -> (s:
        SourceSession)
        ensures
            s == (SourceSession {
                reconnect_after_us: if reconnect_timeout_secs * 1_000_000 <= u64::MAX {
                    (reconnect_timeout_secs * 1_000_000) as u64
                } else {
                    u64::MAX
                },
                no_delta,
                last_data: now,
                last_tick: tick,
                last_sent: now,
                can_resend: false,
                delta_capable: false,
                resync_pending: false,
                session_info: None,
            }),
    {
        let reconnect_after_us: u64 = match reconnect_timeout_secs.checked_mul(1_000_000) {
            Some(us) => us,
            None => u64::MAX,
        };
        SourceSession {
            reconnect_after_us,
            no_delta,
            last_data: now,
            last_tick: tick,
            last_sent: now,
            can_resend: false,
            delta_capable: false,
            resync_pending: false,
            session_info: None,
        }
    }

    /// The simulator was polled: whether its event fired, and its tick count.
    /// A tick that advanced counts as a sign of life even without the event,
    /// which another program can hold back. An event without a new tick is a
    /// sign of life, but brings no frame.
    pub fn poll(&mut self, event_fired: bool, tick: i32, now: u64) -> (p: Poll)
        ensures
            p.frame == (tick != old(self).last_tick),
            now >= old(self).last_sent ==> (p.keepalive is Some <==> tick == old(self).last_tick
                && now - old(self).last_sent >= 1_000_000),
            now >= old(self).last_data ==> (p.gap_us is Some <==> (event_fired || tick != old(
                self,
            ).last_tick) && now - old(self).last_data >= 1_000_000),
            now >= old(self).last_data ==> (p.reconnect <==> !event_fired && tick == old(
                self,
            ).last_tick && now - old(self).last_data >= old(self).reconnect_after_us),
            p.gap_us == if (event_fired || p.frame) && elapsed(now, old(self).last_data)
                >= GAP_LOG_THRESHOLD_US {
                Some(elapsed(now, old(self).last_data) as u64)
            } else {
                None
            },
            p.keepalive == if !p.frame && elapsed(now, old(self).last_sent) >= KEEPALIVE_AFTER_US {
                Some(
                    if old(self).can_resend {
                        Keepalive::Resend
                    } else {
                        Keepalive::Heartbeat
                    },
                )
            } else {
                None
            },
            p.reconnect == (!event_fired && !p.frame && elapsed(now, old(self).last_data) >= old(
                self,
            ).reconnect_after_us),
            *final(self) == (SourceSession {
                last_tick: tick,
                last_data: if event_fired || p.frame {
                    now
                } else {
                    old(self).last_data
                },
                last_sent: if p.keepalive is Some {
                    now
                } else {
                    old(self).last_sent
                },
                ..*old(self)
            }),
    {
        let frame: bool = tick != self.last_tick;
        let alive: bool = event_fired || frame;
        let silence: u64 = elapsed_us(now, self.last_data);
        let gap_us: Option<u64> = if alive && silence >= GAP_LOG_THRESHOLD_US {
            Some(silence)
        } else {
            None
        };
        let keepalive: Option<Keepalive> = if !frame && elapsed_us(now, self.last_sent)
            >= KEEPALIVE_AFTER_US {
            if self.can_resend {
                Some(Keepalive::Resend)
            } else {
                Some(Keepalive::Heartbeat)
            }
        } else {
            None
        };
        let reconnect: bool = !alive && silence >= self.reconnect_after_us;
        self.last_tick = tick;
        if alive {
            self.last_data = now;
        }
        if keepalive.is_some() {
            self.last_sent = now;
        }
        Poll { frame, gap_us, keepalive, reconnect }
    }

    /// The simulator was opened anew. What the target can do stays known; the
    /// last frame is not sent again.
    pub fn reconnected(&mut self, tick: i32, now: u64)
        ensures
            *final(self) == (SourceSession {
                last_tick: tick,
                last_data: now,
                can_resend: false,
                session_info: None,
                ..*old(self)
            }),
    {
        self.last_tick = tick;
        self.last_data = now;
        self.can_resend = false;
        self.session_info = None;
    }

    /// The session after a packet from the target. Anything but a request is
    /// ignored.
    pub open spec fn after_packet(self, packet: Seq<u8>) -> SourceSession {
        match resync_of(packet) {
            Some(r) => SourceSession {
                resync_pending: true,
                delta_capable: r.delta_capable,
                ..self
            },
            None => self,
        }
    }

    /// A packet came from the target.
    pub fn on_packet(&mut self, packet: &[u8])
        ensures
            *final(self) == old(self).after_packet(packet@),
    {
        match Resync::parse(packet) {
            Some(r) => {
                self.resync_pending = true;
                self.delta_capable = r.delta_capable;
            },
            None => {},
        }
    }

    /// Decides what is sent for a tick, by a copy of the map's header: the
    /// buffer written last in any case, and before it what the target needs to
    /// make sense of it.
    pub fn plan(&self, header: &[u8], map_len: usize, now: u64) -> (p: Plan)
        ensures
            p.session_info == if self.session_info_due(header@, map_len as int, now) {
                Some(static_extent(header@, map_len as int) as usize)
            } else {
                None
            },
            p.session_info matches Some(n) ==> n == static_extent(header@, map_len as int)
                <= map_len,
            match p.partial {
                Some((offset, len)) => {
                    &&& sendable_buffer(header@, map_len as int) == Some((offset as int, len as int))
                    &&& offset + len <= map_len
                    &&& delta::taggable(offset as int)
                },
                None => sendable_buffer(header@, map_len as int) is None,
            },
    {
        let session: i32 = if header.len() < IRSDK_HEADER_SIZE {
            0
        } else {
            wire::rd_i32(header, OFF_SESSIONINFOUPDATE)
        };
        let known: bool = match self.session_info {
            Some((s, at)) => s == session && elapsed_us(now, at) < SESSION_INFO_INTERVAL_US,
            None => false,
        };
        let partial: Option<(usize, usize)> = match irsdk::active_var_buf_in(header, map_len) {
            Some((offset, len)) => if offset < 0x7fff_ffff {
                Some((offset, len))
            } else {
                None
            },
            None => None,
        };
        let session_info: Option<usize> = if !known || self.resync_pending || partial.is_none() {
            Some(session_info_extent(header, map_len))
        } else {
            None
        };
        Plan { session_info, partial }
    }

    /// A session-info frame was sent.
    pub fn session_info_sent(&mut self, header: &[u8], now: u64)
        ensures
            *final(self) == (SourceSession {
                last_sent: now,
                can_resend: true,
                resync_pending: false,
                session_info: Some((SourceSession::session_of(header@) as i32, now)),
                ..*old(self)
            }),
    {
        let session: i32 = if header.len() < IRSDK_HEADER_SIZE {
            0
        } else {
            wire::rd_i32(header, OFF_SESSIONINFOUPDATE)
        };
        self.last_sent = now;
        self.can_resend = true;
        self.resync_pending = false;
        self.session_info = Some((session, now));
    }

    /// A partial frame was sent.
    pub fn partial_sent(&mut self, was_key: bool, now: u64)
        ensures
            *final(self) == (SourceSession { last_sent: now, can_resend: was_key, ..*old(self) }),
    {
        self.last_sent = now;
        self.can_resend = was_key;
    }

    /// Tells whether partial frames go out as deltas.
    pub fn use_delta(&self) -> (r: bool)
        ensures
            r == self.uses_delta(),
    {
        self.delta_capable && !self.no_delta
    }
}

/// A request is answered: what is sent next begins with a session-info frame,
/// whatever the map holds, and partial frames go out as deltas from then on if
/// and only if the target can take them and they are not switched off.
pub proof fn request_is_answered(
    s: SourceSession,
    packet: Seq<u8>,
    header: Seq<u8>,
    map_len: int,
    now: u64,
)
    requires
        resync_of(packet) is Some,
    ensures
        s.after_packet(packet).session_info_due(header, map_len, now),
        s.after_packet(packet).uses_delta() <==> resync_of(packet).unwrap().delta_capable
            && !s.no_delta,
{
}

/// A copy of the header plans as the map itself does.
pub proof fn header_is_enough(s: SourceSession, map: Seq<u8>, now: u64)
    requires
        map.len() >= IRSDK_HEADER_SIZE,
    ensures
        ({
            let header = map.take(IRSDK_HEADER_SIZE as int);
            let n = map.len() as int;
            &&& irsdk::extent_in(header, n) == irsdk::frame_extent(map)
            &&& static_extent(header, n) == static_extent(map, n)
            &&& s.session_info_due(header, n, now) == s.session_info_due(map, n, now)
        }),
{
    irsdk::header_names_the_buffer(map, map.take(IRSDK_HEADER_SIZE as int));
}

/// A target that never said that it takes deltas gets whole buffers only: its
/// partial frames are keyframes.
pub proof fn whole_buffers_without_delta(s: SourceSession, e: EncoderState)
    requires
        !s.delta_capable || s.no_delta,
    ensures
        e.key_due(s.uses_delta()),
{
}

/// A copy of a variable buffer is whole if the slot's tick count, where it has
/// one, is still what the copy of the header says.
pub fn copy_is_whole(tick_before: Option<i32>, tick_after: Option<i32>) -> (r: bool)
    ensures
        r == (tick_before == tick_after),
{
    match (tick_before, tick_after) {
        (Some(before), Some(after)) => before == after,
        (None, None) => true,
        _ => false,
    }
}

// ── Opening the simulator ─────────────────────────────────────────────────────

/// How waiting for a shutdown signal ended.
#[derive(Clone, Copy, Debug, PartialEq, Eq, Structural)]
pub enum Signal {
    /// The signal came.
    Shutdown,
    /// Nobody is left to send it.
    Disconnected,
    /// It did not come in time.
    Timeout,
}

/// What to do after an attempt to open the simulator failed.
#[derive(Clone, Copy, Debug, PartialEq, Eq, Structural)]
pub enum OpenResult {
    /// Try once more.
    Retry,
    /// Stop.
    Shutdown,
}

/// The simulator is not running: a wait for the shutdown signal decides
/// whether to try again.
pub fn after_wait(signal: Signal) -> (r: OpenResult)
    ensures
        r is Retry <==> signal is Timeout,
{
    match signal {
        Signal::Shutdown => OpenResult::Shutdown,
        Signal::Disconnected => OpenResult::Shutdown,
        Signal::Timeout => OpenResult::Retry,
    }
}

// ── Making frames ─────────────────────────────────────────────────────────────

/// The bytes of a session-info frame before compression: the start of the map
/// with the status field zeroed. The status comes with the header behind a
/// variable buffer.
pub open spec fn session_info_frame(map: Seq<u8>, extent: int) -> Seq<u8> {
    irsdk::status_cleared(map.take(extent))
}

/// What a partial frame holds: a variable buffer, and behind it the header that
/// names it.
pub open spec fn partial_body(buffer: Seq<u8>, header: Seq<u8>) -> Seq<u8> {
    buffer + header
}

/// Makes compressed frames, ready to be sent.
pub struct FrameEncoder {
    encoder: DeltaEncoder,
    body: Vec<u8>,
    frame: Vec<u8>,
    block: Vec<u8>,
    max_frame: usize,
}

impl View for FrameEncoder {
    type V = EncoderState;

    /// The state of the delta stream.
    closed spec fn view(&self) -> EncoderState {
        self.encoder@
    }
}

impl FrameEncoder {
    /// Longest frame that can be compressed.
    pub closed spec fn max_frame(&self) -> nat {
        self.max_frame as nat
    }

    /// The compressed frame made last, and what follows it in its buffer.
    pub closed spec fn buffer(&self) -> Seq<u8> {
        self.block@
    }

    /// The buffers have the sizes that frames of up to the longest need.
    pub closed spec fn wf(&self) -> bool {
        &&& self.encoder.wf()
        &&& codec::compressible(self.max_frame as int)
        &&& codec::max_compressed(self.max_frame as int) <= codec::MAX_BLOCK
        &&& self.block@.len() == codec::max_compressed(self.max_frame as int)
    }

    /// An encoder for frames of up to `max_frame` bytes.
    pub fn new(max_frame: usize, keyframe_interval: u16) -> (e: FrameEncoder)
        requires
            codec::compressible(max_frame as int),
            codec::max_compressed(max_frame as int) <= codec::MAX_BLOCK,
        ensures
            e.wf(),
            e.max_frame() == max_frame,
            e@ == (EncoderState {
                last: Seq::empty(),
                since_key: 0,
                interval: keyframe_interval as nat,
            }),
    {
        FrameEncoder {
            encoder: DeltaEncoder::new(keyframe_interval),
            body: Vec::new(),
            frame: Vec::new(),
            block: codec::compression_buffer(max_frame),
            max_frame,
        }
    }

    /// Compresses the staged frame.
    fn pack(&mut self) -> (r: Option<usize>)
        requires
            old(self).wf(),
        ensures
            final(self).wf(),
            final(self)@ == old(self)@,
            final(self).max_frame() == old(self).max_frame(),
            r is Some <==> old(self).frame@.len() <= old(self).max_frame(),
            r matches Some(n) ==> 1 <= n <= final(self).buffer().len() && codec::lz4_decoded(
                final(self).buffer().take(n as int),
            ) == Some(old(self).frame@),
    {
        if self.frame.len() > self.max_frame {
            return None;
        }
        proof {
            let a = self.frame@.len() as int;
            let b = self.max_frame as int;
            assert(a * 110 <= b * 110);
            assert(a * 110 / 100 <= b * 110 / 100);
        }
        codec::compress_frame(self.frame.as_slice(), self.block.as_mut_slice())
    }

    /// Makes a session-info frame of the first `extent` bytes of the map.
    /// Returns the length of the compressed frame, and `None` if it is too
    /// long to be compressed. The delta stream starts over.
    pub fn session_info(&mut self, map: &[u8], extent: usize) -> (r: Option<usize>)
        requires
            old(self).wf(),
            extent <= map@.len(),
        ensures
            final(self).wf(),
            final(self).max_frame() == old(self).max_frame(),
            final(self)@ == old(self)@.cleared(),
            r is Some <==> extent <= old(self).max_frame(),
            r matches Some(n) ==> 1 <= n <= final(self).buffer().len() && codec::lz4_decoded(
                final(self).buffer().take(n as int),
            ) == Some(session_info_frame(map@, extent as int)),
    {
        delta::copy_to(&mut self.frame, &map[0..extent]);
        assert(map@.subrange(0, extent as int) =~= map@.take(extent as int));
        irsdk::clear_status(self.frame.as_mut_slice());
        self.encoder.reset();
        self.pack()
    }

    /// Makes a partial frame of a variable buffer that belongs at `offset`, and
    /// of the header that names it. Returns the length of the compressed frame
    /// and what kind it is, and `None` if it is too long to be compressed.
    pub fn partial(&mut self, buffer: &[u8], header: &[u8], offset: u32, use_delta: bool) -> (r:
        Option<(usize, FrameKind)>)
        requires
            old(self).wf(),
            header@.len() == IRSDK_HEADER_SIZE,
        ensures
            final(self).wf(),
            final(self).max_frame() == old(self).max_frame(),
            ({
                let body = partial_body(buffer@, header@);
                &&& final(self)@ == old(self)@.after(body, use_delta)
                &&& r is Some <==> body.len() <= old(self).max_frame()
                &&& r matches Some((n, kind)) ==> {
                    &&& kind == if old(self)@.key_due(use_delta) {
                        FrameKind::Key(offset)
                    } else {
                        FrameKind::Delta(offset)
                    }
                    &&& 1 <= n <= final(self).buffer().len()
                    &&& codec::lz4_decoded(final(self).buffer().take(n as int)) == Some(
                        old(self)@.frame(body, use_delta),
                    )
                }
            }),
    {
        delta::copy_to(&mut self.body, buffer);
        self.body.extend_from_slice(header);
        assert(self.body@ =~= partial_body(buffer@, header@));
        let key: bool = self.encoder.encode(self.body.as_slice(), use_delta, &mut self.frame);
        match self.pack() {
            Some(n) => {
                if key {
                    Some((n, FrameKind::Key(offset)))
                } else {
                    Some((n, FrameKind::Delta(offset)))
                }
            },
            None => None,
        }
    }

    /// The first `n` bytes of the buffer: the compressed frame made last.
    pub fn block(&self, n: usize) -> (b: &[u8])
        requires
            n <= self.buffer().len(),
        ensures
            b@ == self.buffer().take(n as int),
    {
        assert(self.block@.subrange(0, n as int) =~= self.block@.take(n as int));
        &self.block[0..n]
    }
}

// ── Laws ──────────────────────────────────────────────────────────────────────

/// Time passes as the clock shows it, and a clock that goes back shows none.
pub proof fn time_passes(now: u64, since: u64)
    ensures
        now >= since ==> since + elapsed(now, since) == now,
        now < since ==> elapsed(now, since) == 0,
{
}

/// A packet is a request if its first byte says so, and the lowest bit of the
/// second one, where there is one, tells whether deltas are understood.
pub proof fn request_is_in_the_packet(packet: Seq<u8>)
    ensures
        resync_of(packet) is Some <==> packet.len() >= 1 && packet[0] == 0x01,
        packet.len() == 1 ==> resync_of(packet) != Some(Resync { delta_capable: true }),
        packet.len() >= 2 && packet[0] == 0x01 ==> resync_of(packet).unwrap().delta_capable == (
        packet[1] & 0x01 == 0x01),
{
    if packet.len() >= 2 {
        let b = packet[1];
        assert((b & 0x01 == 0x01) == (b % 2 == 1)) by (bit_vector);
    }
}

/// A request changes what it asks for and nothing else; any other packet
/// changes nothing.
pub proof fn packet_changes_only_what_it_asks_for(s: SourceSession, packet: Seq<u8>)
    ensures
        ({
            let t = s.after_packet(packet);
            &&& t.reconnect_after_us == s.reconnect_after_us
            &&& t.no_delta == s.no_delta
            &&& t.last_data == s.last_data
            &&& t.last_tick == s.last_tick
            &&& t.last_sent == s.last_sent
            &&& t.can_resend == s.can_resend
            &&& t.session_info == s.session_info
            &&& packet.len() == 0 || packet[0] != 0x01 ==> t == s
            &&& packet.len() >= 1 && packet[0] == 0x01 ==> t.resync_pending
        }),
{
}

/// A session-info frame holds all that the header speaks of: it reaches to the
/// end of the descriptors and to the end of the session YAML, and no further
/// than the later of these and the header itself.
pub proof fn session_info_is_whole(header: Seq<u8>, map_len: int)
    requires
        header.len() >= 112,
        map_len >= 112,
        ({
            let vh_off = wire::i32_at(header, 28);
            let num_vars = wire::i32_at(header, 24);
            let si_off = wire::i32_at(header, 20);
            let si_len = wire::i32_at(header, 16);
            &&& vh_off >= 0 && num_vars >= 0 && vh_off + 144 * num_vars <= map_len
            &&& si_off >= 0 && si_len >= 0 && si_off + si_len <= map_len
        }),
    ensures
        ({
            let vh_end = wire::i32_at(header, 28) + 144 * wire::i32_at(header, 24);
            let si_end = wire::i32_at(header, 20) + wire::i32_at(header, 16);
            let n = static_extent(header, map_len);
            &&& n >= 112 && n >= vh_end && n >= si_end
            &&& n == 112 || n == vh_end || n == si_end
            &&& n <= map_len
        }),
{
}

/// Where the header makes no sense, all of the map is sent.
pub proof fn unreadable_map_is_sent_whole(header: Seq<u8>, map_len: int)
    requires
        ({
            let vh_off = wire::i32_at(header, 28);
            let num_vars = wire::i32_at(header, 24);
            let si_off = wire::i32_at(header, 20);
            let si_len = wire::i32_at(header, 16);
            ||| header.len() < 112
            ||| map_len < 112
            ||| vh_off < 0 || num_vars < 0 || vh_off + 144 * num_vars > map_len
            ||| si_off < 0 || si_len < 0 || si_off + si_len > map_len
        }),
    ensures
        static_extent(header, map_len) == map_len,
{
}

/// Session info is due before anything was sent, on request, when the session
/// changed, ten seconds after the last one, and where there is no buffer to
/// send; at no other time.
pub proof fn session_info_has_its_reasons(
    s: SourceSession,
    header: Seq<u8>,
    map_len: int,
    now: u64,
)
    requires
        header.len() >= 112,
    ensures
        s.resync_pending ==> s.session_info_due(header, map_len, now),
        s.session_info is None ==> s.session_info_due(header, map_len, now),
        s.session_info matches Some((session, at)) ==> {
            &&& session != wire::i32_at(header, 12) ==> s.session_info_due(header, map_len, now)
            &&& now - at >= 10_000_000 ==> s.session_info_due(header, map_len, now)
            &&& !s.resync_pending && session == wire::i32_at(header, 12) && now - at < 10_000_000
                && sendable_buffer(header, map_len) is Some ==> !s.session_info_due(
                header,
                map_len,
                now,
            )
        },
{
}

/// The buffer that is sent is the newest one, wherever it lies below 2 GiB less
/// one byte, and none else.
pub proof fn newest_buffer_is_sendable(header: Seq<u8>, map_len: int)
    ensures
        irsdk::extent_in(header, map_len) matches Some((offset, len)) ==> offset < 0x7fff_ffff
            ==> sendable_buffer(header, map_len) == Some((offset, len)),
        sendable_buffer(header, map_len) is Some ==> sendable_buffer(header, map_len)
            == irsdk::extent_in(header, map_len),
{
}

/// A session-info frame is the start of the map, byte for byte, but for the
/// status, which is 0.
pub proof fn session_info_copies_the_map(map: Seq<u8>, extent: int)
    requires
        8 <= extent <= map.len(),
    ensures
        ({
            let frame = session_info_frame(map, extent);
            &&& frame.len() == extent
            &&& wire::i32_at(frame, 4) == 0
            &&& forall|i: int|
                0 <= i < extent && (i < 4 || i >= 8) ==> #[trigger] frame[i] == map[i]
        }),
{
}

/// A partial frame holds the buffer, byte for byte, and then the header.
pub proof fn partial_frame_copies_both(buffer: Seq<u8>, header: Seq<u8>)
    ensures
        ({
            let body = partial_body(buffer, header);
            &&& body.len() == buffer.len() + header.len()
            &&& forall|i: int| 0 <= i < buffer.len() ==> #[trigger] body[i] == buffer[i]
            &&& forall|i: int|
                buffer.len() <= i < body.len() ==> #[trigger] body[i] == header[i - buffer.len()]
        }),
{
}

/// Deltas are used if the target understands them and they are not switched
/// off.
pub proof fn deltas_need_both_sides(s: SourceSession)
    ensures
        s.uses_delta() ==> s.delta_capable,
        s.uses_delta() ==> !s.no_delta,
        s.delta_capable && !s.no_delta ==> s.uses_delta(),
{
}

/// A request is two bytes: the flag 1, and 1 or 0 for what the target
/// understands.
pub proof fn request_takes_two_bytes(r: Resync)
    ensures
        resync_bytes(r).len() == 2,
        resync_bytes(r)[0] == 0x01,
        resync_bytes(r)[1] == 0x01 <==> r.delta_capable,
        resync_bytes(r)[1] == 0x00 <==> !r.delta_capable,
{
}

/// The waits of a source: a quarter of a second for an event, five seconds for
/// the simulator.
pub proof fn source_waits_so_long()
    ensures
        POLL_INTERVAL_MS == 250,
        RETRY_AFTER_SECS == 5,
{
}

} // verus!
