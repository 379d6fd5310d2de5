//! When a mirror sends, reconnects and closes.
//!
//! The program around it waits and receives; it hands in what happened and at
//! what time. Times are microseconds since the program started.

use vstd::prelude::*;

use crate::source;

verus! {

/// Silence after which the simulator counts as gone.
pub const DISCONNECT_TIMEOUT_US: u64 = 10_000_000;

/// Silence after which the target closes its map.
pub const TELEMETRY_TIMEOUT_US: u64 = 10_000_000;

/// How long one wait for the simulator's event may take, in milliseconds.
pub const WAIT_INTERVAL_MS: u32 = 200;

/// Seconds between two attempts to find the simulator.
pub const RETRY_AFTER_SECS: u64 = 10;

/// What a source does after one wait.
#[derive(Clone, Copy, Debug, PartialEq, Eq, Structural)]
pub enum SourceStep {
    /// There is data: compress and send it.
    Send,
    /// Nothing yet: wait again.
    Wait,
    /// The simulator is gone: open it anew.
    Reconnect,
}

/// A running source of a mirror.
#[derive(Clone, Copy)]
pub struct MirrorSource {
    /// When the simulator last had data.
    pub last_data: u64,
}

impl MirrorSource {
    /// A source that was connected `now`.
    pub fn new(now: u64) -> (s: MirrorSource)
        ensures
            s.last_data == now,
    {
        MirrorSource { last_data: now }
    }

    /// One wait is over, with data or without.
    pub fn waited(&mut self, got_data: bool, now: u64) -> (r: SourceStep)
        ensures
            r == if got_data {
                SourceStep::Send
            } else if source::elapsed(now, old(self).last_data) >= DISCONNECT_TIMEOUT_US {
                SourceStep::Reconnect
            } else {
                SourceStep::Wait
            },
            now >= old(self).last_data && !got_data ==> (r is Reconnect <==> now - old(self).last_data
                >= 10_000_000),
            final(self).last_data == if got_data {
                now
            } else {
                old(self).last_data
            },
    {
        if got_data {
            self.last_data = now;
            SourceStep::Send
        } else if source::elapsed_us(now, self.last_data) >= DISCONNECT_TIMEOUT_US {
            SourceStep::Reconnect
        } else {
            SourceStep::Wait
        }
    }

    /// The simulator was opened anew.
    pub fn reconnected(&mut self, now: u64)
        ensures
            final(self).last_data == now,
    {
        self.last_data = now;
    }
}

/// A running target of a mirror.
#[derive(Clone, Copy)]
pub struct MirrorTarget {
    /// There is a map.
    pub map_open: bool,
    /// When the map was last written.
    pub last_update: u64,
    /// When the message that is coming in began.
    pub sequence_start: Option<u64>,
}

impl MirrorTarget {
    /// A target that starts `now`, without a map.
    pub fn new(now: u64) -> (t: MirrorTarget)
        ensures
            t == (MirrorTarget { map_open: false, last_update: now, sequence_start: None }),
    {
        MirrorTarget { map_open: false, last_update: now, sequence_start: None }
    }

    /// A datagram was processed: whether it was a first fragment, and whether
    /// it completed a message. Tells whether a map is to be created.
    pub fn processed(&mut self, sequence_changed: bool, complete: bool, now: u64) -> (create: bool)
        ensures
            create == (complete && !old(self).map_open),
            *final(self) == (MirrorTarget {
                map_open: old(self).map_open || complete,
                sequence_start: if sequence_changed {
                    Some(now)
                } else {
                    old(self).sequence_start
                },
                ..*old(self)
            }),
    {
        if sequence_changed {
            self.sequence_start = Some(now);
        }
        let create: bool = complete && !self.map_open;
        if complete {
            self.map_open = true;
        }
        create
    }

    /// The message was written into the map. Returns the latency to count: the
    /// time spent at the source and the time since the first fragment came.
    pub fn written(&mut self, source_time_us: u64, now: u64) -> (latency_us: Option<u64>)
        ensures
            latency_us == match old(self).sequence_start {
                Some(start) => Some(
                    ((source_time_us + source::elapsed(now, start)) % 0x1_0000_0000_0000_0000)
                        as u64,
                ),
                None => None,
            },
            *final(self) == (MirrorTarget {
                last_update: now,
                sequence_start: None,
                ..*old(self)
            }),
    {
        let latency_us: Option<u64> = match self.sequence_start {
            Some(start) => Some(source_time_us.wrapping_add(source::elapsed_us(now, start))),
            None => None,
        };
        self.sequence_start = None;
        self.last_update = now;
        latency_us
    }

    /// Nothing came in for a while. Tells whether the map is to be closed.
    pub fn timed_out(&mut self, now: u64) -> (close: bool)
        ensures
            close == (old(self).map_open && source::elapsed(now, old(self).last_update)
                >= TELEMETRY_TIMEOUT_US),
            now >= old(self).last_update ==> close == (old(self).map_open && now - old(
                self,
            ).last_update >= 10_000_000),
            *final(self) == (MirrorTarget {
                map_open: old(self).map_open && !close,
                ..*old(self)
            }),
    {
        let close: bool = self.map_open && source::elapsed_us(now, self.last_update)
            >= TELEMETRY_TIMEOUT_US;
        if close {
            self.map_open = false;
        }
        close
    }
}

/// The address that a socket is bound to.
#[derive(Clone, Copy, Debug, PartialEq, Eq, Structural)]
pub enum BindAddress {
    /// An IPv4 address, as a number.
    V4(u32),
    /// Some IPv6 address.
    V6,
    /// Not an address and a port.
    Unknown,
}

/// The local address to join a multicast group on: the one the socket is bound
/// to, or any if that is not known. `None` for IPv6, which is not supported.
pub fn multicast_interface(bind: BindAddress) -> (r: Option<u32>)
    ensures
        r == match bind {
            BindAddress::V4(ip) => Some(ip),
            BindAddress::V6 => None,
            BindAddress::Unknown => Some(0u32),
        },
{
    match bind {
        BindAddress::V4(ip) => Some(ip),
        BindAddress::V6 => None,
        BindAddress::Unknown => Some(0),
    }
}

/// The waits of a mirror: a fifth of a second for an event, ten seconds for the
/// simulator.
pub proof fn mirror_waits_so_long()
    ensures
        WAIT_INTERVAL_MS == 200,
        RETRY_AFTER_SECS == 10,
{
}

} // verus!
