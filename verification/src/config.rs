//! Settings of the two sides.

use vstd::prelude::*;

use crate::source::{
    DEFAULT_DATAGRAM_SIZE, DEFAULT_KEYFRAME_INTERVAL, DEFAULT_RECONNECT_TIMEOUT_SECS,
};
use crate::target::DEFAULT_STALE_TIMEOUT_SECS;
use crate::text;
use crate::{DEFAULT_MULTICAST, DEFAULT_PORT};

verus! {

/// Settings of a source.
pub struct SourceConfig {
    /// Local address of the socket.
    pub bind: String,
    /// Where to send: multicast group and port, or address and port.
    pub target: String,
    /// Send to one host instead of a multicast group.
    pub unicast: bool,
    /// Spin instead of sleeping.
    pub busy_wait: bool,
    /// Core to pin the worker to.
    pub pin_core: Option<usize>,
    /// Raise the priority of the process.
    pub high_priority: bool,
    /// Seconds without telemetry before the source reconnects.
    pub reconnect_timeout_secs: u64,
    /// Bytes per datagram.
    pub datagram_size: usize,
    /// Send full frames only.
    pub no_delta: bool,
    /// Partial frames from one keyframe to the next.
    pub keyframe_interval: u16,
    /// Run a stand-in for the simulator's process.
    pub fanalab: bool,
    /// Zero the map on shutdown. Without effect on a source, which has no map of
    /// its own.
    pub zero_on_exit: bool,
}

/// Settings of a target.
pub struct TargetConfig {
    /// Address and port to listen on.
    pub bind: String,
    /// Expect data from one host instead of a multicast group.
    pub unicast: bool,
    /// Multicast group to join.
    pub multicast_group: String,
    /// Spin instead of sleeping.
    pub busy_wait: bool,
    /// Core to pin the worker to.
    pub pin_core: Option<usize>,
    /// Run a stand-in for the simulator's process.
    pub fanalab: bool,
    /// Seconds without data before the map is closed.
    pub stale_timeout_secs: u64,
    /// Raise the priority of the process.
    pub high_priority: bool,
    /// Record `.ibt` files.
    pub write_ibt: bool,
    /// Zero the map on shutdown.
    pub zero_on_exit: bool,
}

/// A host and a port as one address.
pub open spec fn host_port(host: Seq<char>, port: u16) -> Seq<char> {
    host + ":"@ + text::decimal(port as nat)
}

/// Makes an address of a host and a port.
pub fn address(host: &str, port: u16) -> (s: String)
    ensures
        s@ == host_port(host@, port),
{
    let mut s = host.to_owned();
    s.append(":");
    text::append_decimal(&mut s, port as u64);
    s
}

/// Where a source sends unless told otherwise: the default multicast group and
/// port.
pub fn default_target() -> (s: String)
    ensures
        s@ == host_port(DEFAULT_MULTICAST@, DEFAULT_PORT),
        s@ == host_port("239.255.0.1"@, 5000),
{
    address(DEFAULT_MULTICAST, DEFAULT_PORT)
}

impl Default for SourceConfig {
    fn default() -> (c: SourceConfig)
        ensures
            c.bind@ == "0.0.0.0:0"@,
            c.target@ == Seq::<char>::empty(),
            !c.unicast && !c.busy_wait && !c.high_priority && !c.no_delta && !c.fanalab
                && !c.zero_on_exit,
            c.pin_core is None,
            c.reconnect_timeout_secs == DEFAULT_RECONNECT_TIMEOUT_SECS,
            c.datagram_size == DEFAULT_DATAGRAM_SIZE,
            c.keyframe_interval == DEFAULT_KEYFRAME_INTERVAL,
            c.reconnect_timeout_secs == 10 && c.datagram_size == 9_000 && c.keyframe_interval == 60,
    {
        SourceConfig {
            bind: "0.0.0.0:0".to_owned(),
            target: String::new(),
            unicast: false,
            busy_wait: false,
            pin_core: None,
            high_priority: false,
            reconnect_timeout_secs: DEFAULT_RECONNECT_TIMEOUT_SECS,
            datagram_size: DEFAULT_DATAGRAM_SIZE,
            no_delta: false,
            keyframe_interval: DEFAULT_KEYFRAME_INTERVAL,
            fanalab: false,
            zero_on_exit: false,
        }
    }
}

impl Default for TargetConfig {
    fn default() -> (c: TargetConfig)
        ensures
            c.bind@ == host_port("0.0.0.0"@, DEFAULT_PORT),
            c.multicast_group@ == DEFAULT_MULTICAST@,
            !c.unicast && !c.busy_wait && !c.high_priority && !c.fanalab && !c.write_ibt
                && !c.zero_on_exit,
            c.pin_core is None,
            c.stale_timeout_secs == DEFAULT_STALE_TIMEOUT_SECS,
            c.stale_timeout_secs == 10,
    {
        TargetConfig {
            bind: address("0.0.0.0", DEFAULT_PORT),
            unicast: false,
            multicast_group: DEFAULT_MULTICAST.to_owned(),
            busy_wait: false,
            pin_core: None,
            fanalab: false,
            stale_timeout_secs: DEFAULT_STALE_TIMEOUT_SECS,
            high_priority: false,
            write_ibt: false,
            zero_on_exit: false,
        }
    }
}

/// An address is the host, a colon, and digits that read back as the port.
pub proof fn address_reads_back(host: Seq<char>, port: u16)
    ensures
        ({
            let a = host_port(host, port);
            &&& a.len() > host.len() + 1
            &&& a.take(host.len() as int) == host
            &&& a[host.len() as int] == ':'
            &&& text::value_of(a.skip(host.len() as int + 1)) == port
        }),
{
    reveal_strlit(":");
    text::decimal_reads_back(port as nat);
    let a = host_port(host, port);
    assert(a.take(host.len() as int) =~= host);
    assert(a.skip(host.len() as int + 1) =~= text::decimal(port as nat));
}

} // verus!
