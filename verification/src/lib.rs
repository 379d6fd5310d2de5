//! Streams iRacing telemetry from the machine that runs the simulator to the
//! machine that runs the dashboards.

use vstd::prelude::*;

pub mod codec;
pub mod config;
pub mod delta;
pub mod ibt_writer;
pub mod irsdk;
pub mod mirror;
pub mod protocol;
pub mod reassembly;
pub mod sending;
pub mod source;
pub mod stats;
pub mod target;
pub mod telemetry;
pub mod text;
pub mod wire;

pub use config::{SourceConfig, TargetConfig};

verus! {

/// Default multicast group used by source and target when no address is given.
pub const DEFAULT_MULTICAST: &'static str = "239.255.0.1";

/// Default UDP port for both sending and receiving.
pub const DEFAULT_PORT: u16 = 5000;

} // verus!
