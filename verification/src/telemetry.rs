//! Access to the simulator's shared memory.

use vstd::prelude::*;

verus! {

/// Bytes of the largest map. The simulator uses about 1.1 MB; the rest is for
/// what it may need one day.
pub const MAX_TELEMETRY_SIZE: usize = 0x20_0000;

/// Why a map could not be had.
#[derive(Debug)]
pub enum TelemetryError {
    /// The simulator is not running.
    Unavailable,
    /// Anything else, in words.
    Other(String),
}

impl TelemetryError {
    /// What is wrong, in words.
    pub fn message(&self) -> (s: String)
        ensures
            s@ == match *self {
                TelemetryError::Unavailable => "iRacing telemetry not available"@,
                TelemetryError::Other(what) => what@,
            },
    {
        match self {
            TelemetryError::Unavailable => "iRacing telemetry not available".to_owned(),
            TelemetryError::Other(what) => what.as_str().to_owned(),
        }
    }
}

/// A map of the simulator's kind, with the event that tells of new data.
pub trait TelemetryProvider: Sized {
    /// The bytes of the map.
    spec fn bytes(&self) -> Seq<u8>;

    /// Opens the map of a running simulator, to be read.
    fn open() -> (r: Result<Self, TelemetryError>);

    /// Creates a map of `size` bytes, to be written.
    fn create(size: usize) -> (r: Result<Self, TelemetryError>)
        requires
            size <= isize::MAX,
        ensures
            r matches Ok(t) ==> t.bytes().len() == size,
    ;

    /// Waits until there is new data, but no longer than `timeout_ms`. Tells
    /// whether there is.
    fn wait_for_data(&self, timeout_ms: u32) -> (r: bool);

    /// Tells those who wait that there is new data.
    fn signal_data_ready(&self) -> (r: Result<(), TelemetryError>);

    /// The map, to be read.
    fn as_slice(&self) -> (s: &[u8])
        ensures
            s@ == self.bytes(),
    ;

    /// The map, to be written.
    fn as_slice_mut(&mut self) -> (s: &mut [u8])
        ensures
            s@ == old(self).bytes(),
            final(self).bytes() == final(s)@,
    ;

    /// Length of the map.
    fn size(&self) -> (n: usize)
        ensures
            n == self.bytes().len(),
    ;

    /// Offset and length of the variable buffer written last, if the map's
    /// header can be read.
    fn active_var_buf(&self) -> (r: Option<(usize, usize)>)
        ensures
            r matches Some((offset, len)) ==> offset + len <= self.bytes().len(),
        default_ensures
            r is None,
    {
        None
    }

    /// Clears the status field, so that readers see a disconnect.
    fn clear_status(&mut self)
        ensures
            final(self).bytes().len() == old(self).bytes().len(),
        default_ensures
            final(self).bytes() == old(self).bytes(),
    {
    }
}

/// A map in ordinary memory, for machines that have no simulator.
pub struct MockTelemetry {
    data: Vec<u8>,
}

impl TelemetryProvider for MockTelemetry {
    closed spec fn bytes(&self) -> Seq<u8> {
        self.data@
    }

    fn open() -> (r: Result<Self, TelemetryError>)
        ensures
            r is Err,
            r->Err_0 is Unavailable,
    {
        Err(TelemetryError::Unavailable)
    }

    fn create(size: usize) -> (r: Result<Self, TelemetryError>)
        ensures
            r is Ok,
            r->Ok_0.bytes() == Seq::new(size as nat, |i: int| 0u8),
    {
        let data: Vec<u8> = vec![0u8; size];
        assert(data@ =~= Seq::new(size as nat, |i: int| 0u8));
        Ok(MockTelemetry { data })
    }

    fn wait_for_data(&self, timeout_ms: u32) -> (r: bool)
        ensures
            !r,
    {
        false
    }

    fn signal_data_ready(&self) -> (r: Result<(), TelemetryError>)
        ensures
            r is Ok,
    {
        Ok(())
    }

    fn as_slice(&self) -> (s: &[u8]) {
        self.data.as_slice()
    }

    fn as_slice_mut(&mut self) -> (s: &mut [u8]) {
        self.data.as_mut_slice()
    }

    fn size(&self) -> (n: usize) {
        self.data.len()
    }
}

/// The largest map has two mebibytes.
pub proof fn largest_map_has_two_mebibytes()
    ensures
        MAX_TELEMETRY_SIZE == 2 * 1024 * 1024,
{
}

} // verus!
