use vstd::prelude::*;

verus! {

/// One measurement record: the wall-clock time at which a probe completed,
/// in microseconds since the Unix epoch, and the measured round-trip time,
/// in nanoseconds. Exact integer units keep the full precision of the
/// clock and the timer; rendering to decimal seconds and milliseconds is
/// the formatter's job.
#[derive(Clone, Copy, PartialEq, Eq, Structural, Debug)]
pub struct Sample {
    pub timestamp_micros: u64,
    pub rtt_nanos: u64,
}

impl Sample {
    pub fn new(timestamp_micros: u64, rtt_nanos: u64) -> (r: Sample)
        ensures
            r.timestamp_micros == timestamp_micros,
            r.rtt_nanos == rtt_nanos,
    {
        Sample { timestamp_micros, rtt_nanos }
    }
}

} // verus!
