//! Accounting of operations that had to wait.

use std::time::{Duration, Instant};
use vstd::prelude::*;

verus! {

/// How often an operation had to wait, and for how long in all.
///
/// Both counters stop at the largest value of a `u64`.
#[derive(Clone, Copy, Debug, PartialEq, Eq, Structural, Hash)]
pub struct BlockLogs {
    /// The number of operations that had to wait
    pub blocks: u64,
    /// The time that they took in all, in nanoseconds
    pub total_nanos: u64,
}

/// The sum of two counters, or the largest value where the sum is larger.
pub open spec fn saturating_sum(a: u64, b: u64) -> u64 {
    if a + b > u64::MAX {
        u64::MAX
    } else {
        (a + b) as u64
    }
}

impl BlockLogs {
    /// The logs after one more operation that waited for `nanos` nanoseconds.
    pub open spec fn recorded(self, nanos: u64) -> BlockLogs {
        BlockLogs {
            blocks: saturating_sum(self.blocks, 1),
            total_nanos: saturating_sum(self.total_nanos, nanos),
        }
    }

    /// Creates logs that hold no operation.
    pub fn new() -> (logs: BlockLogs)
        ensures
            logs == (BlockLogs { blocks: 0, total_nanos: 0 }),
    {
        BlockLogs { blocks: 0, total_nanos: 0 }
    }

    /// Counts one more operation that waited for `nanos` nanoseconds.
    pub fn record(&mut self, nanos: u64)
        ensures
            *final(self) == old(self).recorded(nanos),
    {
        self.blocks = self.blocks.saturating_add(1);
        self.total_nanos = self.total_nanos.saturating_add(nanos);
    }
}

/// Counts the operations that took at least a given time.
#[derive(Clone, Copy, Debug, PartialEq, Eq, Structural, Hash)]
pub struct BlockLogger {
    /// The shortest time that counts as waiting, in nanoseconds
    pub threshold_nanos: u64,
    /// The operations counted so far
    pub logs: BlockLogs,
}

impl BlockLogger {
    /// The logger after an operation that took `nanos` nanoseconds.
    pub open spec fn observed(self, nanos: u64) -> BlockLogger {
        if nanos >= self.threshold_nanos {
            BlockLogger { logs: self.logs.recorded(nanos), ..self }
        } else {
            self
        }
    }

    /// Creates a logger that has counted nothing.
    pub fn new(threshold_nanos: u64) -> (logger: BlockLogger)
        ensures
            logger == (BlockLogger { threshold_nanos, logs: BlockLogs { blocks: 0, total_nanos: 0 } }),
    {
        BlockLogger { threshold_nanos, logs: BlockLogs::new() }
    }

    /// Takes note of an operation that took `nanos` nanoseconds, and counts
    /// it if that is at least the threshold.
    pub fn observe(&mut self, nanos: u64)
        ensures
            *final(self) == old(self).observed(nanos),
    {
        if nanos >= self.threshold_nanos {
            self.logs.record(nanos);
        }
    }

    /// The operations counted so far.
    pub fn logs(&self) -> (logs: BlockLogs)
        ensures
            logs == self.logs,
    {
        self.logs
    }
}

/// `std::time::Instant`, a reading of the monotonic clock. Nothing is known
/// of what is inside.
#[verifier::external_type_specification]
#[verifier::external_body]
pub struct ExInstant(Instant);

/// `std::time::Instant::now` reads the monotonic clock. Nothing is claimed
/// of the instant that it returns.
pub assume_specification[ Instant::now ]() -> Instant;

/// `std::time::Instant::elapsed` gives the time that has passed since the
/// instant. Nothing is claimed of its length.
pub assume_specification[ Instant::elapsed ](start: &Instant) -> Duration;

/// `std::time::Duration::as_nanos` gives the whole duration in nanoseconds.
/// Nothing is claimed of the number.
pub assume_specification[ Duration::as_nanos ](duration: &Duration) -> u128;

/// The nanoseconds that have passed since `start`, or the largest `u64`
/// where they are more.
pub fn nanos_since(start: &Instant) -> u64 {
    let elapsed = start.elapsed();
    saturate_nanos(elapsed.as_nanos())
}

/// A number of nanoseconds as the counters hold it: the number itself, or
/// the largest `u64` where it is larger.
pub open spec fn saturated_nanos(nanos: u128) -> u64 {
    if nanos > u64::MAX {
        u64::MAX
    } else {
        nanos as u64
    }
}

/// Brings a number of nanoseconds into the range of the counters.
pub fn saturate_nanos(nanos: u128) -> (r: u64)
    ensures
        r == saturated_nanos(nanos),
{
    if nanos > 0xffff_ffff_ffff_ffffu128 {
        u64::MAX
    } else {
        nanos as u64
    }
}

} // verus!
