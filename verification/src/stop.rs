//! The flag that asks the input stage to stop.

use std::sync::atomic::{AtomicBool, Ordering};
use vstd::prelude::*;

verus! {

/// Whether the stage was asked to stop. The flag is set by another thread,
/// so nothing is known of the answer.
pub fn stop_requested(stop: &AtomicBool) -> bool {
    stop.load(Ordering::Relaxed)
}

} // verus!
