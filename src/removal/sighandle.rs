use vstd::prelude::*;
use std::sync::Arc;
use std::sync::atomic::{AtomicBool, Ordering};

verus! {

/// The one-way cancellation latch of a run, shared between the listener
/// that trips it on a termination signal and the driver that reads it
/// between batches. What a read returns depends on the other side, so
/// nothing is promised of it here; a run acts on it through `Run::next_action`.
pub struct CancellationSignal {
    stopped: Arc<AtomicBool>,
}

impl CancellationSignal {
    /// A latch that is not tripped.
    pub fn new() -> (r: CancellationSignal) {
        CancellationSignal { stopped: Arc::new(AtomicBool::new(false)) }
    }

    /// Another handle on the same latch.
    pub fn handle(&self) -> (r: CancellationSignal) {
        CancellationSignal { stopped: self.stopped.clone() }
    }

    /// Trips the latch; it is never reset.
    pub fn trip(&self) {
        self.stopped.store(true, Ordering::SeqCst);
    }

    /// Whether the latch has been tripped.
    pub fn is_stopped(&self) -> (r: bool) {
        self.stopped.load(Ordering::SeqCst)
    }
}

} // verus!
