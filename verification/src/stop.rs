use vstd::prelude::*;

verus! {

/// Whether the search has been told to stop. The flag is shared with the thread that
/// commands the search, so what is read here is whatever that thread has stored last.
pub(crate) fn stop_requested(stop: &core::sync::atomic::AtomicBool) -> (r: bool) {
    stop.load(core::sync::atomic::Ordering::SeqCst)
}

} // verus!
