//! Backend-neutral platform vocabulary: window ids, keys, pointer ids and
//! platform errors.
use std::sync::atomic::AtomicU64;
use vstd::prelude::*;

verus! {

/// A unique window identifier within the framework.
#[derive(Clone, Copy, Debug, PartialEq, Eq, Hash, Structural)]
pub struct WindowId(pub u64);

/// The keys that editing and focus handling react to; every other key is
/// `Other`.
#[derive(Clone, Copy, Debug, PartialEq, Eq, Structural)]
pub enum PlatformKey {
    Tab,
    Enter,
    Space,
    Escape,
    ArrowLeft,
    ArrowRight,
    Backspace,
    Delete,
    Home,
    End,
    Other,
}

/// Why the platform layer could not run.
#[derive(Clone, Debug, PartialEq, Eq)]
pub enum PlatformError {
    EventLoop(String),
}

impl PlatformError {
    /// The human-readable description of the error.
    pub fn message(&self) -> (r: String)
        ensures
            match self {
                PlatformError::EventLoop(detail) => r@ == "event loop error: "@ + detail@,
            },
    {
        match self {
            PlatformError::EventLoop(detail) => {
                let mut out = "event loop error: ".to_owned();
                out.append(detail.as_str());
                out
            },
        }
    }
}

/// Takes the next pointer id from `counter` and advances it; `0` stays
/// reserved for the mouse pointer when the counter starts at 1. The value
/// returned is whatever the shared counter held, and is not stated.
pub fn allocate_pointer_id(counter: &AtomicU64) -> u64 {
    counter.fetch_add(1, std::sync::atomic::Ordering::Relaxed)
}

} // verus!
