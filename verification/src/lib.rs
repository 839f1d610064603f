//! View-change synchronization for a Byzantine-fault-tolerant replica.
//!
//! A replica feeds the [`sync::Synchronizer`] two kinds of events, protocol
//! messages and timer firings, one at a time.  Every transition is a verified
//! function from the state and the event to the next state, the effects the
//! replica asks its driver to carry out, and a status for the dispatch layer.

pub mod benchmarks;
pub mod collector;
pub mod laws;
pub mod log;
pub mod message;
pub mod sync;
pub mod timeouts;
pub mod view_info;
