//! Scheduling, wake-up and readiness logic of a small single-threaded
//! executor for futures, with edge-triggered socket readiness tracking.

pub mod bits;
pub mod waker_page;
pub mod executor;
pub mod net;
pub mod io_future;

pub use io_future::{AsyncRead, AsyncWrite};
