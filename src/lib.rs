//! Per-task operator runtime of a stream processor: watermark tracking,
//! barrier alignment, keyed timers, output routing, window assignment and
//! the instant (equal-time) join, each stated and proved with Verus.

pub mod types;
pub mod routing;
pub mod watermark;
pub mod checkpoint;
pub mod timers;
pub mod windows;
pub mod context;
pub mod runtime;
pub mod instant_join;
pub mod source;
pub mod connectors;
pub mod formats;
