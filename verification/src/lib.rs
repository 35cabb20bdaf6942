//! A windowed stream aggregation engine.
//!
//! Timestamped records are grouped by key, assigned to sliding window
//! instances, folded into per-(key, window) accumulators, and emitted when a
//! window closes: either because a processing-time tick elapsed or because the
//! event-time watermark passed the window's end.

pub mod agg;
pub mod compose;
pub mod engine;
pub mod keyorder;
pub mod record;
pub mod watermark;
pub mod window;

pub use record::Record;
pub use record::RecordV;
pub use window::assign;
