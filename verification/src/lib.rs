//! In-memory model of a video edit in progress: clips placed on tracks along
//! a time axis, a playback cursor, and a durable project document format.
//!
//! Times are integer ticks; the surrounding application chooses the tick
//! scale (for example microseconds) and converts at its edge.

pub mod codec;
pub mod project;
pub mod timeline;
