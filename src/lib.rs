//! Playback core of a rhythm-game chart engine: keyframe timelines, judge
//! lines with their note scheduling cache, and the conversion of raw chart
//! events into timelines.
//!
//! All quantities are fixed-point integers: times are in microseconds and
//! values in thousandths of their unit.

pub mod timeline;
pub mod note;
pub mod cache;
pub mod line;
pub mod units;
pub mod pgr;
pub mod chart;
