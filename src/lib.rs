//! Records the time spent in named, nested code regions on many threads and
//! turns the gathered statistics into a hierarchical report.
//!
//! Producers send events through a channel; a single consumer drains it and
//! applies each event to a statistics tree kept in an arena of nodes. The
//! report builder walks that tree, computes global and parent-relative
//! percentages and serializes the result as an HTML table.

pub mod event;
pub mod laws;
pub mod names;
pub mod profiler;
pub mod profiler_data;
pub mod report;
pub mod render;

pub use event::ProfilerEvent;
pub use profiler::{Profiler, ProfilerBlockGuard};
pub use profiler_data::{BlockStat, ProfilerData, ThreadStack};
