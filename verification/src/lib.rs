//! Metric-emission engine for monitoring-agent plugins.
//!
//! A plugin run collects a flat set of named numeric readings, matches them
//! against a declarative graph/metric schema whose names may contain wildcard
//! segments, optionally converts cumulative counters into per-minute rates
//! using the previous run's readings, and hands the results to a serializer.
//! Reading values are carried as IEEE 754 binary64 bit patterns (`u64`), so
//! that the selection and policy logic is independent of floating-point
//! evaluation, which the caller performs on the returned bit patterns.

pub mod fbits;
pub mod graph;
pub mod metric;
pub mod name;
pub mod numtext;
pub mod pipeline;
pub mod rate;
pub mod snapshot;
pub mod readings;
pub mod unit;

pub use graph::Graph;
pub use metric::Metric;
pub use readings::Reading;
pub use readings::ReadingSet;
pub use unit::Unit;
