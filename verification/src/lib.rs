//! Analysis engine for a tag-based task collection: a typed metadata value
//! model, a boolean filter-expression evaluator, a metric aggregator, a
//! dependency-cycle detector, chart builders (schedule, distribution, time
//! series) and a deterministic diagram-text renderer.

pub mod chart;
pub mod cycle;
pub mod dates;
pub mod distribution;
pub mod filter;
pub mod metric;
pub mod model;
pub mod render;
pub mod schedule;
pub mod schema;
pub mod series;
pub mod service;
pub mod text;
pub mod values;

pub use values::Decimal;
pub use values::TagValue;
pub use values::MetricValue;
pub use values::SCALE;
