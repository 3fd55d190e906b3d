//! Day-scoped co-occurrence graphs: one node per (date, location) observation,
//! an edge between every two locations seen on the same day, and structural
//! metrics over the result.

pub mod date;
pub mod store;
pub mod distance;
pub mod builder;
pub mod metrics;
