//! Hierarchical and grouped time series: key extraction, aggregation-node
//! enumeration, the summation matrix and per-period rollups, all verified.

pub mod decimal;
pub mod error;
pub mod hierarchy_spec;
pub mod table;
pub mod keys;
pub mod periods;
pub mod checks;
pub mod nodes;
pub mod order;
pub mod hts;
