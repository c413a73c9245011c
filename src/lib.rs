//! A verified core for a gear optimizer: a depth-first walk over every
//! assignment of affixes to gear slots, a fixed-point attribute pipeline that
//! scores each assignment, and a bounded collector that keeps the best ones.
pub mod attributes;
pub mod enumerate;
pub mod gear;
pub mod optimizer;
pub mod pipeline;
pub mod results;
