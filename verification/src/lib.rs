//! Per-node hardware temperature aggregation.
//!
//! The library models temperature readings as decimal fixed-point values
//! (ten-thousandths of a degree Celsius), resolves sensor instance
//! addresses to node names through a metadata mapping, aggregates the
//! maximum reading per node over three time windows, and rounds the
//! results under a fixed precision policy.

pub mod aggregate;
pub mod handler;
pub mod mapping;
pub mod number;
pub mod sample;
pub mod table;
pub mod text;
