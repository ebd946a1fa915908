//! Portfolio allocation search: enumeration of quantized splits, the batch of
//! statistics gathered for them, selection of the best one and recovery of the
//! splits behind the efficient frontier.
pub mod splits;
pub mod ieee;
pub mod statistics;
pub mod selection;
pub mod frontier;
pub mod source_data;
pub mod portfolio;
