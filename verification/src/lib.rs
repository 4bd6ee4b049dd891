//! Prediction of the outcome of a multi-block validator election.
//!
//! The library holds what a prediction computes and decides: how account keys are read, how
//! live staking data becomes bounded snapshots, how a mined solution is aggregated into
//! validator totals, how the winners are ranked and reported, and how the fetching of
//! nominators and the command itself proceed step by step. Talking to a node, mining and
//! writing files are left to the program around it.

pub mod account;
pub mod account_map;
pub mod assignments;
pub mod batches;
pub mod command;
pub mod figures;
pub mod laws;
pub mod membership;
pub mod nominators;
pub mod prediction;
pub mod ranking;
pub mod results;
pub mod snapshot;
pub mod stream;
pub mod tally;
pub mod text;
pub mod types;
