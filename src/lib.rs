//! Differential testing of JSON-RPC providers: the same numbered request
//! stream goes to every provider, and their recorded outcomes are compared.

pub mod envelope;
pub mod outcome;
pub mod broadcast;
pub mod results;
pub mod pool;
pub mod tally;
pub mod report;
pub mod chain_id;
