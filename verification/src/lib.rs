//! Block and transaction services of a rollup sequencer: paginated listings of
//! blocks and transactions, lookups, the assembly of the execution-trace tables
//! that are sent to the provers, and the decisions of a trace-generation run.

pub mod decimal;
pub mod listing;
pub mod cursor;
pub mod models;
pub mod service;
pub mod trace;
pub mod http;
pub mod sequencer;
