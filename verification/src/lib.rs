//! The queries of a bitswap node: a state machine that locates and retrieves blocks, and dags of
//! blocks, from peers.
//!
//! A get query retrieves one block, a sync query a block and all blocks below it. Both consist of
//! subqueries, each of which is a request to be sent. [`QueryManager`] holds the queries in
//! progress. It does no input or output: the requests and results are events that the caller
//! retrieves, and the responses are handed back to it.
//!
//! [`model`] says what each operation makes of the manager, [`effects`] what that does to each query
//! and event, [`validity`] what holds at all times, and [`laws`], [`cancellation`], [`progress`] and
//! [`requests`] what follows for a query over its life.

pub mod cancellation;
pub mod display;
pub mod effects;
pub mod external;
pub mod laws;
mod lemmas;
pub mod manager;
pub mod model;
pub mod progress;
pub mod requests;
mod steps;
pub mod types;
pub mod validity;

pub use manager::QueryManager;
pub use types::{Header, QueryEvent, QueryId, QueryType, Request, Response};
