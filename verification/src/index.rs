//! The metadata index: what it stores, how it is kept up to date and how it is
//! searched.
//!
//! The index lives in a SQL database. Everything that is decided about it is
//! decided here: the statements, the rows, the changes that a crawl calls for,
//! the candidates of a search and their ranking. Running the statements is left
//! to the caller.

pub mod candidates;
pub mod changes;
pub mod effects;
pub mod engine;
pub mod error;
pub mod matching;
pub mod open;
pub mod passes;
pub mod refresh;
pub mod repair;
pub mod roots;
pub mod rows;
pub mod run;
pub mod search;
pub mod sql;
pub mod state;
pub mod store;
pub mod tally;
pub mod terms;
pub mod work;
