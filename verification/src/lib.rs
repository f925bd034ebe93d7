//! The request handling of a fraud-scoring HTTP service, verified.
//!
//! - `scan`: finding a key in a byte buffer and where its value starts.
//! - `numbers`: reading integers, booleans, quoted strings and the extent of
//!   decimal numbers at a position.
//! - `timestamp`: `YYYY-MM-DDTHH:MM:SS` as seconds since the epoch, and the
//!   hour of the day and day of the week of such a count.
//! - `features`: the plain facts of a scoring request's body.
//! - `config`: the entries of the per-category risk table.
//! - `http`: splitting a connection's buffer into requests and choosing the answers.
pub mod scan;
pub mod numbers;
pub mod timestamp;
pub mod features;
pub mod config;
pub mod http;
