//! Topic-indexed time series: decoding sensor payloads, keeping one ordered
//! series of readings per allow-listed topic, and answering time-range
//! queries over them.
//!
//! - [`codec`] decodes a payload into the value of a reading.
//! - [`topic`] holds the allow-list and derives the storage keys.
//! - [`series`] and [`store`] keep the readings, one series per storage key.
//! - [`ingest`] takes one message of the feed to one reading in the store.
//! - [`query`] and [`api`] take one request to its answer.
//!
//! Values are 32-bit IEEE-754 numbers, carried as their bit patterns: no
//! function of this library computes with them. What has to be computed with
//! them, the number that a text denotes and the text that a number is sent
//! as, is left to the caller.

pub mod text;
pub mod codec;
pub mod instant;
pub mod topic;
pub mod series;
pub mod store;
pub mod decimal;
pub mod query;
pub mod ingest;
pub mod api;
pub mod error;
