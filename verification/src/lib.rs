//! A sharded document index with an AND-search over word frequencies, and the
//! line protocol its server and clients speak.

pub mod batch_processor;
pub mod client;
pub mod client_commands;
pub mod decimal;
pub mod index_store;
pub mod laws;
pub mod round_trips;
pub mod search;
pub mod server;
pub mod text;
pub mod word_freqs;
