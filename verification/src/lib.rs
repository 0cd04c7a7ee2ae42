//! Per-channel word-usage statistics for a chat service.
//!
//! The crate aggregates word frequencies per (server, channel) key and per
//! author, with message-level deduplication, a backfill/replay protocol that
//! keeps live updates consistent during startup catch-up, and a binary
//! snapshot codec whose round trip is proved exact.

pub mod assoc;
pub mod backfill;
pub mod config;
pub mod feedback;
pub mod language_parsing;
pub mod message;
pub mod permissions;
pub mod snapshot;
pub mod sorting;
pub mod stopwords;
pub mod state;
pub mod stats;
pub mod strutil;
pub mod utils;
pub mod wordcloud;
