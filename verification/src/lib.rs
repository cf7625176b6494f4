//! Conversion of loosely structured textual records (JSON objects, JSON
//! arrays, or regex-matched text lines) into a normalized stream of events,
//! each attached to an identified timeline, ready to hand to an ingestion
//! sink.
//!
//! The crate is organised around the flow of one input buffer:
//! mixed-format reading, JSON flattening into dotted attribute paths,
//! attribute classification, timeline identity resolution, key renaming and
//! interning, and deduplication of unchanged timeline metadata. The network
//! transport to the sink is not part of this crate: processing produces an
//! explicit list of sink calls for the caller to perform.

pub mod assemble;
pub mod attr;
pub mod client;
pub mod config;
pub mod error;
pub mod flatten;
pub mod json;
pub mod numtext;
pub mod reader;
pub mod registry;
pub mod types;
