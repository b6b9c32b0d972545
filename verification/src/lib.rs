//! An in-memory electronic program guide (EPG).
//!
//! Feeds in the XMLTV format are decoded into [`program::Program`] records
//! ([`decode`]), grouped by channel display name ([`group`]) into one
//! [`store::EpgSource`] per feed URL ([`ingest`]), and collected in an
//! [`store::EpgStore`] that keeps at most one source per URL.  Two queries
//! read the store: all programs of one channel, time-sorted ([`query`]),
//! and a paginated grid of channels whose programs overlap a requested
//! time window ([`grid`]).
//!
//! Everything the outside crates do — gzip decompression, XML parsing,
//! date-time parsing, trimming and ordering of strings — stands behind the
//! trusted boundary in [`trusted`]; all logic around it is verified.

pub mod decode;
pub mod feed;
pub mod grid;
pub mod group;
pub mod ingest;
pub mod program;
pub mod query;
pub mod store;
pub mod text;
pub mod trusted;
