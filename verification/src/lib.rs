#![verifier::loop_isolation(false)]
//! A library for creating, applying and combining binary diffs.
//!
//! A binary diff is a sequence of blocks, each carrying a two-byte action
//! followed by big-endian length fields and, for some actions, raw data.
//! The format is a metaformat: callers describe their binary as an ordered
//! list of labeled lines (an index), and the engine diffs those lines.

pub mod bytes_serializer;
pub mod clonable_read;
pub mod cmp;
pub mod diff_block;
pub mod diff;
pub mod diff_iterator;
pub mod diff_reader;
pub mod drain;
pub mod error;
pub mod functions;
pub mod indexes;
pub mod lines_with_hash_iterator;
pub mod readslice;
pub mod wire;
