//! Runtime wire-codec engine for schema-derived message types.
//!
//! Messages are serialized to and parsed from two binary wire formats: a
//! length-delimited tag/value format and a field-header binary format. The
//! engine offers exact size precomputation, zero-copy transmission of owned
//! byte payloads, bounds-checked and exact-presized encode paths, retention
//! of fields unknown to the current schema, and selective field inclusion
//! through a field mask.

pub mod buffer;
pub mod error;
pub mod extbytes;
pub mod extstr;
pub mod mask;
pub mod pb;
pub mod thrift;
pub mod unknown;
pub mod varint;
pub mod workspace;
