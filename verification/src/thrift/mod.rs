//! The field-header binary wire format.
//!
//! A structure is a sequence of fields, each introduced by a one-byte type
//! code and a 2-byte big-endian field id, and closed by a reserved stop
//! byte. Scalars are fixed-width big-endian blocks; strings are a 4-byte
//! big-endian byte count followed by the raw bytes.

pub mod encoding;
pub mod record;
