//! The length-delimited tag/value wire format.

pub mod encoding;
pub mod nested;
pub mod string;
pub mod types;
