//! Delimiter scanning over a buffered byte source, where the delimiter is
//! decided by a caller-supplied predicate applied to each window of bytes the
//! source makes available.
//!
//! The scanning logic lives in [`read_until_index_found`]; an in-memory
//! buffered source that delivers a byte stream in scripted windows lives in
//! [`source`].

pub mod read_until_index_found;
pub mod source;
