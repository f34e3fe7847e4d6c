//! Addressing for numeric data that varies across named categorical dimensions.
//!
//! A [`granularity::Granularity`] describes which dimensions a flat buffer of
//! values varies along and with which stride, so that a point query on one
//! dimension resolves to an offset into that buffer.

pub mod error;
pub mod granularity;
pub mod query;
