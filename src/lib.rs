//! A client-side data path for a column-oriented database spoken to over
//! HTTP: the RowBinary row codec, a chunk-spanning read buffer, block
//! compression framing, a streaming row cursor, and insert batching.

use vstd::prelude::*;

pub mod buflist;
pub mod client;
pub mod bytes;
pub mod compression;
pub mod cursor;
pub mod error;
pub mod insert;
pub mod inserter;
pub mod rowbinary;

verus! {

/// Marks traits that only this crate may implement.
pub trait Sealed {}

} // verus!
