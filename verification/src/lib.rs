//! Vennbase: a content-addressed binary blob store grouped into partitions
//! by MIME type, with a tag index and a boolean query evaluator.

use vstd::prelude::*;

pub mod binio;
pub mod cache;
pub mod ids;
pub mod mime;
pub mod mapjson;
pub mod partition;
pub mod protocol;
pub mod query;
pub mod resize;
pub mod tags;
pub mod vennbase;

verus! {

/// The kinds of failure the store distinguishes.
#[derive(Clone, Copy, PartialEq, Eq, Structural, Debug)]
pub enum VennError {
    /// An underlying read or write failed, or a write could not be sized.
    Io,
    /// A partition file's record headers do not parse.
    MalformedPartition,
    /// A string is not a well-formed MIME type.
    InvalidMimeType,
    /// A query expression does not parse.
    InvalidQuery,
    /// A query predicate has an unknown or ill-formed identifier.
    InvalidExpression,
    /// An image could not be transcoded.
    ResizeFailure,
    /// A stream ended before a fixed-width value was complete.
    ShortRead,
}

} // verus!
