//! Error taxonomy of the library.

use vstd::prelude::*;

verus! {

/// What can go wrong while answering a filesystem request.
///
/// `MalformedPath` and `NotFound` are the expected, frequent outcomes and are
/// both surfaced to the transport as "no such entry"; `BackingStore` marks a
/// failed store query and is surfaced as an internal error, never folded into
/// `NotFound`.
#[derive(Clone, Copy, PartialEq, Eq, Structural, Debug)]
pub enum FsError {
    /// The path's depth or shape matches no hierarchy level.
    MalformedPath,
    /// A syntactically valid position is absent, or an identifier is unknown.
    NotFound,
    /// A backing-store query failed.
    BackingStore,
}

} // verus!
