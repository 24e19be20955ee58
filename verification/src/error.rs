//! The ways in which reconciling two documents can fail.

use vstd::prelude::*;

verus! {

/// Why a document was not read or two documents were not reconciled.
#[derive(Debug, Clone, Copy, PartialEq, Eq, Structural)]
pub enum Error {
    /// A text does not have the shape of a document or of a record block: it is
    /// empty or does not end with a line feed, a block lacks a line or a
    /// marker that it must have, a number is not an unsigned integer of
    /// 64 bits, or the owner of a block is no container of the document.
    StructuralParse,
    /// The two documents do not begin with the same header.
    HeaderMismatch,
    /// The earlier document's block at this position describes something for
    /// which the later document has no block left.
    UnmatchedDescriptor(usize),
    /// The earlier document's block at this position cannot get a mapping of
    /// its own: its identifier, or that of the later block paired with it,
    /// already takes part in the mapping.
    DuplicateTargetId(usize),
}

} // verus!
