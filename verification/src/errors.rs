//! The error taxonomy: every fallible operation of the library returns one
//! of these; I/O failures themselves live with the caller that does the
//! reading and writing.

use vstd::prelude::*;

verus! {

/// A persisted asset record could not be decoded.
#[derive(Clone, Copy, PartialEq, Eq, Structural, Debug)]
pub enum AssetLoadError {
    /// The bytes are not a well-formed record: truncated, an unknown
    /// property tag, a duplicate field name, or trailing garbage.
    Malformed,
}

/// An asset cannot be persisted.
#[derive(Clone, Copy, PartialEq, Eq, Structural, Debug)]
pub enum AssetSaveError {
    /// A text field exceeds what its length prefix can carry.
    TooLarge,
}

/// A project index file could not be decoded.
#[derive(Clone, Copy, PartialEq, Eq, Structural, Debug)]
pub enum ProjectLoadError {
    /// A line is not an identifier, a space and a path.
    Malformed,
}

/// The registry cannot be exported.
#[derive(Clone, Copy, PartialEq, Eq, Structural, Debug)]
pub enum ExportError {
    /// A count, size or text exceeds what the wire format can carry.
    TooLarge,
    /// A map references an atlas that is not in the registry.
    UnknownAtlas,
    /// An object carries a component schema that is not in the registry.
    UnknownComponent,
    /// A repaired float value has no entry in the caller-supplied table of
    /// IEEE-754 encodings.
    MissingFloatBits,
    /// An asset breaks its structural invariant: a grid whose cell count
    /// does not match its size, an image with the wrong pixel count, or a
    /// zero tile dimension.
    MalformedAsset,
    /// A reference-typed property has no possible target: its kind's
    /// collection is empty.
    NoReferenceTarget,
}

/// A referenced identifier is absent: an internal desynchronisation, not a
/// user error.
#[derive(Clone, Copy, PartialEq, Eq, Structural, Debug)]
pub struct NotFound;

} // verus!
