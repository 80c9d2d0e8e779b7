//! The failures that the engine reports.

use vstd::prelude::*;

verus! {

/// Failures reported by the document engine.
#[derive(Clone, Copy, Debug, PartialEq, Eq, Structural)]
pub enum Error {
    /// An object was read as a variant it does not hold.
    TypeMismatch,
    /// A dictionary holds no entry under the requested name.
    MissingKey,
    /// An identifier does not resolve to an object of the document.
    MissingObject,
    /// The documents hold no usable catalog or page tree root, or no page at all.
    StructuralError,
    /// An argument lies outside what the operation accepts.
    InvalidArgument,
    /// The object numbers do not suffice for the objects at hand.
    TooManyObjects,
    /// The bytes of an image or of a page could not be decoded, or the pixels
    /// of an image not encoded.
    DecodeError,
    /// The bytes are no document that can be read.
    LoadError,
}

} // verus!
