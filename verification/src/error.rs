//! The ways in which an update can fail.

use vstd::prelude::*;

verus! {

/// Why an update was given up. Any of these ends the whole run.
#[derive(Clone, Copy, Debug, PartialEq, Eq, Structural)]
pub enum UpdateError {
    /// A requested value holds a line break.
    InputMalformed,
    /// No node starts at the requested line and column.
    PositionNotFound,
    /// The node at the requested position belongs to no binding.
    BindingNotFound,
    /// The value of a binding is neither a string, an identifier nor an
    /// interpolation, or the binding is inherited from an expression.
    UnsupportedValue,
    /// An identifier, or a name captured from an interpolation, has no binding
    /// in the enclosing scopes.
    UnresolvableAlias,
    /// An interpolation holds a fragment that no pattern can be made of.
    PatternSynthesis,
    /// The pattern made of an interpolation does not match the requested value.
    PatternMismatch,
    /// A version binding turned up in a second file, or two different ones in
    /// one file.
    VersionConflict,
    /// Two edits ask for different texts at one binding.
    EditConflict,
    /// A binding was reached again while it was being resolved.
    CycleDetected,
    /// The file ends inside a string behind an interpolation, or holds a
    /// character outside ASCII where it is neither in a string nor in a
    /// comment: the parser is not called on it.
    SourceRefused,
    /// The tree has a shape that the resolver does not understand.
    Unexpected,
}

/// A failed update: why it failed and, where one request is at fault, which
/// of the requests that were handed over it is.
#[derive(Clone, Copy, Debug, PartialEq, Eq, Structural)]
pub struct UpdateFailure {
    pub error: UpdateError,
    pub request: Option<usize>,
}

} // verus!
