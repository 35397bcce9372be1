//! The errors the descriptor builder and the codec can report.

use vstd::prelude::*;

verus! {

/// Why building a descriptor or running the codec failed.
///
/// No operation recovers locally: every error is handed to the immediate
/// caller, and building or encoding is all-or-nothing.
#[derive(Debug, Clone, PartialEq, Eq)]
pub enum Error {
    /// The host type's base category names no representable layout.
    InvalidType(String),
    /// A simple-scalar type's own name is not in the scalar lookup table.
    UnknownScalarName(String),
    /// A structure field entry lacks a field type.
    MissingFieldType(String),
    /// The value being encoded as a structure has no field of this name.
    MissingAttribute(String),
    /// The byte buffer's length does not match the descriptor's size.
    ByteCast,
    /// The host value does not fit the shape or range the descriptor asks for.
    HostInterop,
    /// The descriptor reaches a wide-character or native-pointer codec path,
    /// which is not implemented.
    NotImplemented,
}

/// The mathematical model of an [`Error`].
pub enum SpecError {
    InvalidType(Seq<char>),
    UnknownScalarName(Seq<char>),
    MissingFieldType(Seq<char>),
    MissingAttribute(Seq<char>),
    ByteCast,
    HostInterop,
    NotImplemented,
}

impl View for Error {
    type V = SpecError;

    open spec fn view(&self) -> SpecError {
        match self {
            Error::InvalidType(name) => SpecError::InvalidType(name@),
            Error::UnknownScalarName(name) => SpecError::UnknownScalarName(name@),
            Error::MissingFieldType(name) => SpecError::MissingFieldType(name@),
            Error::MissingAttribute(name) => SpecError::MissingAttribute(name@),
            Error::ByteCast => SpecError::ByteCast,
            Error::HostInterop => SpecError::HostInterop,
            Error::NotImplemented => SpecError::NotImplemented,
        }
    }
}

} // verus!
