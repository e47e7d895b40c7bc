//! Error taxonomy of the image subsystem and its mapping to the CRI
//! status codes.

use vstd::prelude::*;

verus! {

/// A failure of an image operation.
#[derive(Debug, PartialEq, Eq)]
pub enum ImageError {
    /// The reference string does not parse.
    InvalidReference,
    /// The registry rejected the supplied credentials.
    AuthError,
    /// The registry interaction failed or returned malformed data.
    RegistryError,
    /// Local persistence failed.
    StorageError,
    /// No record matches the reference.
    NotFound,
    /// An identifier prefix matches more than one distinct record.
    Ambiguous,
}

/// The CRI status code a failure is surfaced as.
#[derive(Debug, Clone, Copy, PartialEq, Eq, Structural)]
pub enum CriCode {
    InvalidArgument,
    Internal,
    NotFound,
}

/// The code each error maps to at the facade boundary: bad input is
/// `InvalidArgument` (an unparsable reference, or a prefix too short to
/// name one record), a missing record is `NotFound`, everything else is
/// `Internal`.
pub open spec fn spec_cri_code(e: ImageError) -> CriCode {
    match e {
        ImageError::InvalidReference => CriCode::InvalidArgument,
        ImageError::AuthError => CriCode::Internal,
        ImageError::RegistryError => CriCode::Internal,
        ImageError::StorageError => CriCode::Internal,
        ImageError::NotFound => CriCode::NotFound,
        ImageError::Ambiguous => CriCode::InvalidArgument,
    }
}

impl ImageError {
    /// The CRI status code this error is surfaced as.
    pub fn cri_code(&self) -> (c: CriCode)
        ensures
            c == spec_cri_code(*self),
    {
        match self {
            ImageError::InvalidReference => CriCode::InvalidArgument,
            ImageError::AuthError => CriCode::Internal,
            ImageError::RegistryError => CriCode::Internal,
            ImageError::StorageError => CriCode::Internal,
            ImageError::NotFound => CriCode::NotFound,
            ImageError::Ambiguous => CriCode::InvalidArgument,
        }
    }

    /// A short description, in place of a `Display` implementation.
    pub fn message(&self) -> (m: &'static str)
        ensures
            self is InvalidReference ==> m@ == "invalid image reference"@,
            self is NotFound ==> m@ == "image not found"@,
            self is Ambiguous ==> m@ == "ambiguous image id prefix"@,
    {
        match self {
            ImageError::InvalidReference => "invalid image reference",
            ImageError::AuthError => "registry authentication failed",
            ImageError::RegistryError => "registry interaction failed",
            ImageError::StorageError => "local image storage failed",
            ImageError::NotFound => "image not found",
            ImageError::Ambiguous => "ambiguous image id prefix",
        }
    }
}

} // verus!
