//! The typed failures of the library. Nothing here is ever logged or
//! printed: every failure is handed back to the caller with the offending
//! text or version, so that the caller can render a message.

use vstd::prelude::*;

verus! {

/// Every failure the library can report.
#[derive(Debug, Clone, PartialEq, Eq)]
pub enum Error {
    /// The document text does not match the grammar. The field is the
    /// character position at which no rule could go on.
    ParseError { position: usize },
    /// A version text is neither a strict semantic version nor a partial
    /// two-component numeric form.
    InvalidVersionFormat { text: String },
    /// A release with the same version is already stored and overriding was
    /// not asked for.
    VersionAlreadyExists { version: String },
    /// A promotion was asked for with no version to use.
    NoVersionAvailable,
    /// The previous version given for a diff is greater than the new one.
    PreviousVersionGreaterThanNew { prev: String, new: String },
    /// An nth-release index that no release answers to.
    AddressingError { n: i32 },
}

} // verus!
