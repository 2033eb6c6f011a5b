//! The typed failures every fallible operation reports to its caller.

use vstd::prelude::*;

verus! {

/// Every failure the engine can report.  Fallible operations return these to
/// the caller; nothing is retried and nothing is silently defaulted.
#[derive(Clone, Debug)]
pub enum GitError {
    /// No control directory was found and creation was not forced.
    NotARepository,
    /// The configuration declares a repository format version other than 0.
    UnsupportedFormatVersion,
    /// A header or delimiter invariant was violated while decoding an object.
    MalformedObject,
    /// The declared payload length of a stored object does not match its size.
    CorruptObject,
    /// An object header carries a type tag outside the four known kinds.
    UnknownObjectType,
    /// A name resolved to no candidate object at all.
    NoSuchReference,
    /// A name resolved to more than one candidate; all of them are carried.
    AmbiguousReference(Vec<Vec<u8>>),
    /// Bad magic, unsupported version, a truncated entry, a non-zero reserved
    /// field, a missing extended-flag bit, or a missing NUL terminator.
    InvalidIndexFormat,
    /// An absolute path was handed to the ignore matcher.
    IgnorePrecondition,
    /// A checkout destination exists but is not empty.
    TargetNotEmpty,
    /// A checkout destination exists but is not a directory.
    TargetNotDirectory,
    /// An underlying filesystem or compression failure.
    Io,
}

} // verus!
