//! The failures that the library reports.
use vstd::prelude::*;

verus! {

/// What went wrong. Failures of the network, the file system and the archive
/// reader are reported by the program around the library, which has its own
/// error type wrapping this one.
#[derive(Debug, Clone, Copy, PartialEq, Eq, Structural)]
pub enum ComposerError {
    /// The per-user cache root could not be located.
    NotFoundHomeDir,
    /// A version text that the semver reader refuses.
    MalformedVersion,
    /// A constraint expression that no rule of the grammar accepts.
    MalformedConstraint,
    /// No version record of a package meets the constraint it is required
    /// under (or, for a root requirement without one, none is stable).
    NoMatchingVersion,
    /// Package metadata without the requested package or without any version record.
    MalformedMetadata,
    /// The runtime's version probe printed nothing that reads as a version.
    GetPhpVersionFailed,
    /// A runtime version or extension requirement is not met.
    PhpVersion,
    /// A configuration key other than the ones the tool knows.
    UnknownConfigKey,
}

} // verus!
