//! The error taxonomy of an install run.
use vstd::prelude::*;

verus! {

/// Everything that can go wrong while resolving and installing one plugin.
///
/// Failures inside one copy action or one download abort only that unit;
/// they are reported with a context tag and do not abort sibling units.
#[derive(Debug, Clone, PartialEq, Eq)]
pub enum InstallError {
    /// The manifest text could not be parsed.
    ManifestParseError(String),
    /// A staging location for a download already exists; it is never overwritten.
    StagingCollision,
    /// The artifact could not be retrieved at all.
    NetworkError,
    /// The server answered with a non-success status.
    HttpStatusError,
    /// The response body was not a well-formed archive.
    ArchiveError,
    /// No installation directory is known for the requested plugin format.
    UnsupportedFormat,
    /// A filesystem path could not be constructed from its text.
    InvalidPath,
    /// A filesystem copy failed; carries the offending path.
    CopyError(String),
    /// The distribution method is recognized but requires manual action.
    NotImplemented,
}

/// Spec-level equality on errors, comparing payloads by their view.
pub open spec fn same_error(a: InstallError, b: InstallError) -> bool {
    match (a, b) {
        (InstallError::ManifestParseError(x), InstallError::ManifestParseError(y)) => x@ == y@,
        (InstallError::StagingCollision, InstallError::StagingCollision) => true,
        (InstallError::NetworkError, InstallError::NetworkError) => true,
        (InstallError::HttpStatusError, InstallError::HttpStatusError) => true,
        (InstallError::ArchiveError, InstallError::ArchiveError) => true,
        (InstallError::UnsupportedFormat, InstallError::UnsupportedFormat) => true,
        (InstallError::InvalidPath, InstallError::InvalidPath) => true,
        (InstallError::CopyError(x), InstallError::CopyError(y)) => x@ == y@,
        (InstallError::NotImplemented, InstallError::NotImplemented) => true,
        _ => false,
    }
}

impl InstallError {
    /// A fresh value equal (up to payload views) to this one.
    pub fn duplicate(&self) -> (r: InstallError)
        ensures
            same_error(r, *self),
    {
        match self {
            InstallError::ManifestParseError(s) => InstallError::ManifestParseError(s.clone()),
            InstallError::StagingCollision => InstallError::StagingCollision,
            InstallError::NetworkError => InstallError::NetworkError,
            InstallError::HttpStatusError => InstallError::HttpStatusError,
            InstallError::ArchiveError => InstallError::ArchiveError,
            InstallError::UnsupportedFormat => InstallError::UnsupportedFormat,
            InstallError::InvalidPath => InstallError::InvalidPath,
            InstallError::CopyError(s) => InstallError::CopyError(s.clone()),
            InstallError::NotImplemented => InstallError::NotImplemented,
        }
    }

    /// What `message` returns for each error.
    pub open spec fn spec_message(self) -> Seq<char> {
        match self {
            InstallError::ManifestParseError(s) => "cannot parse manifest: "@ + s@,
            InstallError::StagingCollision => "staging location already exists"@,
            InstallError::NetworkError => "network request failed"@,
            InstallError::HttpStatusError => "server answered with a non-success status"@,
            InstallError::ArchiveError => "malformed archive"@,
            InstallError::UnsupportedFormat => "no install path known for this format"@,
            InstallError::InvalidPath => "templated path is malformed"@,
            InstallError::CopyError(p) => "copy failed at "@ + p@,
            InstallError::NotImplemented => "this distribution method requires manual action"@,
        }
    }

    /// A human-readable description of the error.
    pub fn message(&self) -> (r: String)
        ensures
            r@ == self.spec_message(),
    {
        match self {
            InstallError::ManifestParseError(s) => {
                let mut m = String::new();
                m.append("cannot parse manifest: ");
                m.append(s.as_str());
                m
            },
            InstallError::StagingCollision => String::from_str(
                "staging location already exists",
            ),
            InstallError::NetworkError => String::from_str("network request failed"),
            InstallError::HttpStatusError => String::from_str(
                "server answered with a non-success status",
            ),
            InstallError::ArchiveError => String::from_str("malformed archive"),
            InstallError::UnsupportedFormat => String::from_str(
                "no install path known for this format",
            ),
            InstallError::InvalidPath => String::from_str("templated path is malformed"),
            InstallError::CopyError(p) => {
                let mut m = String::new();
                m.append("copy failed at ");
                m.append(p.as_str());
                m
            },
            InstallError::NotImplemented => String::from_str(
                "this distribution method requires manual action",
            ),
        }
    }
}

} // verus!
