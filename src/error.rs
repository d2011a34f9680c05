use vstd::prelude::*;

use crate::feature::Feature;

verus! {

/// What went wrong with the way the tool was asked to run.
#[derive(Debug, Clone, Copy, PartialEq, Eq, Structural)]
pub enum Usage {
    /// Neither an explicit backend nor a configured default.
    NoBackend,
    /// A range selector was given together with upload inputs.
    RangeWithUpload,
    /// A range selector and explicit file names were both given.
    RangeWithNames,
    /// A name override was given for more than one upload file.
    NameWithManyFiles,
    /// Listing backends was combined with choosing one.
    ListWithBackend,
    /// An upload input has no usable file name.
    InputWithoutName,
}

/// The errors of the dispatch and policy engine.
#[derive(Debug, PartialEq, Eq)]
pub enum Error {
    /// The configured size limit is not a valid size.
    InvalidSizeLimit,
    /// Conflicting or missing command-line intent.
    Usage(Usage),
    /// No backend is registered under this name.
    UnknownBackend(String),
    /// The backend lacks a requested feature and the policy cancels.
    UnsupportedFeature { backend: String, feature: Feature },
    /// The download URL has no host.
    MissingHost,
    /// No backend uses this host name.
    UnknownHost(String),
    /// The URL belongs to a backend but holds no content identifier.
    IdExtraction,
    /// An upload file is larger than the configured limit.
    SizeLimitExceeded { name: String, size: u64, limit: u64 },
    /// A range sub-expression is malformed.
    RangeSyntax,
    /// A range endpoint falls outside the files of the paste.
    RangeOutOfBounds { index: i64, count: usize },
    /// A range ends before it starts.
    RangeReversed { start: i64, end: i64 },
}

/// A non-fatal finding that the caller reports and then goes on.
#[derive(Debug, PartialEq, Eq)]
pub enum Warning {
    /// The backend does not support a requested feature.
    Unsupported(Feature),
    /// The policy would cancel on this feature, but the run is forced.
    ForcedUnsupported(Feature),
    /// A file is over the size limit, but the run is forced.
    OverLimit { name: String, size: u64, limit: u64 },
}

} // verus!
