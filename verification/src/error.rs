use vstd::prelude::*;

verus! {

/// Fatal error conditions surfaced by the core operations, each carrying
/// the offending name where one exists. I/O failures and best-effort
/// warnings are handled by the caller, not here.
#[derive(Debug)]
pub enum JuliaupError {
    /// A version was requested that the version database does not offer.
    UnknownVersion { version: String },
    /// The depot-path override resolves to a non-absolute path.
    InvalidDepotPath { path: String },
    /// No home directory is available to derive the depot path from.
    MissingHomeDirectory,
    /// The host architecture is not one the tool supports.
    UnknownArch { arch: String },
    /// The target operating system does not support the host architecture.
    UnsupportedPlatform,
    /// A startup file holds different numbers of start and end markers.
    MarkerCountMismatch,
    /// A startup file holds more than one start marker.
    MultipleStartMarkers,
    /// A startup file's end marker precedes its start marker.
    MarkersOutOfOrder,
    /// A version string could not be parsed.
    InvalidVersionString { text: String },
}

} // verus!
