//! Error taxonomy of the library.

use vstd::prelude::*;

verus! {

/// The classes of failure the tool distinguishes.
///
/// The first three come out of the verified logic itself; the I/O
/// variants carry a message produced at the edge of the program and are
/// routed through the library's events untouched.
#[derive(Debug, Clone, PartialEq, Eq)]
pub enum Error {
    /// The telemetry buffer is truncated or an element overruns it.
    MalformedTelemetry,
    /// No GPS sample exists anywhere in a decoded telemetry tree.
    NoGpsData,
    /// The estimated local instant cannot be expressed as a date.
    AmbiguousLocalTime,
    /// The cache document could not be read or written.
    CacheIo(String),
    /// A single entry failed during a directory walk.
    ScanIo(String),
    /// A copy failed while writing an import batch.
    WriterIo(String),
    /// An external collaborator is unreachable or exited abnormally.
    ExternalService(String),
}

impl Error {
    /// A short label for the error class, for display at the edge.
    pub fn label(&self) -> (r: &'static str)
        ensures
            r@ == self.spec_label(),
    {
        match self {
            Error::MalformedTelemetry => "malformed telemetry",
            Error::NoGpsData => "no gps data",
            Error::AmbiguousLocalTime => "ambiguous local time",
            Error::CacheIo(_) => "cache io",
            Error::ScanIo(_) => "scan io",
            Error::WriterIo(_) => "writer io",
            Error::ExternalService(_) => "external service",
        }
    }

    pub open spec fn spec_label(&self) -> Seq<char> {
        match self {
            Error::MalformedTelemetry => "malformed telemetry"@,
            Error::NoGpsData => "no gps data"@,
            Error::AmbiguousLocalTime => "ambiguous local time"@,
            Error::CacheIo(_) => "cache io"@,
            Error::ScanIo(_) => "scan io"@,
            Error::WriterIo(_) => "writer io"@,
            Error::ExternalService(_) => "external service"@,
        }
    }
}

} // verus!
