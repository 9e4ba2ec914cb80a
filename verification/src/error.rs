//! Why a run stops.

use vstd::prelude::*;

use crate::path::PathBuf;

verus! {

/// What the engine itself refuses. Failures of the operating system are the
/// driver's to report.
#[derive(Debug, PartialEq, Eq)]
pub enum XcpError<P = PathBuf> {
    /// The source has no name to copy it under.
    InvalidSource,
    /// The destination exists and may not be replaced.
    DestinationExists(P),
    /// The run ended because of an earlier error.
    EarlyShutdown,
    /// Sharing blocks was demanded and did not work.
    ReflinkFailed,
    /// A target directory could not be created.
    CopyError,
    /// The entry is of a kind that is not copied.
    UnknownFileType(P),
    /// An entry of the walk does not lie within the walked tree.
    OutsideSource,
}

impl View for XcpError<PathBuf> {
    type V = XcpError<Seq<u8>>;

    open spec fn view(&self) -> XcpError<Seq<u8>> {
        match self {
            XcpError::InvalidSource => XcpError::InvalidSource,
            XcpError::DestinationExists(p) => XcpError::DestinationExists(p@),
            XcpError::EarlyShutdown => XcpError::EarlyShutdown,
            XcpError::ReflinkFailed => XcpError::ReflinkFailed,
            XcpError::CopyError => XcpError::CopyError,
            XcpError::UnknownFileType(p) => XcpError::UnknownFileType(p@),
            XcpError::OutsideSource => XcpError::OutsideSource,
        }
    }
}

/// The fixed text of an error, before anything that the driver adds.
pub open spec fn error_text(e: XcpError<Seq<u8>>) -> Seq<char> {
    match e {
        XcpError::InvalidSource => "Failed to find source directory name."@,
        XcpError::DestinationExists(_) => "Destination file exists and --no-clobber is set."@,
        XcpError::EarlyShutdown => "Destination file exists and --no-clobber is set."@,
        XcpError::CopyError => "Error creating target directory: "@,
        _ => ""@,
    }
}

impl XcpError<PathBuf> {
    /// The fixed text of the error, before anything that the driver adds.
    pub fn text(&self) -> (res: &'static str)
        ensures
            res@ == error_text(self@),
    {
        match self {
            XcpError::InvalidSource => "Failed to find source directory name.",
            XcpError::DestinationExists(_) => "Destination file exists and --no-clobber is set.",
            XcpError::EarlyShutdown => "Destination file exists and --no-clobber is set.",
            XcpError::CopyError => "Error creating target directory: ",
            _ => "",
        }
    }
}

} // verus!
