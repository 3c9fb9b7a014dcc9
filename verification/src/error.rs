//! The failures that the core reports.

use vstd::prelude::*;

verus! {

/// How a page breaks the page dialect.
#[derive(Debug, Clone, Copy, PartialEq, Eq, Structural)]
pub enum FormatFault {
    /// The first line that is not blank does not begin with the heading marker.
    MissingHeading,
    /// A line that is not blank begins with none of the four markers.
    UnknownMarker,
    /// A code fence is opened and the input ends before it is closed.
    UnterminatedFence,
    /// Text other than blanks follows the closing marker of a code fence.
    TrailingText,
}

/// Every failure of a core operation is one of these.
#[derive(Debug, Clone, Copy, PartialEq, Eq, Structural)]
pub enum CoreError {
    /// The archive could not be fetched.
    NetworkError,
    /// The archive could not be unpacked.
    ArchiveError,
    /// The file system refused an operation; `cause` is the error code of the
    /// operating system.
    FilesystemError { cause: i32 },
    /// A page is not written in the page dialect.
    FormatError(FormatFault),
    /// The configuration could not be used.
    ConfigError,
}

impl FormatFault {
    /// What is wrong with the page, in words.
    pub open spec fn describe_spec(self) -> Seq<char> {
        match self {
            FormatFault::MissingHeading => "the page does not begin with a heading"@,
            FormatFault::UnknownMarker => "a line of the page begins with no known marker"@,
            FormatFault::UnterminatedFence => "a code fence of the page is never closed"@,
            FormatFault::TrailingText => "text follows a code fence on its line"@,
        }
    }

    /// What is wrong with the page, in words.
    pub fn describe(self) -> (words: &'static str)
        ensures
            words@ == self.describe_spec(),
    {
        match self {
            FormatFault::MissingHeading => "the page does not begin with a heading",
            FormatFault::UnknownMarker => "a line of the page begins with no known marker",
            FormatFault::UnterminatedFence => "a code fence of the page is never closed",
            FormatFault::TrailingText => "text follows a code fence on its line",
        }
    }
}

impl CoreError {
    /// What went wrong, in words. The words for a page that is not in the
    /// dialect are those of its fault.
    pub open spec fn describe_spec(self) -> Seq<char> {
        match self {
            CoreError::NetworkError => "the archive could not be fetched"@,
            CoreError::ArchiveError => "the archive could not be unpacked"@,
            CoreError::FilesystemError { cause } => "the file system refused an operation"@,
            CoreError::FormatError(fault) => fault.describe_spec(),
            CoreError::ConfigError => "the configuration could not be used"@,
        }
    }

    /// What went wrong, in words.
    pub fn describe(self) -> (words: &'static str)
        ensures
            words@ == self.describe_spec(),
    {
        match self {
            CoreError::NetworkError => "the archive could not be fetched",
            CoreError::ArchiveError => "the archive could not be unpacked",
            CoreError::FilesystemError { cause } => "the file system refused an operation",
            CoreError::FormatError(fault) => fault.describe(),
            CoreError::ConfigError => "the configuration could not be used",
        }
    }
}

} // verus!
