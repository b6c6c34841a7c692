//! What can go wrong while the index is read or changed.

use vstd::prelude::*;

verus! {

/// The failures that the index reports.
#[derive(Debug, PartialEq, Eq)]
pub enum IndexError {
    /// Every candidate for the pattern was tried and none is left.
    NoResults { pattern: String },
    /// The path does not name a directory that exists.
    PathDoesNotExist { path: String },
    /// The path is not absolute.
    RelativePath { path: String },
    /// No writable place for the index data could be found.
    BadDataDirectory,
    /// The key-value store was written by a version that cannot be read.
    IncompatibleStore { message: String },
    /// The key-value store could not be opened, read or written.
    StorageFailure { message: String },
    /// Bytes that were stored do not decode to what was stored there.
    CorruptIndex { message: String },
    /// The clock reads a time before the Unix epoch, which cannot be stored.
    TimeBeforeEpoch,
}

impl IndexError {
    /// The failure came from the key-value store.
    pub open spec fn is_storage(self) -> bool {
        self is StorageFailure || self is IncompatibleStore
    }

    /// The sentence shown to the user for this failure.
    pub open spec fn spec_message(self) -> Seq<char> {
        match self {
            IndexError::NoResults { pattern } => "No path found for pattern `"@ + pattern@ + "`"@,
            IndexError::PathDoesNotExist { path } => "Path `"@ + path@
                + "` is not a directory that exist"@,
            IndexError::RelativePath { path } => "Path `"@ + path@ + "` is not absolute"@,
            IndexError::BadDataDirectory => "Could not determine writable location for index data"@,
            IndexError::IncompatibleStore { message } => "Found incompatible database: "@
                + message@,
            IndexError::StorageFailure { message } => "Storage failure: "@ + message@,
            IndexError::CorruptIndex { message } => "Corrupt index: "@ + message@,
            IndexError::TimeBeforeEpoch => "The clock reads a time before the Unix epoch"@,
        }
    }

    /// Renders the failure as text.
    pub fn message(&self) -> (text: String)
        ensures
            text@ == self.spec_message(),
    {
        match self {
            IndexError::NoResults { pattern } => {
                let mut text = String::from_str("No path found for pattern `");
                text.append(pattern.as_str());
                text.append("`");
                text
            },
            IndexError::PathDoesNotExist { path } => {
                let mut text = String::from_str("Path `");
                text.append(path.as_str());
                text.append("` is not a directory that exist");
                text
            },
            IndexError::RelativePath { path } => {
                let mut text = String::from_str("Path `");
                text.append(path.as_str());
                text.append("` is not absolute");
                text
            },
            IndexError::BadDataDirectory => String::from_str(
                "Could not determine writable location for index data",
            ),
            IndexError::IncompatibleStore { message } => {
                let mut text = String::from_str("Found incompatible database: ");
                text.append(message.as_str());
                text
            },
            IndexError::StorageFailure { message } => {
                let mut text = String::from_str("Storage failure: ");
                text.append(message.as_str());
                text
            },
            IndexError::CorruptIndex { message } => {
                let mut text = String::from_str("Corrupt index: ");
                text.append(message.as_str());
                text
            },
            IndexError::TimeBeforeEpoch => String::from_str(
                "The clock reads a time before the Unix epoch",
            ),
        }
    }
}

} // verus!
