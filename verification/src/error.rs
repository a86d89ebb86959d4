//! Errors reported by the store.

use vstd::prelude::*;
use vstd::string::StringExecFns;

verus! {

/// Result type returned by the store.
pub type Result<T> = std::result::Result<T, KvStoreError>;

/// Error returned by the store.
#[derive(Debug, Clone, PartialEq, Eq)]
pub enum KvStoreError {
    /// Generic failure.
    GenericFailure,
    /// Failure when opening the database file.
    OpenFileFailure {
        /// Name of the file.
        name: String,
    },
    /// Failure when opening a temporary directory.
    OpenTmpDirFailure,
    /// Failure when moving a file.
    FileMoveFailure,
    /// Failure when flushing a file.
    FileFlushFailure,
    /// Failure when serializing a record.
    SerializationFailure,
    /// Failure when deserializing a record.
    DeserializationFailure,
    /// Failure writing to a file.
    WriteToFileFailure,
    /// Failure seeking in a file.
    SeekFileFailure,
    /// Failure reported by the page cache of the alternative engine.
    PageCache,
    /// The key is not in the store.
    KeyNotFound,
}

impl KvStoreError {
    /// The text that describes the error.
    pub open spec fn spec_message(self) -> Seq<char> {
        match self {
            KvStoreError::GenericFailure => "generic failure"@,
            KvStoreError::OpenFileFailure { name } => "failed to open file "@ + name@,
            KvStoreError::OpenTmpDirFailure => "failed to open temporary file"@,
            KvStoreError::FileMoveFailure => "failed to move file"@,
            KvStoreError::FileFlushFailure => "failed to flush file"@,
            KvStoreError::SerializationFailure => "failed to serialize input"@,
            KvStoreError::DeserializationFailure => "failed to deserialize input"@,
            KvStoreError::WriteToFileFailure => "failed to write to file"@,
            KvStoreError::SeekFileFailure => "failed to seek file"@,
            KvStoreError::PageCache => "page cache failure"@,
            KvStoreError::KeyNotFound => "Key not found"@,
        }
    }

    /// Describes the error in words, as it is shown to a client.
    pub fn message(&self) -> (text: String)
        ensures
            text@ == self.spec_message(),
    {
        match self {
            KvStoreError::GenericFailure => "generic failure".to_owned(),
            KvStoreError::OpenFileFailure { name } => {
                "failed to open file ".to_owned().concat(name.as_str())
            },
            KvStoreError::OpenTmpDirFailure => "failed to open temporary file".to_owned(),
            KvStoreError::FileMoveFailure => "failed to move file".to_owned(),
            KvStoreError::FileFlushFailure => "failed to flush file".to_owned(),
            KvStoreError::SerializationFailure => "failed to serialize input".to_owned(),
            KvStoreError::DeserializationFailure => "failed to deserialize input".to_owned(),
            KvStoreError::WriteToFileFailure => "failed to write to file".to_owned(),
            KvStoreError::SeekFileFailure => "failed to seek file".to_owned(),
            KvStoreError::PageCache => "page cache failure".to_owned(),
            KvStoreError::KeyNotFound => "Key not found".to_owned(),
        }
    }
}

} // verus!
