use vstd::prelude::*;

verus! {

/// The failures the store reports.
#[derive(Debug, Clone, Copy, PartialEq, Eq, Structural)]
pub enum Errors {
    FailedReadFromDataFile,
    FailedToWriteToDataFile,
    FailedToSyncDataFile,
    FailedToOpenDataFile,
    KeyIsEmpty,
    IndexUpdateFailed,
    KeyNotFound,
    DataFileNotFound,
    DirPathIsEmpty,
    DataFileSizeTooSmall,
    FailedToCreateDatabaseDir,
    FailedToReadDatabaseDir,
    DataDirectoryCorrupted,
    ReadDataFileEOF,
    InvalidLogRecordCrc,
}

pub type Result<T> = core::result::Result<T, Errors>;

impl Errors {
    /// A short description of the failure.
    pub fn message(&self) -> &'static str {
        match self {
            Errors::FailedReadFromDataFile => "failed to read from data file",
            Errors::FailedToWriteToDataFile => "failed to write to data file",
            Errors::FailedToSyncDataFile => "failed to sync data file",
            Errors::FailedToOpenDataFile => "failed to open data file",
            Errors::KeyIsEmpty => "the key is empty",
            Errors::IndexUpdateFailed => "memory index failed to update",
            Errors::KeyNotFound => "key is not found in database",
            Errors::DataFileNotFound => "data file is not found in database",
            Errors::DirPathIsEmpty => "the database directory path is empty",
            Errors::DataFileSizeTooSmall => "data file size must be greater than 0",
            Errors::FailedToCreateDatabaseDir => "failed to create the database directory",
            Errors::FailedToReadDatabaseDir => "failed to read the database directory",
            Errors::DataDirectoryCorrupted => "the database directory may be corrupted",
            Errors::ReadDataFileEOF => "read data file eof",
            Errors::InvalidLogRecordCrc => "invalid crc value, log record may be corrupted",
        }
    }
}

} // verus!
