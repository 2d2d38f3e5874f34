//! Archiving of sealed segments to a directory.
use vstd::prelude::*;
use crate::config::DiskArchiverConfig;

verus! {

/// Failures of an archiver.
#[derive(Debug, Clone, PartialEq, Eq)]
pub enum ServerArchiverError {
    FileToArchiveNotFound { file_path: String },
    CannotInitializeS3Archiver,
    InvalidS3Credentials,
    CannotArchiveFile { file_path: String },
    IoError,
}

/// Copies files under the directory of its configuration.
#[derive(Debug)]
pub struct DiskArchiver {
    pub config: DiskArchiverConfig,
}

impl DiskArchiver {
    pub fn new(config: DiskArchiverConfig) -> (r: Self)
        ensures
            r.config == config,
    {
        DiskArchiver { config }
    }
}

} // verus!
