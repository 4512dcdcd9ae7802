//! File metadata and the change-proposal surface of the store: the types a
//! metadata backend exchanges, and the interfaces it implements.

use vstd::prelude::*;

verus! {

/// What a metadata backend records of one file.
pub struct FileMetadata {
    pub file_path: String,
    pub size: u64,
    pub version: u32,
    pub chunks: Vec<String>,
}

/// The kinds of change a proposal can carry.
pub enum Operation {
    AddFile,
    DeleteFile,
    UpdateFile,
}

/// A proposed metadata change.
pub struct ChangeProposal {
    pub file_path: String,
    pub operation: Operation,
    pub version: u32,
    pub timestamp: u64,
}

/// What a metadata backend offers.
pub trait MetadataManager {
    fn get_file_metadata(&self, file_path: &str) -> Option<FileMetadata>;

    fn save_file_metadata(&mut self, metadata: FileMetadata) -> Result<(), String>;
}

/// What a byte-level file backend offers.
pub trait FileSystem {
    fn read(&self, file_path: &str) -> Vec<u8>;

    fn write(&mut self, file_path: &str, data: &[u8]) -> Result<(), String>;

    fn delete(&mut self, file_path: &str) -> Result<(), String>;

    fn list(&self, directory: &str) -> Vec<String>;
}

} // verus!
