//! The error taxonomy shared by every layer of the file system.

use vstd::prelude::*;

verus! {

/// Every way an operation of the file system can fail.
#[derive(Clone, Copy, Debug, PartialEq, Eq, Structural)]
pub enum FileSystemError {
    /// The given superblock does not describe a consistent volume layout.
    InvalidSuperBlock,
    /// No free data block, no free inode, or no free direct-pointer slot is left.
    AllocationError,
    /// The data block to be freed is already free.
    AllreadyFreeError,
    /// A block index, inode number or byte offset lies outside its valid range.
    IndexOutOfBounds,
    /// A directory name is empty, too long, or contains an invalid character.
    InvalidDirname,
    /// The inode still has links and may not be freed.
    INodeNotFreeable,
    /// A directory operation was attempted on an inode that is not a directory.
    INodeNotADirectory,
    /// An in-memory inode handle no longer matches the record on disk.
    INodeNotFoundNotUpToDate,
    /// No directory entry with the requested name exists.
    DirectoryNotFound,
    /// A read or write range lies outside the inode's valid byte domain.
    RangeError,
}

impl FileSystemError {
    /// A short description of the failure, for reports and logs.
    pub fn message(&self) -> (r: String)
        ensures
            r@ == match self {
                FileSystemError::InvalidSuperBlock => "Invalid superblock"@,
                FileSystemError::AllocationError => "No free room was found to allocate"@,
                FileSystemError::AllreadyFreeError => "Cannot free the block at the requested index, it is already free"@,
                FileSystemError::IndexOutOfBounds => "Index out of bounds"@,
                FileSystemError::InvalidDirname => "The provided directory name is not valid"@,
                FileSystemError::INodeNotFreeable => "Inode is not freeable, it still has links in the filesystem"@,
                FileSystemError::INodeNotADirectory => "Inode not a directory"@,
                FileSystemError::INodeNotFoundNotUpToDate => "Inode not up to date with the one in the filesystem"@,
                FileSystemError::DirectoryNotFound => "Directory not found in the filesystem"@,
                FileSystemError::RangeError => "Byte range out of the inode's valid domain"@,
            },
    {
        match self {
            FileSystemError::InvalidSuperBlock => "Invalid superblock".to_owned(),
            FileSystemError::AllocationError => "No free room was found to allocate".to_owned(),
            FileSystemError::AllreadyFreeError => "Cannot free the block at the requested index, it is already free".to_owned(),
            FileSystemError::IndexOutOfBounds => "Index out of bounds".to_owned(),
            FileSystemError::InvalidDirname => "The provided directory name is not valid".to_owned(),
            FileSystemError::INodeNotFreeable => "Inode is not freeable, it still has links in the filesystem".to_owned(),
            FileSystemError::INodeNotADirectory => "Inode not a directory".to_owned(),
            FileSystemError::INodeNotFoundNotUpToDate => "Inode not up to date with the one in the filesystem".to_owned(),
            FileSystemError::DirectoryNotFound => "Directory not found in the filesystem".to_owned(),
            FileSystemError::RangeError => "Byte range out of the inode's valid domain".to_owned(),
        }
    }
}

} // verus!
