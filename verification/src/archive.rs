//! Data model of the archive and tape metadata store. The store itself is
//! a database collaborator outside the core; these are the rows it keeps.

use vstd::prelude::*;

verus! {

/// One archive written to a tape.
#[derive(Clone, Debug)]
pub struct Archive {
    /// Unique archive id.
    pub id: u32,
    /// Tape id the archive lies on.
    pub tape: u8,
    /// Reported file number on the tape.
    pub tape_file_index: u32,
    /// Archive size in bytes.
    pub size: u32,
    /// 256-bit content hash of the archive.
    pub hash: [u8; 32],
    /// When the archive was written, as a Unix timestamp.
    pub ts: u64,
    /// Reserved flag word.
    pub flag: u32,
}

/// One file recorded on disk.
#[derive(Clone, Debug)]
pub struct FileOnDisk {
    pub id: u64,
    /// Inode on the filesystem; may conflict or be reused.
    pub inode: u64,
    /// File path.
    pub path: String,
    /// Flag word.
    pub flag: u32,
    /// Archive id the file went into.
    pub archive: u64,
    /// Version: the timestamp of the scan that recorded the file.
    pub version: u64,
}

/// One tape.
#[derive(Clone, Debug)]
pub struct Tape {
    /// Tape number.
    pub id: u16,
    /// Tape flag word.
    pub flag: u32,
    /// A description the operator entered.
    pub description: String,
}

} // verus!
