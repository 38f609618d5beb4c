//! Tape motion and configuration operations and their command codes.

use vstd::prelude::*;

verus! {

/// An operation the tape-op ioctl can carry.
#[derive(Clone, Copy, Debug, PartialEq, Eq)]
pub enum Operation {
    /// Write an end-of-file record.
    WriteEof,
    /// Forward space file.
    ForwardSpaceFile,
    /// Backward space file.
    BackwardSpaceFile,
    /// Forward space record.
    ForwardSpaceRecord,
    /// Backward space record.
    BackwardSpaceRecord,
    /// Rewind.
    Rewind,
    /// Rewind and put the drive offline.
    Offline,
    /// No operation; sets status only.
    NOP,
    /// Enable the controller cache.
    EnableCache,
    /// Disable the controller cache.
    DisableCache,
    /// Set the device block size.
    SetBlockSize,
    /// Set the device density.
    SetDensity,
    /// Erase to end of medium.
    EraseToEnd,
    /// Space to end of medium.
    JumpToEnd,
    /// Select the compression mode.
    SetCompression,
    /// Re-tension the tape.
    Retension,
    /// Write setmarks.
    WriteSetmark,
    /// Forward space setmark.
    ForwardSpaceSetmark,
    /// Backward space setmark.
    BackwardSpaceSetmark,
    /// Load the tape.
    Load,
    /// Write an end-of-file record without waiting.
    WriteEofImmediately,
}

/// The command code of each operation.
pub open spec fn spec_op_code(op: Operation) -> u16 {
    match op {
        Operation::WriteEof => 0,
        Operation::ForwardSpaceFile => 1,
        Operation::BackwardSpaceFile => 2,
        Operation::ForwardSpaceRecord => 3,
        Operation::BackwardSpaceRecord => 4,
        Operation::Rewind => 5,
        Operation::Offline => 6,
        Operation::NOP => 7,
        Operation::EnableCache => 8,
        Operation::DisableCache => 9,
        Operation::SetBlockSize => 10,
        Operation::SetDensity => 11,
        Operation::EraseToEnd => 12,
        Operation::JumpToEnd => 13,
        Operation::SetCompression => 14,
        Operation::Retension => 15,
        Operation::WriteSetmark => 16,
        Operation::ForwardSpaceSetmark => 17,
        Operation::BackwardSpaceSetmark => 18,
        Operation::Load => 19,
        Operation::WriteEofImmediately => 20,
    }
}

/// The structure a tape-op ioctl takes: the command and a count.
#[derive(Clone, Copy, Debug)]
pub struct MtOp {
    pub op: u16,
    pub count: i32,
}

impl Operation {
    /// The command code of this operation.
    pub fn code(&self) -> (r: u16)
        ensures
            r == spec_op_code(*self),
    {
        match self {
            Operation::WriteEof => 0,
            Operation::ForwardSpaceFile => 1,
            Operation::BackwardSpaceFile => 2,
            Operation::ForwardSpaceRecord => 3,
            Operation::BackwardSpaceRecord => 4,
            Operation::Rewind => 5,
            Operation::Offline => 6,
            Operation::NOP => 7,
            Operation::EnableCache => 8,
            Operation::DisableCache => 9,
            Operation::SetBlockSize => 10,
            Operation::SetDensity => 11,
            Operation::EraseToEnd => 12,
            Operation::JumpToEnd => 13,
            Operation::SetCompression => 14,
            Operation::Retension => 15,
            Operation::WriteSetmark => 16,
            Operation::ForwardSpaceSetmark => 17,
            Operation::BackwardSpaceSetmark => 18,
            Operation::Load => 19,
            Operation::WriteEofImmediately => 20,
        }
    }

    /// The ioctl structure for this operation and count.
    pub fn to_mt_op(&self, count: u32) -> (r: MtOp)
        ensures
            r.op == spec_op_code(*self),
            r.count == count as i32,
    {
        MtOp { op: self.code(), count: count as i32 }
    }
}

} // verus!
