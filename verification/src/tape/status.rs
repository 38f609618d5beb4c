//! Decoding the kernel's tape status structure.

use vstd::prelude::*;

verus! {

/// A tape error of the translation layer.
#[derive(Clone, Copy, Debug, PartialEq, Eq)]
pub enum TapeError {
    /// The device type register does not name a SCSI tape.
    NotScsi(i16),
    /// The drive status register holds no known state.
    UnknownDriverState(i16),
    /// An end-of-tape model that the drive cannot be set to.
    InvalidEotModel,
}

/// A recording density, from the T10 density table.
#[derive(Clone, Copy, Debug)]
pub struct Density {
    pub code: u32,
    /// Bits per mm.
    pub bpmm: u32,
    /// Bits per inch.
    pub bpi: u32,
    /// Description.
    pub description: &'static str,
}

/// The density a code names; unknown codes map to the zero entry.
pub open spec fn spec_density(code: u32) -> Density {
    if code == 0x40 {
        Density { code: 0x40, bpmm: 4880, bpi: 123952, description: "LTO-1" }
    } else if code == 0x42 {
        Density { code: 0x42, bpmm: 7398, bpi: 187909, description: "LTO-2" }
    } else if code == 0x44 {
        Density { code: 0x44, bpmm: 9638, bpi: 244805, description: "LTO-3" }
    } else if code == 0x46 {
        Density { code: 0x46, bpmm: 12725, bpi: 323215, description: "LTO-4" }
    } else if code == 0x58 {
        Density { code: 0x58, bpmm: 15142, bpi: 384607, description: "LTO-5" }
    } else if code == 0x5A {
        Density { code: 0x5A, bpmm: 15142, bpi: 384607, description: "LTO-6" }
    } else if code == 0x5C {
        Density { code: 0x5C, bpmm: 19107, bpi: 485318, description: "LTO-7" }
    } else if code == 0x5D {
        Density { code: 0x5D, bpmm: 19107, bpi: 485318, description: "LTO-M8" }
    } else if code == 0x5E {
        Density { code: 0x5E, bpmm: 20669, bpi: 524993, description: "LTO-8" }
    } else if code == 0x60 {
        Density { code: 0x60, bpmm: 23031, bpi: 584987, description: "LTO-9" }
    } else {
        Density { code: 0, bpmm: 0, bpi: 0, description: "Unknown" }
    }
}

impl Density {
    /// The table entry for a density code.
    pub fn get(code: u32) -> (r: Density)
        ensures
            r == spec_density(code),
    {
        if code == 0x40 {
            Density { code: 0x40, bpmm: 4880, bpi: 123952, description: "LTO-1" }
        } else if code == 0x42 {
            Density { code: 0x42, bpmm: 7398, bpi: 187909, description: "LTO-2" }
        } else if code == 0x44 {
            Density { code: 0x44, bpmm: 9638, bpi: 244805, description: "LTO-3" }
        } else if code == 0x46 {
            Density { code: 0x46, bpmm: 12725, bpi: 323215, description: "LTO-4" }
        } else if code == 0x58 {
            Density { code: 0x58, bpmm: 15142, bpi: 384607, description: "LTO-5" }
        } else if code == 0x5A {
            Density { code: 0x5A, bpmm: 15142, bpi: 384607, description: "LTO-6" }
        } else if code == 0x5C {
            Density { code: 0x5C, bpmm: 19107, bpi: 485318, description: "LTO-7" }
        } else if code == 0x5D {
            Density { code: 0x5D, bpmm: 19107, bpi: 485318, description: "LTO-M8" }
        } else if code == 0x5E {
            Density { code: 0x5E, bpmm: 20669, bpi: 524993, description: "LTO-8" }
        } else if code == 0x60 {
            Density { code: 0x60, bpmm: 23031, bpi: 584987, description: "LTO-9" }
        } else {
            Density { code: 0, bpmm: 0, bpi: 0, description: "Unknown" }
        }
    }
}

/// The operating block size: variable, or fixed at a byte count.
#[derive(Clone, Copy, Debug)]
pub enum BlockSize {
    Variable,
    Fixed(u32),
}

/// Zero means variable; anything else is a fixed size.
pub open spec fn spec_block_size(v: i32) -> BlockSize {
    if v == 0 {
        BlockSize::Variable
    } else {
        BlockSize::Fixed(v as u32)
    }
}

impl BlockSize {
    /// The block size a register value names.
    pub fn from(v: i32) -> (r: BlockSize)
        ensures
            r == spec_block_size(v),
    {
        if v == 0 {
            BlockSize::Variable
        } else {
            BlockSize::Fixed(v as u32)
        }
    }
}

/// The raw status structure an MTIOCGET ioctl fills.
#[derive(Clone, Copy, Debug)]
pub struct RawStatus {
    /// Type of magnetic tape device.
    pub mt_type: i16,
    /// Drive status register (device dependent).
    pub dsreg: i16,
    /// Error register (device dependent).
    pub erreg: i16,
    /// Residual count.
    pub resid: i16,
    /// Presently operating block size.
    pub blksiz: i32,
    /// Presently operating density.
    pub density: i32,
    /// Presently operating compression.
    pub comp: u32,
    /// Block sizes for modes 0 to 3.
    pub blksiz0: i32,
    pub blksiz1: i32,
    pub blksiz2: i32,
    pub blksiz3: i32,
    /// Densities for modes 0 to 3.
    pub density0: i32,
    pub density1: i32,
    pub density2: i32,
    pub density3: i32,
    /// Compression types for modes 0 to 3 (not implemented).
    pub comp0: u32,
    pub comp1: u32,
    pub comp2: u32,
    pub comp3: u32,
    /// Relative file number of the current position.
    pub fileno: i32,
    /// Relative block number of the current position.
    pub blkno: i32,
}

/// What the drive is doing, from the status register.
#[derive(Clone, Copy, Debug, PartialEq, Eq)]
pub enum DriverState {
    Nil,
    Rest,
    Busy,
    Writing,
    WritingFilemarks,
    Erasing,
    Reading,
    SpacingForward,
    SpacingReverse,
    Pos,
    Rewinding,
    Retensioning,
    Unloading,
    Loading,
}

/// The state a register value names, if any.
pub open spec fn spec_from_repr(v: usize) -> Option<DriverState> {
    if v == 0 {
        Some(DriverState::Nil)
    } else if v == 1 {
        Some(DriverState::Rest)
    } else if v == 2 {
        Some(DriverState::Busy)
    } else if v == 20 {
        Some(DriverState::Writing)
    } else if v == 21 {
        Some(DriverState::WritingFilemarks)
    } else if v == 22 {
        Some(DriverState::Erasing)
    } else if v == 30 {
        Some(DriverState::Reading)
    } else if v == 40 {
        Some(DriverState::SpacingForward)
    } else if v == 41 {
        Some(DriverState::SpacingReverse)
    } else if v == 42 {
        Some(DriverState::Pos)
    } else if v == 43 {
        Some(DriverState::Rewinding)
    } else if v == 44 {
        Some(DriverState::Retensioning)
    } else if v == 45 {
        Some(DriverState::Unloading)
    } else if v == 46 {
        Some(DriverState::Loading)
    } else {
        None
    }
}

impl DriverState {
    /// The state a register value names, if any.
    pub fn from_repr(v: usize) -> (r: Option<DriverState>)
        ensures
            r == spec_from_repr(v),
    {
        if v == 0 {
            Some(DriverState::Nil)
        } else if v == 1 {
            Some(DriverState::Rest)
        } else if v == 2 {
            Some(DriverState::Busy)
        } else if v == 20 {
            Some(DriverState::Writing)
        } else if v == 21 {
            Some(DriverState::WritingFilemarks)
        } else if v == 22 {
            Some(DriverState::Erasing)
        } else if v == 30 {
            Some(DriverState::Reading)
        } else if v == 40 {
            Some(DriverState::SpacingForward)
        } else if v == 41 {
            Some(DriverState::SpacingReverse)
        } else if v == 42 {
            Some(DriverState::Pos)
        } else if v == 43 {
            Some(DriverState::Rewinding)
        } else if v == 44 {
            Some(DriverState::Retensioning)
        } else if v == 45 {
            Some(DriverState::Unloading)
        } else if v == 46 {
            Some(DriverState::Loading)
        } else {
            None
        }
    }
}

/// The compression mode in force.
#[derive(Clone, Copy, Debug, PartialEq, Eq)]
pub enum Compression {
    Off,
    On,
    Idrc,
    Dclz,
    Unknown,
}

/// The mode a register value names: 1 and the all-ones word both mean
/// enabled; unrecognized values are unknown.
pub open spec fn spec_compression(v: u32) -> Compression {
    if v == 0 {
        Compression::Off
    } else if v == 1 || v == 0xffffffff {
        Compression::On
    } else if v == 0x10 {
        Compression::Idrc
    } else if v == 0x20 {
        Compression::Dclz
    } else {
        Compression::Unknown
    }
}

impl Compression {
    /// The compression mode a register value names.
    pub fn from(v: u32) -> (r: Compression)
        ensures
            r == spec_compression(v),
    {
        if v == 0 {
            Compression::Off
        } else if v == 1 || v == 0xffffffff {
            Compression::On
        } else if v == 0x10 {
            Compression::Idrc
        } else if v == 0x20 {
            Compression::Dclz
        } else {
            Compression::Unknown
        }
    }
}

/// The decoded tape status.
#[derive(Clone, Copy, Debug)]
pub struct TapeStatus {
    pub state: DriverState,
    pub block_size: BlockSize,
    pub density: Density,
    pub compression: Compression,
    /// Relative file number of the current position.
    pub file_no: usize,
    /// Relative block number of the current position.
    pub block_no: usize,
    /// Residual count.
    pub residual: usize,
}

/// The status a raw structure decodes to: an error exactly when the drive
/// status register holds no known state.
pub open spec fn spec_tape_status(raw: RawStatus) -> Result<TapeStatus, TapeError> {
    match spec_from_repr(raw.dsreg as usize) {
        None => Err(TapeError::UnknownDriverState(raw.dsreg)),
        Some(state) => Ok(
            TapeStatus {
                state: state,
                block_size: spec_block_size(raw.blksiz),
                density: spec_density(raw.density as u32),
                compression: spec_compression(raw.comp),
                file_no: raw.fileno as usize,
                block_no: raw.blkno as usize,
                residual: raw.resid as usize,
            },
        ),
    }
}

impl TapeStatus {
    /// Decodes a raw status structure; fails exactly when the drive
    /// status register holds no known state.
    pub fn try_from(raw: RawStatus) -> (r: Result<TapeStatus, TapeError>)
        ensures
            r == spec_tape_status(raw),
    {
        let state = match DriverState::from_repr(raw.dsreg as usize) {
            Some(s) => s,
            None => {
                return Err(TapeError::UnknownDriverState(raw.dsreg));
            },
        };
        Ok(
            TapeStatus {
                state,
                block_size: BlockSize::from(raw.blksiz),
                density: Density::get(raw.density as u32),
                compression: Compression::from(raw.comp),
                file_no: raw.fileno as usize,
                block_no: raw.blkno as usize,
                residual: raw.resid as usize,
            },
        )
    }
}

/// What a full status query decodes to: a device that is not a SCSI tape
/// (type register other than 0x07) is rejected first, then the raw
/// structure is decoded.
pub open spec fn spec_parse_status(raw: RawStatus) -> Result<TapeStatus, TapeError> {
    if raw.mt_type != 0x07 {
        Err(TapeError::NotScsi(raw.mt_type))
    } else {
        spec_tape_status(raw)
    }
}

/// Decodes a status ioctl result, rejecting non-SCSI devices.
pub fn parse_status(raw: RawStatus) -> (r: Result<TapeStatus, TapeError>)
    ensures
        r == spec_parse_status(raw),
{
    if raw.mt_type != 0x07 {
        return Err(TapeError::NotScsi(raw.mt_type));
    }
    TapeStatus::try_from(raw)
}

} // verus!
