//! Latched error status of a SCSI tape drive.

use vstd::prelude::*;

verus! {

/// Cumulative read or write error counters.
#[derive(Clone, Copy, Debug)]
pub struct ErrorCounter {
    /// Total retries performed.
    pub retries: u32,
    /// Total corrections performed.
    pub corrected: u32,
    /// Total corrections successful.
    pub processed: u32,
    /// Total corrections or retries failed.
    pub failures: u32,
    /// Total bytes processed.
    pub nbytes: u64,
}

/// The error status structure: sense data and command bytes latched from
/// the last data and control operations, and the reserved counters.
#[derive(Clone, Copy, Debug)]
pub struct ScsiTapeErrors {
    /// Last sense data for data transfer.
    pub io_sense: [u8; 32],
    /// Residual count from the last data transfer.
    pub io_resid: i32,
    /// Command that caused the last data sense.
    pub io_cdb: [u8; 16],
    /// Last sense data for control calls.
    pub ctl_sense: [u8; 32],
    /// Residual count from the last control call.
    pub ctl_resid: i32,
    /// Command that caused the last control sense.
    pub ctl_cdb: [u8; 16],
    /// Write error counters (reserved).
    pub wterr: ErrorCounter,
    /// Read error counters (reserved).
    pub rderr: ErrorCounter,
}

} // verus!
