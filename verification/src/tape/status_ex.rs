//! The extended status a drive reports as an XML document. The document
//! is parsed outside; this is the decoded shape and the one piece of
//! logic read out of it.

use vstd::prelude::*;

use crate::tape::status::{spec_from_repr, DriverState, TapeError};

verus! {

/// Logical block protection parameters.
#[derive(Clone, Debug)]
pub struct Protection {
    /// Set to 1 if protection information is supported.
    pub protection_supported: i32,
    /// Current protection method.
    pub prot_method: u32,
    /// Length of protection information.
    pub pi_length: u32,
    /// Check protection on writes.
    pub lbp_w: u32,
    /// Check and include protection on reads.
    pub lbp_r: u32,
    /// Transfer protection information for recover-buffered-data.
    pub rbdp: u32,
}

/// A list of density codes of a medium type report.
#[derive(Clone, Debug)]
pub struct DensityCodeList {
    pub density_code: Vec<u8>,
}

/// One density entry of a density report.
#[derive(Clone, Debug)]
pub struct DensityEntry {
    pub primary_density_code: u8,
    pub secondary_density_code: u8,
    pub density_flags: String,
    pub bits_per_mm: u32,
    pub media_width: u32,
    pub tracks: u32,
    pub capacity: u32,
    pub assigning_org: String,
    pub density_name: String,
    pub description: String,
    pub medium_type: Option<u8>,
    pub num_density_codes: Option<i8>,
    pub density_code_list: Option<DensityCodeList>,
    pub medium_length: Option<u32>,
    pub medium_type_name: Option<String>,
}

/// One density report.
#[derive(Clone, Debug)]
pub struct DensityReport {
    pub medium_type_report: i32,
    pub media_report: i32,
    pub density_entry: Vec<DensityEntry>,
}

/// The density section of the extended status.
#[derive(Clone, Debug)]
pub struct MtDensity {
    /// Current medium density code.
    pub media_density: u32,
    pub density_report: Vec<DensityReport>,
}

/// The extended status of a drive.
#[derive(Clone, Debug)]
pub struct TapeStatusEx {
    /// Device driver name.
    pub periph_name: String,
    /// Device unit number.
    pub unit_number: u32,
    /// SCSI vendor id.
    pub vendor: String,
    /// SCSI product id.
    pub product: String,
    /// SCSI revision.
    pub revision: String,
    /// Serial number.
    pub serial_num: String,
    /// Maximum transfer size allowed by driver and controller.
    pub maxio: u32,
    /// Maximum transfer size reported by the controller.
    pub cpi_maxio: u32,
    /// Maximum block size supported by drive and media.
    pub max_blk: u32,
    /// Minimum block size supported by drive and media.
    pub min_blk: u32,
    /// Block granularity supported by drive and media.
    pub blk_gran: u32,
    /// Maximum possible transfer size.
    pub max_effective_iosize: u32,
    /// 1 for fixed block mode, 0 for variable.
    pub fixed_mode: i32,
    /// 1 if compression is supported.
    pub compression_supported: i32,
    /// 1 if compression is enabled.
    pub compression_enabled: i32,
    /// Numeric compression algorithm.
    pub compression_algorithm: u32,
    /// Logical block protection parameters.
    pub protection: Protection,
    /// Block size reported by the drive or set by the user.
    pub media_blocksize: u32,
    /// Calculated file number, -1 if unknown.
    pub calculated_fileno: i64,
    /// Calculated block number relative to the file, -1 if unknown.
    pub calculated_rel_blkno: i64,
    /// File number reported by the drive, -1 if unknown.
    pub reported_fileno: i64,
    /// Block number reported by the drive, -1 if unknown.
    pub reported_blkno: i64,
    /// Current partition number.
    pub partition: i64,
    /// 1 at the beginning of partition or tape, 0 if not, -1 if unknown.
    pub bop: i32,
    /// 1 past early warning, 0 if not, -1 if unknown.
    pub eop: i32,
    /// 1 past programmable early warning, 0 if not, -1 if unknown.
    pub bpew: i32,
    /// Residual of the last transfer.
    pub residual: i64,
    /// Current state of the driver.
    pub dsreg: i32,
    /// The density section.
    pub mtdensity: MtDensity,
}

impl TapeStatusEx {
    /// The driver state the extended status reports; fails exactly when
    /// the register holds no known state.
    pub fn flag(&self) -> (r: Result<DriverState, TapeError>)
        ensures
            match spec_from_repr(self.dsreg as usize) {
                Some(s) => r == Ok::<DriverState, TapeError>(s),
                None => r == Err::<DriverState, TapeError>(
                    TapeError::UnknownDriverState(self.dsreg as i16),
                ),
            },
    {
        match DriverState::from_repr(self.dsreg as usize) {
            Some(s) => Ok(s),
            None => Err(TapeError::UnknownDriverState(self.dsreg as i16)),
        }
    }
}

} // verus!
