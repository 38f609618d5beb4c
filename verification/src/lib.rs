//! Content-addressed file deduplication: a two-stage hashing pipeline that
//! classifies candidate files by (extension code, size), confirms equivalence
//! by 256-bit content hash with progressive work, and emits a binary
//! inventory of duplicate groups; together with the pure translation layer of
//! a SCSI tape driver facade.

mod alist;
mod archive;
mod engine;
mod filter;
mod hash;
mod inventory;
mod record;
mod tape;

pub use hash::{blake3_of, checksum_bytes, CompareMode, HashVal};
pub use record::{ext_hash, extension_bytes, extension_of, File, FileMetadata, FileView};
pub use filter::{default_ext_list, DefaultFilter, NoFilter, ScanFilter};
pub use alist::{alist_distinct_keys, alist_find};
pub use engine::{Duplicate, HashRequest, PushOutcome, ScanState, Slot, SlotModel, StatusReport};
pub use inventory::{decode_inventory, D2fnPath, DuplicateFile, DuplicateGroup, Header, InventoryError, InventoryReader, InventoryWriter};
pub use archive::{Archive, FileOnDisk, Tape};
pub use tape::eot::{eot_model_code, eot_model_from_code, EotModel};
pub use tape::errstat::{ErrorCounter, ScsiTapeErrors};
pub use tape::limit::BlockLimit;
pub use tape::locate::{Location, LocationBuilder, MtLocate, Target};
pub use tape::operate::{MtOp, Operation};
pub use tape::status::{parse_status, BlockSize, Compression, Density, DriverState, RawStatus, TapeError, TapeStatus};
pub use tape::status_ex::{DensityCodeList, DensityEntry, DensityReport, MtDensity, Protection, TapeStatusEx};
