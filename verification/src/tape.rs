//! The SCSI tape facade's translation layer: everything around the ioctls
//! that is plain computation — status decoding, locate parameter
//! building, operation codes, end-of-tape models and the fixed density
//! table. The ioctls themselves live with the callers that own a device
//! descriptor.

pub mod eot;
pub mod errstat;
pub mod limit;
pub mod locate;
pub mod operate;
pub mod status;
pub mod status_ex;
