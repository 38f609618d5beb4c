//! Block limits a drive reports.

use vstd::prelude::*;

verus! {

/// The block limits of drive and media. The actual granularity is 2
/// raised to the power of the stored value.
#[derive(Clone, Copy, Debug)]
pub struct BlockLimit {
    pub granularity: u32,
    pub min_block_length: u32,
    pub max_block_length: u32,
}

} // verus!
