//! 256-bit content checksums over byte buffers.
//!
//! A checksum covers either the whole buffer (`Full`) or its first `n`
//! bytes (`Part(n)`). The design assumes 256-bit collision resistance, so
//! callers may treat hash equality as content equality (restricted to the
//! covered prefix in `Part` mode).

use vstd::prelude::*;

verus! {

/// A 256-bit content hash, held as four little-endian 64-bit words.
#[derive(Clone, Copy, PartialEq, Eq, Structural, Debug)]
pub struct HashVal {
    pub w0: u64,
    pub w1: u64,
    pub w2: u64,
    pub w3: u64,
}

/// How much of a buffer a checksum covers.
#[derive(Clone, Copy)]
pub enum CompareMode {
    /// Hash the whole content.
    Full,
    /// Hash the first `n` bytes (all of them when the content is shorter).
    Part(usize),
}

impl CompareMode {
    /// The prefix of `data` that this mode covers.
    pub open spec fn spec_window(self, data: Seq<u8>) -> Seq<u8> {
        match self {
            CompareMode::Full => data,
            CompareMode::Part(n) => if data.len() <= n {
                data
            } else {
                data.subrange(0, n as int)
            },
        }
    }
}

/// The 256-bit BLAKE3 digest of a byte sequence: a pure function of the
/// bytes alone, computed by the blake3 crate.
pub uninterp spec fn blake3_of(data: Seq<u8>) -> HashVal;

/// Relies on blake3::hash: the digest of a byte slice depends on the bytes
/// alone; its 32 output bytes are repacked here as four little-endian words.
#[verifier::external_body]
fn blake3_digest(data: &[u8]) -> (h: HashVal)
    ensures
        h == blake3_of(data@),
{
    let d = blake3::hash(data);
    let b = d.as_bytes();
    HashVal {
        w0: u64::from_le_bytes(b[0..8].try_into().unwrap()),
        w1: u64::from_le_bytes(b[8..16].try_into().unwrap()),
        w2: u64::from_le_bytes(b[16..24].try_into().unwrap()),
        w3: u64::from_le_bytes(b[24..32].try_into().unwrap()),
    }
}

/// The hash that a checksum over `data` in `mode` yields.
pub open spec fn spec_checksum(data: Seq<u8>, mode: CompareMode) -> HashVal {
    blake3_of(mode.spec_window(data))
}

/// 256-bit checksum of `data`: the whole of it in `Full` mode, its first
/// `n` bytes in `Part(n)` mode.
pub fn checksum_bytes(data: &[u8], mode: CompareMode) -> (h: HashVal)
    ensures
        h == spec_checksum(data@, mode),
{
    match mode {
        CompareMode::Full => blake3_digest(data),
        CompareMode::Part(n) => {
            if data.len() <= n {
                blake3_digest(data)
            } else {
                let prefix = vstd::slice::slice_subrange(data, 0, n);
                blake3_digest(prefix)
            }
        },
    }
}

/// Two buffers with identical covered content yield identical checksums,
/// in `Full` mode and in any matching `Part` mode.
pub proof fn lemma_checksum_of_equal_content(a: Seq<u8>, b: Seq<u8>, mode: CompareMode)
    requires
        a == b,
    ensures
        spec_checksum(a, mode) == spec_checksum(b, mode),
{
}

/// In `Part(n)` mode the checksum reads nothing past the first `n` bytes:
/// buffers that agree on that prefix agree on the checksum, however they
/// differ afterwards.
pub proof fn lemma_part_checksum_ignores_tail(a: Seq<u8>, b: Seq<u8>, n: usize)
    requires
        a.len() >= n,
        b.len() >= n,
        a.subrange(0, n as int) == b.subrange(0, n as int),
    ensures
        spec_checksum(a, CompareMode::Part(n)) == spec_checksum(b, CompareMode::Part(n)),
{
    if a.len() == n {
        assert(CompareMode::Part(n).spec_window(a) =~= a.subrange(0, n as int));
    }
    if b.len() == n {
        assert(CompareMode::Part(n).spec_window(b) =~= b.subrange(0, n as int));
    }
}

} // verus!
