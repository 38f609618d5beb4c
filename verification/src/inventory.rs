//! The binary inventory: duplicate groups persisted for a later link pass.
//!
//! Little-endian throughout. The file opens with a six-byte header —
//! version, header size, 32-bit group count — and then carries one
//! length-prefixed record per group. A group is a count of files followed
//! by each file's 64-bit inode, a length, and the path bytes verbatim:
//! paths are byte strings, never text, so names that are not UTF-8 survive
//! the round trip unchanged. Counts and lengths inside a record use a
//! variable-length integer encoding.

use vstd::bytes::{lemma_auto_spec_u16_to_from_le_bytes, lemma_auto_spec_u32_to_from_le_bytes, lemma_auto_spec_u64_to_from_le_bytes, spec_u16_from_le_bytes, spec_u16_to_le_bytes, spec_u32_from_le_bytes, spec_u32_to_le_bytes, spec_u64_from_le_bytes, spec_u64_to_le_bytes, u16_from_le_bytes, u16_to_le_bytes, u32_from_le_bytes, u32_to_le_bytes, u64_from_le_bytes, u64_to_le_bytes};
use vstd::prelude::*;

verus! {

broadcast use vstd::std_specs::vec::axiom_spec_len;

/// The inventory format version this codec writes.
pub const CURRENT_VERSION: u8 = 1;

/// The header size in bytes, recorded in the header itself.
pub const HEADER_SIZE: u8 = 6;

/// A path as raw bytes. Unix filenames may legally be non-UTF-8, so the
/// inventory never treats them as text.
#[derive(Clone, Debug)]
pub struct D2fnPath {
    pub path: Vec<u8>,
}

impl D2fnPath {
    /// A path from its raw bytes.
    pub fn new(path: Vec<u8>) -> (r: Self)
        ensures
            r.path == path,
    {
        D2fnPath { path }
    }

    /// The raw bytes.
    pub fn bytes(&self) -> (r: &Vec<u8>)
        ensures
            r == self.path,
    {
        &self.path
    }

    /// The raw bytes, owned.
    pub fn into_bytes(self) -> (r: Vec<u8>)
        ensures
            r == self.path,
    {
        self.path
    }
}

/// The inventory header.
#[derive(Clone, Copy, Debug)]
pub struct Header {
    pub version: u8,
    pub offset: u8,
    pub count: u32,
}

/// One file of a duplicate group: its inode and its path bytes.
#[derive(Clone, Debug)]
pub struct DuplicateFile {
    pub ino: u64,
    pub path: D2fnPath,
}

/// The mathematical value of a `DuplicateFile`.
pub struct DuplicateFileView {
    pub ino: u64,
    pub path: Seq<u8>,
}

impl View for DuplicateFile {
    type V = DuplicateFileView;

    open spec fn view(&self) -> DuplicateFileView {
        DuplicateFileView { ino: self.ino, path: self.path.path@ }
    }
}

/// A duplicate group: files believed to share content. The first file is
/// the keeper for link application.
#[derive(Clone, Debug)]
pub struct DuplicateGroup {
    pub files: Vec<DuplicateFile>,
}

impl View for DuplicateGroup {
    type V = Seq<DuplicateFileView>;

    open spec fn view(&self) -> Seq<DuplicateFileView> {
        self.files@.map_values(|f: DuplicateFile| f@)
    }
}

// ---------------------------------------------------------------------
// The encoding, mathematically
// ---------------------------------------------------------------------

/// The variable-length integer encoding: one byte below 251, otherwise a
/// tag byte and a fixed-width little-endian value.
pub open spec fn spec_varint(n: u64) -> Seq<u8> {
    if n < 251 {
        seq![n as u8]
    } else if n <= 0xFFFF {
        seq![251u8] + spec_u16_to_le_bytes(n as u16)
    } else if n <= 0xFFFFFFFF {
        seq![252u8] + spec_u32_to_le_bytes(n as u32)
    } else {
        seq![253u8] + spec_u64_to_le_bytes(n)
    }
}

/// One encoded file: inode, path length, path bytes.
pub open spec fn spec_encode_file(f: DuplicateFileView) -> Seq<u8> {
    spec_u64_to_le_bytes(f.ino) + spec_varint(f.path.len() as u64) + f.path
}

/// The files of a group, encoded in order.
pub open spec fn spec_encode_files(fs: Seq<DuplicateFileView>) -> Seq<u8>
    decreases fs.len(),
{
    if fs.len() == 0 {
        Seq::empty()
    } else {
        spec_encode_files(fs.drop_last()) + spec_encode_file(fs.last())
    }
}

/// A group's payload: the file count, then the files.
pub open spec fn spec_encode_group(g: Seq<DuplicateFileView>) -> Seq<u8> {
    spec_varint(g.len() as u64) + spec_encode_files(g)
}

/// A group's record: the payload behind its 32-bit length.
pub open spec fn spec_encode_record(g: Seq<DuplicateFileView>) -> Seq<u8> {
    spec_u32_to_le_bytes(spec_encode_group(g).len() as u32) + spec_encode_group(g)
}

/// All records, in order.
pub open spec fn spec_encode_records(gs: Seq<Seq<DuplicateFileView>>) -> Seq<u8>
    decreases gs.len(),
{
    if gs.len() == 0 {
        Seq::empty()
    } else {
        spec_encode_records(gs.drop_last()) + spec_encode_record(gs.last())
    }
}

/// The header bytes for a group count.
pub open spec fn spec_header_bytes(count: u32) -> Seq<u8> {
    seq![CURRENT_VERSION, HEADER_SIZE] + spec_u32_to_le_bytes(count)
}

/// A whole inventory image.
pub open spec fn spec_inventory_bytes(gs: Seq<Seq<DuplicateFileView>>) -> Seq<u8> {
    spec_header_bytes(gs.len() as u32) + spec_encode_records(gs)
}

/// A file fits the format: its path length is expressible.
pub open spec fn file_encodable(f: DuplicateFileView) -> bool {
    f.path.len() <= u64::MAX
}

/// A group fits the format: every file does, the count is expressible,
/// and the payload length fits its 32-bit prefix.
pub open spec fn group_encodable(g: Seq<DuplicateFileView>) -> bool {
    &&& forall|i: int| 0 <= i < g.len() ==> file_encodable(#[trigger] g[i])
    &&& g.len() <= u64::MAX
    &&& spec_encode_group(g).len() <= u32::MAX
}

/// An inventory fits the format.
pub open spec fn inventory_encodable(gs: Seq<Seq<DuplicateFileView>>) -> bool {
    &&& forall|i: int| 0 <= i < gs.len() ==> group_encodable(#[trigger] gs[i])
    &&& gs.len() <= u32::MAX
}

// ---------------------------------------------------------------------
// The decoding, mathematically
// ---------------------------------------------------------------------

/// Decodes a variable-length integer from the front of `s`: the value and
/// the bytes consumed.
pub open spec fn spec_dec_varint(s: Seq<u8>) -> Option<(u64, int)> {
    if s.len() == 0 {
        None
    } else {
        let tag = s[0];
        if tag < 251 {
            Some(((tag as u64), 1int))
        } else if tag == 251 {
            if s.len() >= 3 {
                Some(((spec_u16_from_le_bytes(s.subrange(1, 3)) as u64), 3int))
            } else {
                None
            }
        } else if tag == 252 {
            if s.len() >= 5 {
                Some(((spec_u32_from_le_bytes(s.subrange(1, 5)) as u64), 5int))
            } else {
                None
            }
        } else if tag == 253 {
            if s.len() >= 9 {
                Some((spec_u64_from_le_bytes(s.subrange(1, 9)), 9int))
            } else {
                None
            }
        } else {
            None
        }
    }
}

/// Decodes one file from the front of `s`.
pub open spec fn spec_dec_file(s: Seq<u8>) -> Option<(DuplicateFileView, int)> {
    if s.len() < 8 {
        None
    } else {
        let ino = spec_u64_from_le_bytes(s.subrange(0, 8));
        match spec_dec_varint(s.skip(8)) {
            None => None,
            Some((plen, used)) => {
                if s.len() >= 8 + used + plen {
                    Some(
                        (
                            DuplicateFileView {
                                ino: ino,
                                path: s.subrange(8 + used, 8 + used + plen as int),
                            },
                            8 + used + plen as int,
                        ),
                    )
                } else {
                    None
                }
            },
        }
    }
}

/// Decodes `n` files from the front of `s`.
pub open spec fn spec_dec_files(s: Seq<u8>, n: nat) -> Option<(Seq<DuplicateFileView>, int)>
    decreases n,
{
    if n == 0 {
        Some((Seq::empty(), 0int))
    } else {
        match spec_dec_files(s, (n - 1) as nat) {
            None => None,
            Some((fs, used)) => match spec_dec_file(s.skip(used)) {
                None => None,
                Some((f, used2)) => Some((fs.push(f), used + used2)),
            },
        }
    }
}

/// Decodes a group payload: the file count, then that many files.
pub open spec fn spec_dec_group(s: Seq<u8>) -> Option<Seq<DuplicateFileView>> {
    match spec_dec_varint(s) {
        None => None,
        Some((n, used)) => match spec_dec_files(s.skip(used), n as nat) {
            None => None,
            Some((fs, _)) => Some(fs),
        },
    }
}

/// Decodes one record from the front of `s`: a 32-bit payload length and
/// the payload it delimits.
pub open spec fn spec_dec_record(s: Seq<u8>) -> Option<(Seq<DuplicateFileView>, int)> {
    if s.len() < 4 {
        None
    } else {
        let n = spec_u32_from_le_bytes(s.subrange(0, 4)) as int;
        if s.len() >= 4 + n {
            match spec_dec_group(s.subrange(4, 4 + n)) {
                None => None,
                Some(g) => Some((g, 4 + n)),
            }
        } else {
            None
        }
    }
}

/// Decodes `n` records from the front of `s`.
pub open spec fn spec_dec_records(s: Seq<u8>, n: nat) -> Option<(Seq<Seq<DuplicateFileView>>, int)>
    decreases n,
{
    if n == 0 {
        Some((Seq::empty(), 0int))
    } else {
        match spec_dec_records(s, (n - 1) as nat) {
            None => None,
            Some((gs, used)) => match spec_dec_record(s.skip(used)) {
                None => None,
                Some((g, used2)) => Some((gs.push(g), used + used2)),
            },
        }
    }
}

/// Decodes a whole inventory image: the header, then as many records as
/// the header counts.
pub open spec fn spec_dec_inventory(s: Seq<u8>) -> Option<Seq<Seq<DuplicateFileView>>> {
    if s.len() < 6 {
        None
    } else {
        let count = spec_u32_from_le_bytes(s.subrange(2, 6));
        match spec_dec_records(s.skip(6), count as nat) {
            None => None,
            Some((gs, _)) => Some(gs),
        }
    }
}

// ---------------------------------------------------------------------
// Round trip
// ---------------------------------------------------------------------

/// A variable-length integer decodes to what was encoded, whatever
/// follows it.
pub proof fn lemma_varint_round_trip(n: u64, rest: Seq<u8>)
    ensures
        spec_dec_varint(spec_varint(n) + rest) == Some((n, spec_varint(n).len() as int)),
{
    lemma_auto_spec_u16_to_from_le_bytes();
    lemma_auto_spec_u32_to_from_le_bytes();
    lemma_auto_spec_u64_to_from_le_bytes();
    let s = spec_varint(n) + rest;
    if n < 251 {
        assert(s[0] == n as u8);
    } else if n <= 0xFFFF {
        assert(s[0] == 251u8);
        assert(s.subrange(1, 3) =~= spec_u16_to_le_bytes(n as u16));
    } else if n <= 0xFFFFFFFF {
        assert(s[0] == 252u8);
        assert(s.subrange(1, 5) =~= spec_u32_to_le_bytes(n as u32));
    } else {
        assert(s[0] == 253u8);
        assert(s.subrange(1, 9) =~= spec_u64_to_le_bytes(n));
    }
}

/// A file decodes to what was encoded, whatever follows it.
pub proof fn lemma_file_round_trip(f: DuplicateFileView, rest: Seq<u8>)
    requires
        file_encodable(f),
    ensures
        spec_dec_file(spec_encode_file(f) + rest) == Some(
            (f, spec_encode_file(f).len() as int),
        ),
{
    lemma_auto_spec_u64_to_from_le_bytes();
    let s = spec_encode_file(f) + rest;
    let vi = spec_varint(f.path.len() as u64);
    assert(s.subrange(0, 8) =~= spec_u64_to_le_bytes(f.ino));
    assert(s.skip(8) =~= vi + (f.path + rest));
    lemma_varint_round_trip(f.path.len() as u64, f.path + rest);
    let used = vi.len() as int;
    assert(s.len() >= 8 + used + f.path.len());
    assert(s.subrange(8 + used, 8 + used + f.path.len() as int) =~= f.path);
    assert(spec_encode_file(f).len() == 8 + used + f.path.len());
}

/// A run of files decodes to what was encoded, whatever follows it.
pub proof fn lemma_files_round_trip(fs: Seq<DuplicateFileView>, rest: Seq<u8>)
    requires
        forall|i: int| 0 <= i < fs.len() ==> file_encodable(#[trigger] fs[i]),
    ensures
        spec_dec_files(spec_encode_files(fs) + rest, fs.len()) == Some(
            (fs, spec_encode_files(fs).len() as int),
        ),
    decreases fs.len(),
{
    let s = spec_encode_files(fs) + rest;
    if fs.len() == 0 {
        assert(spec_dec_files(s, 0) == Some((Seq::<DuplicateFileView>::empty(), 0int)));
        assert(fs =~= Seq::<DuplicateFileView>::empty());
    } else {
        let pre = fs.drop_last();
        let f = fs.last();
        assert(s =~= spec_encode_files(pre) + (spec_encode_file(f) + rest));
        lemma_files_round_trip(pre, spec_encode_file(f) + rest);
        let used = spec_encode_files(pre).len() as int;
        assert(s.skip(used) =~= spec_encode_file(f) + rest);
        lemma_file_round_trip(f, rest);
        assert(pre.push(f) =~= fs);
    }
}

/// A record decodes to the group that was encoded, whatever follows it.
pub proof fn lemma_record_round_trip(g: Seq<DuplicateFileView>, rest: Seq<u8>)
    requires
        group_encodable(g),
    ensures
        spec_dec_record(spec_encode_record(g) + rest) == Some(
            (g, spec_encode_record(g).len() as int),
        ),
{
    lemma_auto_spec_u32_to_from_le_bytes();
    let payload = spec_encode_group(g);
    let s = spec_encode_record(g) + rest;
    assert(s.subrange(0, 4) =~= spec_u32_to_le_bytes(payload.len() as u32));
    assert(s.len() >= 4 + payload.len());
    assert(s.subrange(4, 4 + payload.len() as int) =~= payload);
    // the payload alone decodes to the group
    assert(payload =~= spec_varint(g.len() as u64) + (spec_encode_files(g)
        + Seq::<u8>::empty()));
    lemma_varint_round_trip(g.len() as u64, spec_encode_files(g) + Seq::<u8>::empty());
    let used = spec_varint(g.len() as u64).len() as int;
    assert(payload.skip(used) =~= spec_encode_files(g) + Seq::<u8>::empty());
    lemma_files_round_trip(g, Seq::<u8>::empty());
    assert(spec_dec_group(payload) == Some(g));
}

/// A run of records decodes to what was encoded, whatever follows it.
pub proof fn lemma_records_round_trip(gs: Seq<Seq<DuplicateFileView>>, rest: Seq<u8>)
    requires
        forall|i: int| 0 <= i < gs.len() ==> group_encodable(#[trigger] gs[i]),
    ensures
        spec_dec_records(spec_encode_records(gs) + rest, gs.len()) == Some(
            (gs, spec_encode_records(gs).len() as int),
        ),
    decreases gs.len(),
{
    let s = spec_encode_records(gs) + rest;
    if gs.len() == 0 {
        assert(gs =~= Seq::<Seq<DuplicateFileView>>::empty());
    } else {
        let pre = gs.drop_last();
        let g = gs.last();
        assert(s =~= spec_encode_records(pre) + (spec_encode_record(g) + rest));
        lemma_records_round_trip(pre, spec_encode_record(g) + rest);
        let used = spec_encode_records(pre).len() as int;
        assert(s.skip(used) =~= spec_encode_record(g) + rest);
        lemma_record_round_trip(g, rest);
        assert(pre.push(g) =~= gs);
    }
}

/// Path round trip: an encodable inventory decodes to exactly the groups
/// that were written, every path byte for byte — non-UTF-8 names
/// included, since nothing here reads paths as text.
pub proof fn lemma_inventory_round_trip(gs: Seq<Seq<DuplicateFileView>>)
    requires
        inventory_encodable(gs),
    ensures
        spec_dec_inventory(spec_inventory_bytes(gs)) == Some(gs),
{
    lemma_auto_spec_u32_to_from_le_bytes();
    let s = spec_inventory_bytes(gs);
    assert(s.len() >= 6);
    assert(s.subrange(2, 6) =~= spec_u32_to_le_bytes(gs.len() as u32));
    assert(s.skip(6) =~= spec_encode_records(gs) + Seq::<u8>::empty());
    lemma_records_round_trip(gs, Seq::<u8>::empty());
}

// ---------------------------------------------------------------------
// Errors
// ---------------------------------------------------------------------

/// What can go wrong while reading or writing an inventory image.
#[derive(Clone, Copy, Debug, PartialEq, Eq)]
pub enum InventoryError {
    /// More groups than the 32-bit header count can carry.
    TooManyGroups,
    /// A group's payload does not fit its 32-bit length prefix.
    OversizedGroup,
    /// The image ends early or carries an ill-formed record.
    Malformed,
}

/// The groups of an exec vector, mathematically.
pub open spec fn groups_view(gs: Seq<DuplicateGroup>) -> Seq<Seq<DuplicateFileView>> {
    gs.map_values(|g: DuplicateGroup| g@)
}

// ---------------------------------------------------------------------
// Encoding
// ---------------------------------------------------------------------

/// Appends the two little-endian bytes of `x`.
fn push_u16(buf: &mut Vec<u8>, x: u16)
    ensures
        final(buf)@ == old(buf)@ + spec_u16_to_le_bytes(x),
{
    let mut b = u16_to_le_bytes(x);
    buf.append(&mut b);
}

/// Appends the four little-endian bytes of `x`.
fn push_u32(buf: &mut Vec<u8>, x: u32)
    ensures
        final(buf)@ == old(buf)@ + spec_u32_to_le_bytes(x),
{
    let mut b = u32_to_le_bytes(x);
    buf.append(&mut b);
}

/// Appends the eight little-endian bytes of `x`.
fn push_u64(buf: &mut Vec<u8>, x: u64)
    ensures
        final(buf)@ == old(buf)@ + spec_u64_to_le_bytes(x),
{
    let mut b = u64_to_le_bytes(x);
    buf.append(&mut b);
}

/// Appends a variable-length integer.
fn push_varint(buf: &mut Vec<u8>, n: u64)
    ensures
        final(buf)@ == old(buf)@ + spec_varint(n),
{
    if n < 251 {
        buf.push(n as u8);
        proof {
            assert(buf@ =~= old(buf)@ + spec_varint(n));
        }
    } else if n <= 0xFFFF {
        buf.push(251);
        push_u16(buf, n as u16);
        proof {
            assert(buf@ =~= old(buf)@ + spec_varint(n));
        }
    } else if n <= 0xFFFFFFFF {
        buf.push(252);
        push_u32(buf, n as u32);
        proof {
            assert(buf@ =~= old(buf)@ + spec_varint(n));
        }
    } else {
        buf.push(253);
        push_u64(buf, n);
        proof {
            assert(buf@ =~= old(buf)@ + spec_varint(n));
        }
    }
}

/// Appends a copy of `src`.
fn push_bytes(buf: &mut Vec<u8>, src: &Vec<u8>)
    ensures
        final(buf)@ == old(buf)@ + src@,
{
    let mut i: usize = 0;
    while i < src.len()
        invariant
            0 <= i <= src@.len(),
            buf@ == old(buf)@ + src@.subrange(0, i as int),
        decreases src@.len() - i,
    {
        buf.push(src[i]);
        i = i + 1;
        proof {
            assert(old(buf)@ + src@.subrange(0, i as int) =~= (old(buf)@ + src@.subrange(
                0,
                i - 1,
            )).push(src@[i - 1]));
        }
    }
    proof {
        assert(src@.subrange(0, src@.len() as int) =~= src@);
        assert(buf@ =~= old(buf)@ + src@);
    }
}

/// Appends one encoded file.
fn push_file(buf: &mut Vec<u8>, f: &DuplicateFile)
    ensures
        final(buf)@ == old(buf)@ + spec_encode_file(f@),
{
    let plen = f.path.path.len();
    push_u64(buf, f.ino);
    push_varint(buf, plen as u64);
    push_bytes(buf, &f.path.path);
    proof {
        assert(buf@ =~= old(buf)@ + spec_encode_file(f@));
    }
}

/// A group's encoded payload.
fn encode_group_payload(g: &DuplicateGroup) -> (r: Vec<u8>)
    ensures
        r@ == spec_encode_group(g@),
{
    let mut buf: Vec<u8> = Vec::new();
    let n = g.files.len();
    push_varint(&mut buf, n as u64);
    let mut i: usize = 0;
    while i < n
        invariant
            0 <= i <= n == g.files@.len(),
            buf@ == spec_varint(n as u64) + spec_encode_files(g@.take(i as int)),
        decreases n - i,
    {
        push_file(&mut buf, &g.files[i]);
        i = i + 1;
        proof {
            assert(g@.take(i as int).drop_last() =~= g@.take(i - 1));
            assert(g@.take(i as int).last() == g@[i - 1]);
            assert(g@[i - 1] == g.files@[i - 1]@);
            assert(buf@ =~= spec_varint(n as u64) + spec_encode_files(g@.take(i as int)));
        }
    }
    proof {
        assert(g@.take(n as int) =~= g@);
        assert(buf@ =~= spec_encode_group(g@));
    }
    buf
}

/// Writes inventory images: a zeroed header placeholder until `export`
/// fills in the body and the real header.
pub struct InventoryWriter {
    pub buf: Vec<u8>,
}

impl InventoryWriter {
    /// A writer holding only the zero placeholder header: a reader of an
    /// abandoned image sees a count of zero, never truncated groups.
    pub fn create() -> (r: Self)
        ensures
            r.buf@ == seq![0u8, 0u8, 0u8, 0u8, 0u8, 0u8],
    {
        let mut buf: Vec<u8> = Vec::new();
        let mut i: usize = 0;
        while i < 6
            invariant
                0 <= i <= 6,
                buf@ =~= seq![0u8, 0u8, 0u8, 0u8, 0u8, 0u8].take(i as int),
            decreases 6 - i,
        {
            buf.push(0);
            i = i + 1;
            proof {
                assert(seq![0u8, 0u8, 0u8, 0u8, 0u8, 0u8].take(i as int) =~= seq![
                    0u8,
                    0u8,
                    0u8,
                    0u8,
                    0u8,
                    0u8,
                ].take(i - 1).push(0u8));
            }
        }
        proof {
            assert(seq![0u8, 0u8, 0u8, 0u8, 0u8, 0u8].take(6) =~= seq![
                0u8,
                0u8,
                0u8,
                0u8,
                0u8,
                0u8,
            ]);
        }
        InventoryWriter { buf }
    }

    /// Encodes every group and rewrites the header with the final count.
    /// Succeeds exactly when the groups fit the format; on failure the
    /// writer is left as it was.
    pub fn export(&mut self, groups: &Vec<DuplicateGroup>) -> (r: Result<(), InventoryError>)
        ensures
            r is Ok <==> inventory_encodable(groups_view(groups@)),
            r is Ok ==> final(self).buf@ == spec_inventory_bytes(groups_view(groups@)),
            r is Err ==> *final(self) == *old(self),
    {
        let gv = Ghost(groups_view(groups@));
        if groups.len() > 0xFFFFFFFFusize {
            proof {
                assert(gv@.len() > u32::MAX);
            }
            return Err(InventoryError::TooManyGroups);
        }
        let mut body: Vec<u8> = Vec::new();
        let mut i: usize = 0;
        while i < groups.len()
            invariant
                0 <= i <= groups@.len(),
                gv@ == groups_view(groups@),
                gv@.len() <= u32::MAX,
                body@ == spec_encode_records(gv@.take(i as int)),
                forall|k: int| 0 <= k < i ==> group_encodable(#[trigger] gv@[k]),
            decreases groups@.len() - i,
        {
            let payload = encode_group_payload(&groups[i]);
            if payload.len() > 0xFFFFFFFFusize {
                proof {
                    assert(!group_encodable(gv@[i as int]));
                }
                return Err(InventoryError::OversizedGroup);
            }
            proof {
                assert(group_encodable(gv@[i as int])) by {
                    let g = gv@[i as int];
                    assert(g == groups@[i as int]@);
                    assert(g.len() == groups@[i as int].files@.len());
                    assert(groups@[i as int].files.len() == groups@[i as int].files@.len());
                    assert forall|w: int| 0 <= w < g.len() implies file_encodable(
                        #[trigger] g[w],
                    ) by {
                        let fv = groups@[i as int].files@[w];
                        assert(fv.path.path.len() == fv.path.path@.len());
                        assert(g[w] == fv@);
                    }
                }
            }
            push_u32(&mut body, payload.len() as u32);
            push_bytes(&mut body, &payload);
            i = i + 1;
            proof {
                assert(gv@.take(i as int).drop_last() =~= gv@.take(i - 1));
                assert(gv@.take(i as int).last() == gv@[i - 1]);
                assert(body@ =~= spec_encode_records(gv@.take(i as int)));
            }
        }
        proof {
            assert(gv@.take(groups@.len() as int) =~= gv@);
        }
        let mut out: Vec<u8> = Vec::new();
        out.push(CURRENT_VERSION);
        out.push(HEADER_SIZE);
        push_u32(&mut out, groups.len() as u32);
        push_bytes(&mut out, &body);
        proof {
            assert(out@ =~= spec_inventory_bytes(gv@));
        }
        self.buf = out;
        Ok(())
    }

    /// The finished image.
    pub fn into_bytes(self) -> (r: Vec<u8>)
        ensures
            r == self.buf,
    {
        self.buf
    }
}

// ---------------------------------------------------------------------
// Decoding
// ---------------------------------------------------------------------

/// Decodes a variable-length integer inside the window `pos..end`.
fn dec_varint_exec(data: &Vec<u8>, pos: usize, end: usize) -> (r: Option<(u64, usize)>)
    requires
        pos <= end <= data@.len(),
    ensures
        match r {
            Some((v, used)) => spec_dec_varint(data@.subrange(pos as int, end as int)) == Some(
                (v, used as int),
            ) && pos + used <= end,
            None => spec_dec_varint(data@.subrange(pos as int, end as int)) is None,
        },
{
    let ghost w = data@.subrange(pos as int, end as int);
    if pos >= end {
        return None;
    }
    let tag = data[pos];
    proof {
        assert(w[0] == tag);
    }
    if tag < 251 {
        Some((tag as u64, 1))
    } else if tag == 251 {
        if end - pos >= 3 {
            let v = u16_from_le_bytes(vstd::slice::slice_subrange(data.as_slice(), pos + 1, pos + 3));
            proof {
                assert(data@.subrange(pos + 1, pos + 3) =~= w.subrange(1, 3));
            }
            Some((v as u64, 3))
        } else {
            None
        }
    } else if tag == 252 {
        if end - pos >= 5 {
            let v = u32_from_le_bytes(vstd::slice::slice_subrange(data.as_slice(), pos + 1, pos + 5));
            proof {
                assert(data@.subrange(pos + 1, pos + 5) =~= w.subrange(1, 5));
            }
            Some((v as u64, 5))
        } else {
            None
        }
    } else if tag == 253 {
        if end - pos >= 9 {
            let v = u64_from_le_bytes(vstd::slice::slice_subrange(data.as_slice(), pos + 1, pos + 9));
            proof {
                assert(data@.subrange(pos + 1, pos + 9) =~= w.subrange(1, 9));
            }
            Some((v, 9))
        } else {
            None
        }
    } else {
        None
    }
}

/// Copies `data[pos..pos+n]` out.
fn copy_range(data: &Vec<u8>, pos: usize, n: usize) -> (r: Vec<u8>)
    requires
        pos + n <= data@.len(),
    ensures
        r@ == data@.subrange(pos as int, pos + n),
{
    proof {
        assert(data@.len() <= usize::MAX) by {
            assert(data.len() == data@.len());
        }
    }
    let mut out: Vec<u8> = Vec::new();
    let mut i: usize = 0;
    while i < n
        invariant
            0 <= i <= n,
            pos + n <= data@.len(),
            data@.len() <= usize::MAX,
            out@ == data@.subrange(pos as int, pos + i),
        decreases n - i,
    {
        out.push(data[pos + i]);
        i = i + 1;
        proof {
            assert(data@.subrange(pos as int, pos + i) =~= data@.subrange(
                pos as int,
                pos + i - 1,
            ).push(data@[pos + i - 1]));
        }
    }
    out
}

/// Decodes one file inside the window `pos..end`.
fn dec_file_exec(data: &Vec<u8>, pos: usize, end: usize) -> (r: Option<(DuplicateFile, usize)>)
    requires
        pos <= end <= data@.len(),
    ensures
        match r {
            Some((f, used)) => spec_dec_file(data@.subrange(pos as int, end as int)) matches Some(
                (fv, u),
            ) && f@ == fv && used as int == u && pos + used <= end,
            None => spec_dec_file(data@.subrange(pos as int, end as int)) is None,
        },
{
    let ghost w = data@.subrange(pos as int, end as int);
    if end - pos < 8 {
        return None;
    }
    let ino = u64_from_le_bytes(vstd::slice::slice_subrange(data.as_slice(), pos, pos + 8));
    proof {
        assert(data@.subrange(pos as int, pos + 8) =~= w.subrange(0, 8));
        assert(w.skip(8) =~= data@.subrange(pos + 8, end as int));
    }
    let (plen, vused) = match dec_varint_exec(data, pos + 8, end) {
        Some(p) => p,
        None => {
            return None;
        },
    };
    let avail = end - (pos + 8 + vused);
    if plen > avail as u64 {
        proof {
            assert(w.len() < 8 + vused + plen);
        }
        return None;
    }
    let plen_u = plen as usize;
    let path = copy_range(data, pos + 8 + vused, plen_u);
    let used = 8 + vused + plen_u;
    let f = DuplicateFile { ino, path: D2fnPath { path } };
    proof {
        assert(w.len() >= 8 + vused + plen);
        assert(w.subrange(8 + vused as int, 8 + vused + plen as int) =~= data@.subrange(
            pos + 8 + vused,
            pos + 8 + vused + plen_u,
        ));
    }
    Some((f, used))
}

/// Decodes a group payload occupying exactly the window `pos..end`.
fn dec_group_exec(data: &Vec<u8>, pos: usize, end: usize) -> (r: Option<DuplicateGroup>)
    requires
        pos <= end <= data@.len(),
    ensures
        match r {
            Some(g) => spec_dec_group(data@.subrange(pos as int, end as int)) == Some(g@),
            None => spec_dec_group(data@.subrange(pos as int, end as int)) is None,
        },
{
    let ghost w = data@.subrange(pos as int, end as int);
    let (n, vused) = match dec_varint_exec(data, pos, end) {
        Some(p) => p,
        None => {
            return None;
        },
    };
    let ghost body = w.skip(vused as int);
    proof {
        assert(body =~= data@.subrange(pos + vused, end as int));
        assert(data@.len() <= usize::MAX) by {
            assert(data.len() == data@.len());
        }
    }
    let mut files: Vec<DuplicateFile> = Vec::new();
    let mut used: usize = 0;
    let mut k: u64 = 0;
    while k < n
        invariant
            0 <= k <= n,
            pos + vused + used <= end <= data@.len(),
            data@.len() <= usize::MAX,
            w == data@.subrange(pos as int, end as int),
            spec_dec_varint(w) == Some((n, vused as int)),
            body == w.skip(vused as int),
            body == data@.subrange(pos + vused, end as int),
            spec_dec_files(body, k as nat) == Some((groups_files_view(files@), used as int)),
        decreases n - k,
    {
        let f = match dec_file_exec(data, pos + vused + used, end) {
            Some((f, fused)) => {
                proof {
                    assert(body.skip(used as int) =~= data@.subrange(
                        pos + vused + used,
                        end as int,
                    ));
                }
                files.push(f);
                used = used + fused;
                proof {
                    assert(groups_files_view(files@) =~= groups_files_view(
                        files@.drop_last(),
                    ).push(files@.last()@));
                }
            },
            None => {
                proof {
                    assert(body.skip(used as int) =~= data@.subrange(
                        pos + vused + used,
                        end as int,
                    ));
                    assert(spec_dec_files(body, (k + 1) as nat) is None);
                    lemma_dec_files_none_mono(body, (k + 1) as nat, n as nat);
                }
                return None;
            },
        };
        k = k + 1;
    }
    let g = DuplicateGroup { files };
    proof {
        assert(g@ == groups_files_view(g.files@));
    }
    Some(g)
}

/// The views of a run of files.
pub open spec fn groups_files_view(fs: Seq<DuplicateFile>) -> Seq<DuplicateFileView> {
    fs.map_values(|f: DuplicateFile| f@)
}

/// Once decoding `n` files fails, decoding any more also fails.
proof fn lemma_dec_files_none_mono(s: Seq<u8>, n: nat, m: nat)
    requires
        n <= m,
        spec_dec_files(s, n) is None,
    ensures
        spec_dec_files(s, m) is None,
    decreases m - n,
{
    if n < m {
        lemma_dec_files_none_mono(s, (n + 1) as nat, m);
    }
}

/// Decodes one length-prefixed record starting at `pos`.
fn dec_record_exec(data: &Vec<u8>, pos: usize) -> (r: Option<(DuplicateGroup, usize)>)
    requires
        pos <= data@.len(),
    ensures
        match r {
            Some((g, used)) => spec_dec_record(data@.skip(pos as int)) matches Some((gv, u))
                && g@ == gv && used as int == u && pos + used <= data@.len(),
            None => spec_dec_record(data@.skip(pos as int)) is None,
        },
{
    let ghost w = data@.skip(pos as int);
    if data.len() - pos < 4 {
        return None;
    }
    let n = u32_from_le_bytes(vstd::slice::slice_subrange(data.as_slice(), pos, pos + 4));
    proof {
        assert(data@.subrange(pos as int, pos + 4) =~= w.subrange(0, 4));
    }
    let n_u = n as usize;
    if data.len() - pos - 4 < n_u {
        proof {
            assert(w.len() < 4 + n);
        }
        return None;
    }
    proof {
        assert(w.subrange(4, 4 + n as int) =~= data@.subrange(pos + 4, pos + 4 + n_u));
    }
    match dec_group_exec(data, pos + 4, pos + 4 + n_u) {
        Some(g) => Some((g, 4 + n_u)),
        None => None,
    }
}

/// Decodes a whole inventory image: the six-byte header, then exactly the
/// counted records. Fails exactly where the mathematical decoder does.
pub fn decode_inventory(data: &Vec<u8>) -> (r: Result<Vec<DuplicateGroup>, InventoryError>)
    ensures
        match r {
            Ok(gs) => spec_dec_inventory(data@) == Some(groups_view(gs@)),
            Err(_) => spec_dec_inventory(data@) is None,
        },
{
    if data.len() < 6 {
        return Err(InventoryError::Malformed);
    }
    let count = u32_from_le_bytes(vstd::slice::slice_subrange(data.as_slice(), 2, 6));
    let ghost tail = data@.skip(6);
    let mut out: Vec<DuplicateGroup> = Vec::new();
    let mut pos: usize = 6;
    let mut k: u32 = 0;
    while k < count
        invariant
            0 <= k <= count,
            6 <= pos <= data@.len(),
            data@.len() <= usize::MAX,
            tail == data@.skip(6),
            count == spec_u32_from_le_bytes(data@.subrange(2, 6)),
            spec_dec_records(tail, k as nat) == Some((groups_view(out@), pos - 6)),
        decreases count - k,
    {
        match dec_record_exec(data, pos) {
            Some((g, used)) => {
                proof {
                    assert(tail.skip(pos - 6) =~= data@.skip(pos as int));
                }
                out.push(g);
                pos = pos + used;
                proof {
                    assert(groups_view(out@) =~= groups_view(out@.drop_last()).push(
                        out@.last()@,
                    ));
                }
            },
            None => {
                proof {
                    assert(tail.skip(pos - 6) =~= data@.skip(pos as int));
                    assert(spec_dec_records(tail, (k + 1) as nat) is None);
                    lemma_dec_records_none_mono(tail, (k + 1) as nat, count as nat);
                }
                return Err(InventoryError::Malformed);
            },
        }
        k = k + 1;
    }
    proof {
        assert(data@.subrange(2, 6) =~= data@.subrange(2int, 6int));
    }
    Ok(out)
}

/// Once decoding `n` records fails, decoding any more also fails.
proof fn lemma_dec_records_none_mono(s: Seq<u8>, n: nat, m: nat)
    requires
        n <= m,
        spec_dec_records(s, n) is None,
    ensures
        spec_dec_records(s, m) is None,
    decreases m - n,
{
    if n < m {
        lemma_dec_records_none_mono(s, (n + 1) as nat, m);
    }
}

/// Reads an inventory image group by group.
pub struct InventoryReader {
    pub data: Vec<u8>,
    pub header: Header,
    pub pos: usize,
    pub read_count: u32,
}

impl InventoryReader {
    /// A reader over an image: parses the header and stands before the
    /// first record. Fails exactly when the image cannot hold a header.
    pub fn open(data: Vec<u8>) -> (r: Result<Self, InventoryError>)
        ensures
            match r {
                Ok(rd) => data@.len() >= 6 && rd.data == data && rd.pos == 6 && rd.read_count == 0
                    && rd.header.version == data@[0] && rd.header.offset == data@[1]
                    && rd.header.count == spec_u32_from_le_bytes(data@.subrange(2, 6)),
                Err(_) => data@.len() < 6,
            },
    {
        if data.len() < 6 {
            return Err(InventoryError::Malformed);
        }
        let count = u32_from_le_bytes(vstd::slice::slice_subrange(data.as_slice(), 2, 6));
        let header = Header { version: data[0], offset: data[1], count };
        Ok(InventoryReader { data, header, pos: 6, read_count: 0 })
    }

    /// How many groups the header counts.
    pub fn total(&self) -> (r: usize)
        ensures
            r == self.header.count as usize,
    {
        self.header.count as usize
    }

    /// The next group: decodes one record, or reports that the image is
    /// ill-formed there; yields nothing once the counted groups are out.
    pub fn next(&mut self) -> (r: Option<Result<DuplicateGroup, InventoryError>>)
        requires
            old(self).pos <= old(self).data@.len(),
        ensures
            final(self).data == old(self).data,
            final(self).header == old(self).header,
            match r {
                None => old(self).read_count >= old(self).header.count
                    && *final(self) == *old(self),
                Some(rr) => old(self).read_count < old(self).header.count
                    && final(self).read_count == old(self).read_count + 1 && (match rr {
                    Ok(g) => spec_dec_record(old(self).data@.skip(old(self).pos as int))
                        matches Some((gv, used)) && g@ == gv && final(self).pos == old(self).pos
                        + used,
                    Err(_) => spec_dec_record(old(self).data@.skip(old(self).pos as int)) is None
                        && final(self).pos == old(self).pos,
                }),
            },
    {
        if self.read_count >= self.header.count {
            return None;
        }
        self.read_count = self.read_count + 1;
        proof {
            assert(self.data@.len() <= usize::MAX) by {
                assert(self.data.len() == self.data@.len());
            }
        }
        match dec_record_exec(&self.data, self.pos) {
            Some((g, used)) => {
                self.pos = self.pos + used;
                Some(Ok(g))
            },
            None => Some(Err(InventoryError::Malformed)),
        }
    }
}

} // verus!
