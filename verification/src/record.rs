//! Candidate file records and the extension code.
//!
//! Paths are kept byte-accurate: a Unix path is an arbitrary NUL-free byte
//! string, so the record stores raw bytes rather than text. The extension
//! code packs the trailing extension's ASCII bytes, case-folded, into a
//! 32-bit key used for cheap classification.

use vstd::prelude::*;

verus! {

/// Inode, link count, size and allocated blocks of a candidate file, as a
/// platform stat reports them.
#[derive(Clone, Copy, PartialEq, Eq, Structural, Debug)]
pub struct FileMetadata {
    /// Inode number.
    pub ino: u64,
    /// Number of hard links to the file.
    pub link_count: u64,
    /// File size in bytes.
    pub size: u64,
    /// Allocated blocks, in 512-byte units.
    pub blocks: u64,
}

/// A candidate file: its absolute path, byte-accurate, and its metadata.
#[derive(Clone, Debug)]
pub struct File {
    pub path: Vec<u8>,
    pub metadata: FileMetadata,
}

/// The mathematical value of a `File`: its path bytes and metadata.
pub struct FileView {
    pub path: Seq<u8>,
    pub meta: FileMetadata,
}

impl View for File {
    type V = FileView;

    open spec fn view(&self) -> FileView {
        FileView { path: self.path@, meta: self.metadata }
    }
}

/// The position of the last occurrence of `b` in `s`, or -1 when `s` does
/// not contain `b`.
pub open spec fn last_pos(s: Seq<u8>, b: u8) -> int
    decreases s.len(),
{
    if s.len() == 0 {
        -1
    } else if s[s.len() - 1] == b {
        s.len() - 1
    } else {
        last_pos(s.drop_last(), b)
    }
}

/// The file name: the bytes after the last path separator, or the whole
/// path when it has none.
pub open spec fn file_name_of(path: Seq<u8>) -> Seq<u8> {
    path.subrange(last_pos(path, 47) + 1, path.len() as int)
}

/// The extension: the bytes after the last dot of the file name, provided
/// that dot is neither absent nor leading (a name that only starts with a
/// dot, such as a hidden file, has no extension).
pub open spec fn extension_of(path: Seq<u8>) -> Option<Seq<u8>> {
    let name = file_name_of(path);
    let p = last_pos(name, 46);
    if p >= 1 {
        Some(name.subrange(p + 1, name.len() as int))
    } else {
        None
    }
}

/// The 6-bit slot an extension byte contributes: letters (bit 6 set) are
/// forced lower case, digits are masked to their low nibble.
pub open spec fn spec_byte_code(b: u8) -> u32 {
    if b & 64 != 0 {
        (b | 32) as u32
    } else {
        (b & 15) as u32
    }
}

/// The 32-bit extension code: each extension byte shifted into the next
/// 6-bit slot.
pub open spec fn spec_ext_code(ext: Seq<u8>) -> u32
    decreases ext.len(),
{
    if ext.len() == 0 {
        0
    } else {
        (spec_ext_code(ext.drop_last()) << 6) | spec_byte_code(ext.last())
    }
}

/// The extension code of a whole path: the code of its extension, or 0 for
/// a path without one. Distinct extensions may collide; size and partial
/// hash disambiguate.
pub open spec fn spec_ext_hash(path: Seq<u8>) -> u32 {
    match extension_of(path) {
        Some(e) => spec_ext_code(e),
        None => 0,
    }
}

/// The last position of `b` in `s` at or past `from`, or `None` when that
/// range does not contain it.
pub(crate) fn rfind_byte(s: &Vec<u8>, b: u8, from: usize) -> (r: Option<usize>)
    requires
        from <= s@.len(),
    ensures
        r matches Some(p) ==> from <= p < s@.len() && last_pos(s@.subrange(from as int, s@.len() as int), b) == p - from,
        r is None ==> last_pos(s@.subrange(from as int, s@.len() as int), b) == -1,
{
    let ghost tail = s@.subrange(from as int, s@.len() as int);
    let mut i: usize = s.len();
    while i > from
        invariant
            from <= i <= s@.len(),
            last_pos(tail, b) == last_pos(s@.subrange(from as int, i as int), b),
            tail == s@.subrange(from as int, s@.len() as int),
        decreases i,
    {
        proof {
            let cur = s@.subrange(from as int, i as int);
            assert(cur.drop_last() =~= s@.subrange(from as int, i - 1));
        }
        i = i - 1;
        if s[i] == b {
            proof {
                let cur = s@.subrange(from as int, i + 1);
                assert(cur[cur.len() - 1] == s@[i as int]);
            }
            return Some(i);
        }
        proof {
            let cur = s@.subrange(from as int, i + 1);
            assert(cur[cur.len() - 1] == s@[i as int]);
        }
    }
    proof {
        assert(s@.subrange(from as int, from as int) =~= Seq::<u8>::empty());
    }
    None
}

/// The extension code of `path`, as an executable function.
pub fn ext_hash(path: &Vec<u8>) -> (r: u32)
    ensures
        r == spec_ext_hash(path@),
{
    let n = path.len();
    let name_start: usize = match rfind_byte(path, 47, 0) {
        Some(p) => p + 1,
        None => 0,
    };
    proof {
        assert(path@.subrange(0, path@.len() as int) =~= path@);
        assert(file_name_of(path@) =~= path@.subrange(name_start as int, path@.len() as int));
    }
    let ghost name = file_name_of(path@);
    let dot = match rfind_byte(path, 46, name_start) {
        Some(p) => p,
        None => {
            return 0;
        },
    };
    if dot == name_start {
        return 0;
    }
    let ghost ext = extension_of(path@).unwrap();
    proof {
        assert(ext =~= path@.subrange(dot + 1, path@.len() as int));
    }
    let mut r: u32 = 0;
    let mut i: usize = dot + 1;
    while i < path.len()
        invariant
            dot + 1 <= i <= path@.len(),
            ext == path@.subrange(dot + 1, path@.len() as int),
            r == spec_ext_code(path@.subrange(dot + 1, i as int)),
        decreases path@.len() - i,
    {
        let b = path[i];
        let code: u32 = if b & 64 != 0 {
            (b | 32) as u32
        } else {
            (b & 15) as u32
        };
        r = (r << 6u32) | code;
        i = i + 1;
        proof {
            let cur = path@.subrange(dot + 1, i as int);
            assert(cur.drop_last() =~= path@.subrange(dot + 1, i - 1));
            assert(cur.last() == b);
        }
    }
    proof {
        assert(path@.subrange(dot + 1, path@.len() as int) =~= ext);
    }
    r
}

/// The extension bytes of `path`, or `None` when it has no extension.
pub fn extension_bytes(path: &Vec<u8>) -> (r: Option<Vec<u8>>)
    ensures
        match r {
            Some(v) => extension_of(path@) == Some(v@),
            None => extension_of(path@) is None,
        },
{
    let n = path.len();
    let name_start: usize = match rfind_byte(path, 47, 0) {
        Some(p) => p + 1,
        None => 0,
    };
    proof {
        assert(path@.subrange(0, path@.len() as int) =~= path@);
        assert(file_name_of(path@) =~= path@.subrange(name_start as int, path@.len() as int));
    }
    let dot = match rfind_byte(path, 46, name_start) {
        Some(p) => p,
        None => {
            return None;
        },
    };
    if dot == name_start {
        return None;
    }
    let mut v: Vec<u8> = Vec::new();
    let mut i: usize = dot + 1;
    while i < n
        invariant
            dot + 1 <= i <= n == path@.len(),
            v@ == path@.subrange(dot + 1, i as int),
        decreases n - i,
    {
        v.push(path[i]);
        i = i + 1;
        proof {
            assert(path@.subrange(dot + 1, i as int) =~= path@.subrange(dot + 1, i - 1).push(path@[i - 1]));
        }
    }
    proof {
        assert(extension_of(path@).unwrap() =~= path@.subrange(dot + 1, path@.len() as int));
    }
    Some(v)
}

/// Case folding for the extension code: a byte with bit 6 set is mapped to
/// its lower-case form, all others stay.
pub open spec fn spec_fold_lower(b: u8) -> u8 {
    if b & 64 != 0 {
        b | 32
    } else {
        b
    }
}

/// The extension code is case-insensitive: folding every byte to lower
/// case leaves the code unchanged.
pub proof fn lemma_ext_code_case_insensitive(e: Seq<u8>)
    ensures
        spec_ext_code(e.map_values(|b: u8| spec_fold_lower(b))) == spec_ext_code(e),
    decreases e.len(),
{
    let folded = e.map_values(|b: u8| spec_fold_lower(b));
    if e.len() > 0 {
        lemma_ext_code_case_insensitive(e.drop_last());
        assert(folded.drop_last() =~= e.drop_last().map_values(|b: u8| spec_fold_lower(b)));
        assert(folded.last() == spec_fold_lower(e.last()));
        let b = e.last();
        assert(b & 64 != 0 ==> ((b | 32) & 64 != 0 && ((b | 32) | 32) == (b | 32))) by (bit_vector);
    } else {
        assert(folded =~= e);
    }
}

} // verus!
