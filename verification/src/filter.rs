//! Scan filters: predicates that decide which candidate files enter the
//! duplicate engine.
//!
//! Two stock variants exist: `NoFilter` accepts everything, and
//! `DefaultFilter` accepts exactly the files whose extension, folded to
//! lower case, stands in a fixed media/archive whitelist. The engine is
//! parametric over the filter, so callers may supply their own predicate.

use vstd::prelude::*;

use crate::record::{extension_bytes, extension_of, File};

verus! {

/// A predicate over candidate files. `spec_accepts` is the mathematical
/// meaning; `filter` must return exactly that.
pub trait ScanFilter {
    spec fn spec_accepts(&self, f: &File) -> bool;

    fn filter(&self, file: &File) -> (r: bool)
        ensures
            r == self.spec_accepts(file),
    ;
}

/// The filter that accepts every candidate.
pub struct NoFilter;

impl ScanFilter for NoFilter {
    open spec fn spec_accepts(&self, f: &File) -> bool {
        true
    }

    fn filter(&self, file: &File) -> (r: bool)
        ensures
            r == self.spec_accepts(file),
    {
        true
    }
}

/// A byte folded to ASCII lower case.
pub open spec fn spec_ascii_lower(b: u8) -> u8 {
    if 65 <= b <= 90 {
        (b + 32) as u8
    } else {
        b
    }
}

/// A byte sequence folded to ASCII lower case.
pub open spec fn spec_lower_bytes(s: Seq<u8>) -> Seq<u8> {
    s.map_values(|b: u8| spec_ascii_lower(b))
}

/// The stock whitelist: documents, build artifacts, archives, audio, video
/// and images, as lower-case extension bytes.
pub open spec fn default_ext_list() -> Seq<Seq<u8>> {
    seq![
        seq![112u8, 100u8, 102u8],
        seq![109u8, 100u8, 120u8],
        seq![101u8, 112u8, 117u8, 98u8],
        seq![100u8, 106u8, 118u8, 117u8],
        seq![120u8, 112u8, 115u8],
        seq![99u8, 108u8, 97u8, 115u8, 115u8],
        seq![101u8, 120u8, 101u8],
        seq![100u8, 108u8, 108u8],
        seq![115u8, 111u8],
        seq![98u8, 105u8, 110u8],
        seq![97u8, 112u8, 107u8],
        seq![122u8, 105u8, 112u8],
        seq![114u8, 97u8, 114u8],
        seq![55u8, 122u8],
        seq![105u8, 115u8, 111u8],
        seq![116u8, 97u8, 114u8],
        seq![116u8, 103u8, 122u8],
        seq![98u8, 97u8, 107u8],
        seq![109u8, 112u8, 51u8],
        seq![119u8, 97u8, 118u8],
        seq![102u8, 108u8, 97u8, 99u8],
        seq![97u8, 112u8, 101u8],
        seq![111u8, 103u8, 103u8],
        seq![97u8, 97u8, 99u8],
        seq![109u8, 112u8, 52u8],
        seq![114u8, 109u8],
        seq![109u8, 107u8, 118u8],
        seq![97u8, 118u8, 105u8],
        seq![109u8, 111u8, 118u8],
        seq![119u8, 109u8, 118u8],
        seq![102u8, 108u8, 118u8],
        seq![119u8, 101u8, 98u8, 109u8],
        seq![114u8, 109u8, 118u8, 98u8],
        seq![102u8, 52u8, 118u8],
        seq![109u8, 112u8, 103u8],
        seq![109u8, 112u8, 101u8, 103u8],
        seq![116u8, 115u8],
        seq![106u8, 112u8, 103u8],
        seq![98u8, 109u8, 112u8],
        seq![106u8, 112u8, 101u8, 103u8],
        seq![103u8, 105u8, 102u8],
        seq![112u8, 110u8, 103u8],
        seq![119u8, 101u8, 98u8, 112u8],
        seq![116u8, 105u8, 102u8, 102u8]
    ]
}

/// The whitelist filter: accepts a file iff its extension, folded to lower
/// case, stands in the held list.
pub struct DefaultFilter {
    /// The whitelist: lower-case extension byte strings.
    pub ext: Vec<Vec<u8>>,
}

impl DefaultFilter {
    /// The list this filter matches against.
    pub open spec fn spec_ext_list(&self) -> Seq<Seq<u8>> {
        self.ext@.map_values(|v: Vec<u8>| v@)
    }

    /// The filter with the stock whitelist.
    pub fn new() -> (r: Self)
        ensures
            r.spec_ext_list() == default_ext_list(),
    {
        let mut ext: Vec<Vec<u8>> = Vec::new();
    ext.push(vec![112u8, 100u8, 102u8]); // pdf
    ext.push(vec![109u8, 100u8, 120u8]); // mdx
    ext.push(vec![101u8, 112u8, 117u8, 98u8]); // epub
    ext.push(vec![100u8, 106u8, 118u8, 117u8]); // djvu
    ext.push(vec![120u8, 112u8, 115u8]); // xps
    ext.push(vec![99u8, 108u8, 97u8, 115u8, 115u8]); // class
    ext.push(vec![101u8, 120u8, 101u8]); // exe
    ext.push(vec![100u8, 108u8, 108u8]); // dll
    ext.push(vec![115u8, 111u8]); // so
    ext.push(vec![98u8, 105u8, 110u8]); // bin
    ext.push(vec![97u8, 112u8, 107u8]); // apk
    ext.push(vec![122u8, 105u8, 112u8]); // zip
    ext.push(vec![114u8, 97u8, 114u8]); // rar
    ext.push(vec![55u8, 122u8]); // 7z
    ext.push(vec![105u8, 115u8, 111u8]); // iso
    ext.push(vec![116u8, 97u8, 114u8]); // tar
    ext.push(vec![116u8, 103u8, 122u8]); // tgz
    ext.push(vec![98u8, 97u8, 107u8]); // bak
    ext.push(vec![109u8, 112u8, 51u8]); // mp3
    ext.push(vec![119u8, 97u8, 118u8]); // wav
    ext.push(vec![102u8, 108u8, 97u8, 99u8]); // flac
    ext.push(vec![97u8, 112u8, 101u8]); // ape
    ext.push(vec![111u8, 103u8, 103u8]); // ogg
    ext.push(vec![97u8, 97u8, 99u8]); // aac
    ext.push(vec![109u8, 112u8, 52u8]); // mp4
    ext.push(vec![114u8, 109u8]); // rm
    ext.push(vec![109u8, 107u8, 118u8]); // mkv
    ext.push(vec![97u8, 118u8, 105u8]); // avi
    ext.push(vec![109u8, 111u8, 118u8]); // mov
    ext.push(vec![119u8, 109u8, 118u8]); // wmv
    ext.push(vec![102u8, 108u8, 118u8]); // flv
    ext.push(vec![119u8, 101u8, 98u8, 109u8]); // webm
    ext.push(vec![114u8, 109u8, 118u8, 98u8]); // rmvb
    ext.push(vec![102u8, 52u8, 118u8]); // f4v
    ext.push(vec![109u8, 112u8, 103u8]); // mpg
    ext.push(vec![109u8, 112u8, 101u8, 103u8]); // mpeg
    ext.push(vec![116u8, 115u8]); // ts
    ext.push(vec![106u8, 112u8, 103u8]); // jpg
    ext.push(vec![98u8, 109u8, 112u8]); // bmp
    ext.push(vec![106u8, 112u8, 101u8, 103u8]); // jpeg
    ext.push(vec![103u8, 105u8, 102u8]); // gif
    ext.push(vec![112u8, 110u8, 103u8]); // png
    ext.push(vec![119u8, 101u8, 98u8, 112u8]); // webp
    ext.push(vec![116u8, 105u8, 102u8, 102u8]); // tiff
        let r = DefaultFilter { ext };
        proof {
            assert(r.spec_ext_list() =~~= default_ext_list());
        }
        r
    }

    /// The held whitelist.
    pub fn ext_set(&self) -> (r: &Vec<Vec<u8>>)
        ensures
            r@.map_values(|v: Vec<u8>| v@) == self.spec_ext_list(),
    {
        &self.ext
    }
}

/// Exact byte equality of two vectors.
fn bytes_eq(a: &Vec<u8>, b: &Vec<u8>) -> (r: bool)
    ensures
        r == (a@ == b@),
{
    if a.len() != b.len() {
        return false;
    }
    let mut i: usize = 0;
    while i < a.len()
        invariant
            0 <= i <= a@.len(),
            a@.len() == b@.len(),
            forall|j: int| 0 <= j < i ==> a@[j] == b@[j],
        decreases a@.len() - i,
    {
        if a[i] != b[i] {
            return false;
        }
        i = i + 1;
    }
    proof {
        assert(a@ =~= b@);
    }
    true
}

impl ScanFilter for DefaultFilter {
    /// True iff the file has an extension and its lower-case form stands in
    /// the whitelist.
    open spec fn spec_accepts(&self, f: &File) -> bool {
        match extension_of(f.path@) {
            Some(e) => self.spec_ext_list().contains(spec_lower_bytes(e)),
            None => false,
        }
    }

    fn filter(&self, file: &File) -> (r: bool)
        ensures
            r == self.spec_accepts(file),
    {
        let ext = match extension_bytes(&file.path) {
            Some(e) => e,
            None => {
                return false;
            },
        };
        let mut low: Vec<u8> = Vec::new();
        let mut i: usize = 0;
        while i < ext.len()
            invariant
                0 <= i <= ext@.len(),
                low@ =~= spec_lower_bytes(ext@.subrange(0, i as int)),
            decreases ext@.len() - i,
        {
            let b = ext[i];
            if 65 <= b && b <= 90 {
                low.push(b + 32);
            } else {
                low.push(b);
            }
            i = i + 1;
            proof {
                assert(ext@.subrange(0, i as int) =~= ext@.subrange(0, i - 1).push(ext@[i - 1]));
            }
        }
        proof {
            assert(ext@.subrange(0, ext@.len() as int) =~= ext@);
        }
        let mut k: usize = 0;
        while k < self.ext.len()
            invariant
                0 <= k <= self.ext@.len(),
                low@ == spec_lower_bytes(ext@),
                extension_of(file.path@) == Some(ext@),
                forall|j: int| 0 <= j < k ==> self.spec_ext_list()[j] != low@,
            decreases self.ext@.len() - k,
        {
            if bytes_eq(&self.ext[k], &low) {
                proof {
                    assert(self.spec_ext_list().contains(low@)) by {
                        assert(self.spec_ext_list()[k as int] == low@);
                    }
                }
                return true;
            }
            k = k + 1;
        }
        proof {
            if self.spec_ext_list().contains(low@) {
                let j = choose|j: int| 0 <= j < self.spec_ext_list().len() && self.spec_ext_list()[j] == low@;
                assert(self.spec_ext_list()[j] != low@);
            }
        }
        false
    }
}

/// Whitelist filtering composes as the design demands: when the filter
/// accepts a file, the file has an extension whose lower-case form stands
/// in the filter's list.
pub proof fn lemma_filter_composition(flt: &DefaultFilter, f: &File)
    requires
        flt.spec_accepts(f),
    ensures
        extension_of(f.path@) is Some,
        flt.spec_ext_list().contains(spec_lower_bytes(extension_of(f.path@).unwrap())),
{
}

} // verus!
