//! The duplicate engine: record store, inode set, classification index and
//! the two hash maps, with the push and verification algorithms.
//!
//! Hashing a file reads it, which the engine cannot do itself; the caller
//! drives it. `push` classifies a candidate and either finishes at once or
//! answers with a hash request naming the records whose partial checksums
//! it needs; `supply_hashes` hands them back and completes the step.
//! `verify` likewise takes the full-content hashes it asked for through
//! `verify_candidates`. The contracts state every transition exactly over
//! the engine's mathematical state, a `ScanState`.

use vstd::prelude::*;

use crate::alist::{alist_distinct_keys, alist_find, lemma_alist_find, lemma_alist_find_after_push, lemma_alist_find_after_update, lemma_alist_find_is, lemma_alist_find_none};
use crate::filter::{NoFilter, ScanFilter};
use crate::hash::{spec_checksum, CompareMode, HashVal};
use crate::record::{ext_hash, spec_ext_hash, File, FileView};

verus! {

broadcast use vstd::seq_lib::lemma_seq_contains_after_push;

/// A classification slot: the index of the only record seen so far under a
/// key, or the set of partial hashes observed once a second record came.
pub enum Slot {
    FirstSeen(usize),
    Observed(Vec<HashVal>),
}

/// The mathematical value of a slot.
#[verifier::ext_equal]
pub enum SlotModel {
    FirstSeen(usize),
    Observed(Set<HashVal>),
}

impl Slot {
    pub open spec fn model(self) -> SlotModel {
        match self {
            Slot::FirstSeen(i) => SlotModel::FirstSeen(i),
            Slot::Observed(v) => SlotModel::Observed(v@.to_set()),
        }
    }
}

/// A request the engine answers a push with: the records whose partial
/// checksums it needs before it can finish the step.
#[derive(Clone, Copy, Debug)]
pub struct HashRequest {
    /// Index of the record just pushed; hash the first `window` bytes of it.
    pub current: usize,
    /// Index of the bucket's first record, when it was never hashed before.
    pub previous: Option<usize>,
    /// The classification key the request belongs to.
    pub key: u128,
    /// The partial-hash window in bytes.
    pub window: usize,
}

/// What a push did.
#[derive(Clone, Copy, Debug)]
pub enum PushOutcome {
    /// The file has size 0 and never enters the record store.
    SkippedEmpty,
    /// The inode was seen before; a repeated inode never creates a record.
    SkippedInode,
    /// First record under its classification key; no hashing needed yet.
    Recorded,
    /// The step finishes once `supply_hashes` answers this request.
    NeedsHash(HashRequest),
}

/// Aggregate progress counters.
#[derive(Clone, Debug)]
pub struct StatusReport {
    /// Files the scan walked past.
    pub scanned: usize,
    /// Times a partial-hash list grew to two or more records.
    pub duplicated: usize,
    /// Path bytes of the most recent file, for progress rendering.
    pub last_file: Vec<u8>,
}

impl Default for StatusReport {
    fn default() -> (r: Self)
        ensures
            r.scanned == 0 && r.duplicated == 0 && r.last_file@ == Seq::<u8>::empty(),
    {
        StatusReport { scanned: 0, duplicated: 0, last_file: Vec::new() }
    }
}

/// The engine's mathematical state.
#[verifier::ext_equal]
pub struct ScanState {
    pub records: Seq<FileView>,
    pub inos: Seq<u64>,
    pub index: Seq<(u128, SlotModel)>,
    pub partial: Seq<(HashVal, Seq<usize>)>,
    pub full: Seq<(HashVal, Seq<usize>)>,
    pub duplicated: nat,
    pub pending: Option<HashRequest>,
}

/// The classification key: extension code and size packed into one word.
pub open spec fn class_key(ext: u32, size: u64) -> u128 {
    ((ext as u128) * 0x10000000000000000 + (size as u128)) as u128
}

/// Distinct (extension code, size) pairs pack to distinct keys.
pub proof fn lemma_class_key_injective(e1: u32, s1: u64, e2: u32, s2: u64)
    requires
        class_key(e1, s1) == class_key(e2, s2),
    ensures
        e1 == e2 && s1 == s2,
{
    assert(e1 == e2 && s1 == s2) by (nonlinear_arith)
        requires
            (e1 as u128) * 0x10000000000000000 + (s1 as u128) == (e2 as u128) * 0x10000000000000000
                + (s2 as u128),
    ;
}

// ---------------------------------------------------------------------
// Occurrence of record indices in a hash-bucket map
// ---------------------------------------------------------------------

/// Index `i` stands in the list of bucket `j`.
pub open spec fn occurs_in(s: Seq<(HashVal, Seq<usize>)>, j: int, i: usize) -> bool {
    0 <= j < s.len() && s[j].1.contains(i)
}

/// Index `i` stands in some bucket.
pub open spec fn occurs(s: Seq<(HashVal, Seq<usize>)>, i: usize) -> bool {
    exists|j: int| occurs_in(s, j, i)
}

/// No index stands in two buckets of the map.
pub open spec fn buckets_internal_unique(s: Seq<(HashVal, Seq<usize>)>) -> bool {
    forall|j1: int, j2: int, i: usize|
        #[trigger] occurs_in(s, j1, i) && #[trigger] occurs_in(s, j2, i) ==> j1 == j2
}

/// No index stands in both maps.
pub open spec fn buckets_disjoint(
    a: Seq<(HashVal, Seq<usize>)>,
    b: Seq<(HashVal, Seq<usize>)>,
) -> bool {
    forall|i: usize| !(#[trigger] occurs(a, i) && #[trigger] occurs(b, i))
}

/// Every held index points into the record store.
pub open spec fn buckets_in_range(s: Seq<(HashVal, Seq<usize>)>, n: nat) -> bool {
    forall|j: int, i: usize| #[trigger] occurs_in(s, j, i) ==> i < n
}

/// Every bucket list holds each index at most once.
pub open spec fn buckets_nodup(s: Seq<(HashVal, Seq<usize>)>) -> bool {
    forall|j: int| 0 <= j < s.len() ==> (#[trigger] s[j]).1.no_duplicates()
}

/// Where appending under key `h` lands: the bucket holding `h`, or a new
/// one at the end.
pub open spec fn append_pos(s: Seq<(HashVal, Seq<usize>)>, h: HashVal) -> int {
    match alist_find(s, h) {
        Some(j) => j,
        None => s.len() as int,
    }
}

/// The map with index `i` appended under key `h`: extends the bucket that
/// holds `h`, or opens a singleton bucket.
pub open spec fn bucket_append(s: Seq<(HashVal, Seq<usize>)>, h: HashVal, i: usize) -> Seq<
    (HashVal, Seq<usize>),
> {
    match alist_find(s, h) {
        Some(j) => s.update(j, (h, s[j].1.push(i))),
        None => s.push((h, seq![i])),
    }
}

/// The map with the whole list `l` appended under key `h`.
pub open spec fn bucket_append_all(
    s: Seq<(HashVal, Seq<usize>)>,
    h: HashVal,
    l: Seq<usize>,
) -> Seq<(HashVal, Seq<usize>)> {
    match alist_find(s, h) {
        Some(j) => s.update(j, (h, s[j].1 + l)),
        None => s.push((h, l)),
    }
}

/// The length of the bucket holding `h`.
pub open spec fn bucket_len(s: Seq<(HashVal, Seq<usize>)>, h: HashVal) -> nat {
    match alist_find(s, h) {
        Some(j) => s[j].1.len(),
        None => 0,
    }
}

/// What appending one index does to occurrence, length and keys.
pub proof fn lemma_bucket_append(s: Seq<(HashVal, Seq<usize>)>, h: HashVal, i: usize)
    requires
        alist_distinct_keys(s),
    ensures
        alist_distinct_keys(bucket_append(s, h, i)),
        alist_find(bucket_append(s, h, i), h) == Some(append_pos(s, h)),
        forall|k: HashVal| k != h ==> alist_find(bucket_append(s, h, i), k) == alist_find(s, k),
        forall|j: int, x: usize|
            #[trigger] occurs_in(bucket_append(s, h, i), j, x) <==> (occurs_in(s, j, x) || (j
                == append_pos(s, h) && x == i)),
        bucket_len(bucket_append(s, h, i), h) == bucket_len(s, h) + 1,
        bucket_append(s, h, i).len() == if alist_find(s, h) is Some {
            s.len()
        } else {
            s.len() + 1
        },
        forall|j: int|
            0 <= j < s.len() && j != append_pos(s, h) ==> #[trigger] bucket_append(s, h, i)[j]
                == s[j],
        bucket_append(s, h, i)[append_pos(s, h)].0 == h,
        buckets_nodup(s) && !occurs(s, i) ==> buckets_nodup(bucket_append(s, h, i)),
{
    let t = bucket_append(s, h, i);
    lemma_alist_find(s, h);
    if buckets_nodup(s) && !occurs(s, i) {
        assert forall|j2: int| 0 <= j2 < t.len() implies (#[trigger] t[j2]).1.no_duplicates() by {
            match alist_find(s, h) {
                Some(j) => {
                    if j2 == j {
                        assert(!occurs_in(s, j, i));
                        assert(!s[j].1.contains(i));
                        assert(t[j].1 == s[j].1.push(i));
                        assert forall|w1: int, w2: int|
                            0 <= w1 < w2 < t[j].1.len() implies t[j].1[w1] != t[j].1[w2] by {
                            if w2 == t[j].1.len() - 1 {
                                assert(t[j].1[w1] == s[j].1[w1]);
                                assert(s[j].1.contains(s[j].1[w1]));
                            }
                        }
                    } else {
                        assert(t[j2] == s[j2]);
                    }
                },
                None => {
                    if j2 == s.len() {
                        assert(t[j2].1 == seq![i]);
                    } else {
                        assert(t[j2] == s[j2]);
                    }
                },
            }
        }
    }
    match alist_find(s, h) {
        Some(j) => {
            assert(forall|j2: int| 0 <= j2 < s.len() && j2 != j ==> t[j2] == s[j2]);
            assert(forall|k: HashVal| #[trigger] alist_find(t, k) == alist_find(s, k)) by {
                assert forall|k: HashVal| true implies #[trigger] alist_find(t, k) == alist_find(
                    s,
                    k,
                ) by {
                    lemma_alist_find_after_update(s, j, s[j].1.push(i), k);
                    assert(t =~= s.update(j, (s[j].0, s[j].1.push(i))));
                }
            }
            assert forall|j1: int, x: usize| #[trigger] occurs_in(t, j1, x) implies (occurs_in(
                s,
                j1,
                x,
            ) || (j1 == j && x == i)) by {
                if j1 == j {
                    assert(t[j].1 == s[j].1.push(i));
                }
            }
            assert forall|j1: int, x: usize|
                occurs_in(s, j1, x) || (j1 == j && x == i) implies #[trigger] occurs_in(
                t,
                j1,
                x,
            ) by {
                if j1 == j {
                    assert(t[j].1 == s[j].1.push(i));
                }
            }
        },
        None => {
            assert(forall|j2: int| 0 <= j2 < s.len() ==> t[j2] == s[j2]);
            assert forall|k: HashVal| true implies #[trigger] alist_find(t, k) == (if k == h {
                Some(s.len() as int)
            } else {
                alist_find(s, k)
            }) by {
                lemma_alist_find_after_push(s, h, seq![i], k);
            }
            assert forall|j1: int, x: usize| #[trigger] occurs_in(t, j1, x) implies (occurs_in(
                s,
                j1,
                x,
            ) || (j1 == s.len() && x == i)) by {
                if j1 == s.len() {
                    assert(t[j1].1 == seq![i]);
                    assert(t[j1].1[0] == i);
                }
            }
            assert forall|j1: int, x: usize|
                occurs_in(s, j1, x) || (j1 == s.len() && x == i) implies #[trigger] occurs_in(
                t,
                j1,
                x,
            ) by {
                if j1 == s.len() {
                    assert(t[j1].1 == seq![i]);
                    assert(t[j1].1[0] == i);
                }
            }
            assert forall|j1: int, j2: int|
                0 <= j1 < j2 < t.len() implies (#[trigger] t[j1]).0 != (#[trigger] t[j2]).0 by {
                if j2 == s.len() {
                    lemma_alist_find(s, h);
                }
            }
        },
    }
}

/// What appending a whole list does to occurrence and keys.
pub proof fn lemma_bucket_append_all(s: Seq<(HashVal, Seq<usize>)>, h: HashVal, l: Seq<usize>)
    requires
        alist_distinct_keys(s),
    ensures
        alist_distinct_keys(bucket_append_all(s, h, l)),
        alist_find(bucket_append_all(s, h, l), h) == Some(append_pos(s, h)),
        forall|k: HashVal| k != h ==> alist_find(bucket_append_all(s, h, l), k) == alist_find(s, k),
        forall|j: int, x: usize|
            #[trigger] occurs_in(bucket_append_all(s, h, l), j, x) <==> (occurs_in(s, j, x) || (j
                == append_pos(s, h) && l.contains(x))),
        bucket_append_all(s, h, l).len() == if alist_find(s, h) is Some {
            s.len()
        } else {
            s.len() + 1
        },
        forall|j: int|
            0 <= j < s.len() && j != append_pos(s, h) ==> #[trigger] bucket_append_all(s, h, l)[j]
                == s[j],
        bucket_append_all(s, h, l)[append_pos(s, h)].0 == h,
        buckets_nodup(s) && l.no_duplicates() && (forall|x: usize|
            l.contains(x) ==> !occurs(s, x)) ==> buckets_nodup(bucket_append_all(s, h, l)),
{
    let t = bucket_append_all(s, h, l);
    lemma_alist_find(s, h);
    if buckets_nodup(s) && l.no_duplicates() && (forall|x: usize| l.contains(x) ==> !occurs(s, x)) {
        assert forall|j2: int| 0 <= j2 < t.len() implies (#[trigger] t[j2]).1.no_duplicates() by {
            match alist_find(s, h) {
                Some(j) => {
                    if j2 == j {
                        let a = s[j].1;
                        let c = t[j].1;
                        assert(c == a + l);
                        assert forall|w1: int, w2: int|
                            0 <= w1 < w2 < c.len() implies c[w1] != c[w2] by {
                            if w2 < a.len() {
                                assert(c[w1] == a[w1] && c[w2] == a[w2]);
                            } else if w1 >= a.len() {
                                assert(c[w1] == l[w1 - a.len()] && c[w2] == l[w2 - a.len()]);
                            } else {
                                assert(c[w1] == a[w1] && c[w2] == l[w2 - a.len()]);
                                assert(l.contains(l[w2 - a.len()]));
                                if c[w1] == c[w2] {
                                    assert(a.contains(a[w1]));
                                    assert(occurs_in(s, j, a[w1]));
                                }
                            }
                        }
                    } else {
                        assert(t[j2] == s[j2]);
                    }
                },
                None => {
                    if j2 == s.len() {
                        assert(t[j2].1 == l);
                    } else {
                        assert(t[j2] == s[j2]);
                    }
                },
            }
        }
    }
    match alist_find(s, h) {
        Some(j) => {
            assert(forall|j2: int| 0 <= j2 < s.len() && j2 != j ==> t[j2] == s[j2]);
            assert forall|k: HashVal| true implies #[trigger] alist_find(t, k) == alist_find(
                s,
                k,
            ) by {
                lemma_alist_find_after_update(s, j, s[j].1 + l, k);
                assert(t =~= s.update(j, (s[j].0, s[j].1 + l)));
            }
            assert forall|j1: int, x: usize| #[trigger] occurs_in(t, j1, x) implies (occurs_in(
                s,
                j1,
                x,
            ) || (j1 == j && l.contains(x))) by {
                if j1 == j {
                    assert(t[j].1 == s[j].1 + l);
                    let w = choose|w: int| 0 <= w < t[j].1.len() && t[j].1[w] == x;
                    if w < s[j].1.len() {
                        assert(s[j].1[w] == x);
                    } else {
                        assert(l[w - s[j].1.len()] == x);
                    }
                }
            }
            assert forall|j1: int, x: usize|
                occurs_in(s, j1, x) || (j1 == j && l.contains(x)) implies #[trigger] occurs_in(
                t,
                j1,
                x,
            ) by {
                if j1 == j {
                    assert(t[j].1 == s[j].1 + l);
                    if occurs_in(s, j1, x) {
                        let w = choose|w: int| 0 <= w < s[j].1.len() && s[j].1[w] == x;
                        assert(t[j].1[w] == x);
                    } else {
                        let w = choose|w: int| 0 <= w < l.len() && l[w] == x;
                        assert(t[j].1[s[j].1.len() + w] == x);
                    }
                }
            }
        },
        None => {
            assert(forall|j2: int| 0 <= j2 < s.len() ==> t[j2] == s[j2]);
            assert forall|k: HashVal| true implies #[trigger] alist_find(t, k) == (if k == h {
                Some(s.len() as int)
            } else {
                alist_find(s, k)
            }) by {
                lemma_alist_find_after_push(s, h, l, k);
            }
            assert forall|j1: int, x: usize| #[trigger] occurs_in(t, j1, x) implies (occurs_in(
                s,
                j1,
                x,
            ) || (j1 == s.len() && l.contains(x))) by {
                if j1 == s.len() {
                    assert(t[j1].1 == l);
                }
            }
            assert forall|j1: int, x: usize|
                occurs_in(s, j1, x) || (j1 == s.len() && l.contains(x)) implies
                #[trigger] occurs_in(t, j1, x) by {
                if j1 == s.len() {
                    assert(t[j1].1 == l);
                }
            }
            assert forall|j1: int, j2: int|
                0 <= j1 < j2 < t.len() implies (#[trigger] t[j1]).0 != (#[trigger] t[j2]).0 by {
                if j2 == s.len() {
                    lemma_alist_find(s, h);
                }
            }
        },
    }
}

// ---------------------------------------------------------------------
// Well-formedness
// ---------------------------------------------------------------------

/// Slot `j` holds `FirstSeen(i)`.
pub open spec fn first_seen_at(index: Seq<(u128, SlotModel)>, j: int, i: usize) -> bool {
    0 <= j < index.len() && index[j].1 == SlotModel::FirstSeen(i)
}

/// Index `i` is the `FirstSeen` record of some classification slot.
pub open spec fn is_first_seen(index: Seq<(u128, SlotModel)>, i: usize) -> bool {
    exists|j: int| first_seen_at(index, j, i)
}

/// The pending hash request agrees with the state it was issued in.
pub open spec fn pending_wf(m: ScanState) -> bool {
    match m.pending {
        None => true,
        Some(req) => {
            &&& req.current < m.records.len()
            &&& !occurs(m.partial, req.current)
            &&& !occurs(m.full, req.current)
            &&& !is_first_seen(m.index, req.current)
            &&& match alist_find(m.index, req.key) {
                Some(j) => match req.previous {
                    Some(p) => m.index[j].1 == SlotModel::FirstSeen(p) && p != req.current,
                    None => m.index[j].1 is Observed,
                },
                None => false,
            }
        },
    }
}

/// `FirstSeen` records stand in no bucket of either map.
pub open spec fn first_seen_fresh(m: ScanState) -> bool {
    &&& forall|i: usize| is_first_seen(m.index, i) ==> !(#[trigger] occurs(m.partial, i))
    &&& forall|i: usize| is_first_seen(m.index, i) ==> !(#[trigger] occurs(m.full, i))
}

/// Well-formedness of the engine state: distinct inodes and keys, indices
/// in range, every record index in at most one bucket over both maps, and
/// `FirstSeen` records nowhere in a bucket.
pub open spec fn state_wf(m: ScanState) -> bool {
    &&& m.records.len() <= usize::MAX
    &&& m.inos.no_duplicates()
    &&& alist_distinct_keys(m.index)
    &&& alist_distinct_keys(m.partial)
    &&& alist_distinct_keys(m.full)
    &&& forall|j: int, i: usize| #[trigger] first_seen_at(m.index, j, i) ==> i < m.records.len()
    &&& forall|j1: int, j2: int, i: usize|
        #[trigger] first_seen_at(m.index, j1, i) && #[trigger] first_seen_at(m.index, j2, i)
            ==> j1 == j2
    &&& buckets_in_range(m.partial, m.records.len())
    &&& buckets_in_range(m.full, m.records.len())
    &&& buckets_internal_unique(m.partial)
    &&& buckets_internal_unique(m.full)
    &&& buckets_nodup(m.partial)
    &&& buckets_nodup(m.full)
    &&& buckets_disjoint(m.partial, m.full)
    &&& first_seen_fresh(m)
    &&& pending_wf(m)
}

// ---------------------------------------------------------------------
// The push transition
// ---------------------------------------------------------------------

/// The first phase of a push: inode and size screening, record append,
/// classification, and either completion or a hash request.
pub open spec fn spec_push1(m: ScanState, f: FileView, cs: usize) -> (ScanState, PushOutcome) {
    if f.meta.size == 0 {
        (m, PushOutcome::SkippedEmpty)
    } else if m.inos.contains(f.meta.ino) {
        (m, PushOutcome::SkippedInode)
    } else {
        let idx = m.records.len() as usize;
        let key = class_key(spec_ext_hash(f.path), f.meta.size);
        let m1 = ScanState { records: m.records.push(f), inos: m.inos.push(f.meta.ino), ..m };
        match alist_find(m.index, key) {
            None => (
                ScanState { index: m1.index.push((key, SlotModel::FirstSeen(idx))), ..m1 },
                PushOutcome::Recorded,
            ),
            Some(j) => {
                let req = HashRequest {
                    current: idx,
                    previous: match m.index[j].1 {
                        SlotModel::FirstSeen(p) => Some(p),
                        SlotModel::Observed(_) => None,
                    },
                    key: key,
                    window: cs,
                };
                (ScanState { pending: Some(req), ..m1 }, PushOutcome::NeedsHash(req))
            },
        }
    }
}

/// The second phase: the caller answers the pending request with the
/// partial checksum of the new record and, when asked, of the bucket's
/// first record. The slot becomes (or extends) an observed set, the first
/// record's hash opens its bucket, and the new record joins its own; the
/// duplicate counter grows when that bucket then holds two or more.
pub open spec fn spec_supply(m: ScanState, h_cur: HashVal, h_prev: Option<HashVal>) -> ScanState {
    match m.pending {
        None => m,
        Some(req) => {
            let base = match (req.previous, h_prev) {
                (Some(p), Some(hp)) => {
                    let slot = SlotModel::Observed(Set::empty().insert(hp).insert(h_cur));
                    let index1 = match alist_find(m.index, req.key) {
                        Some(j) => m.index.update(j, (req.key, slot)),
                        None => m.index,
                    };
                    ScanState { index: index1, partial: bucket_append(m.partial, hp, p), ..m }
                },
                (None, None) => {
                    let index1 = match alist_find(m.index, req.key) {
                        Some(j) => match m.index[j].1 {
                            SlotModel::Observed(hs) => m.index.update(
                                j,
                                (req.key, SlotModel::Observed(hs.insert(h_cur))),
                            ),
                            SlotModel::FirstSeen(_) => m.index,
                        },
                        None => m.index,
                    };
                    ScanState { index: index1, ..m }
                },
                _ => m,
            };
            let partial2 = bucket_append(base.partial, h_cur, req.current);
            ScanState {
                partial: partial2,
                duplicated: base.duplicated + (if bucket_len(partial2, h_cur) >= 2 {
                    1nat
                } else {
                    0nat
                }),
                pending: None,
                ..base
            }
        },
    }
}

/// A push preserves well-formedness, and on a state with no pending
/// request it leaves none unless it answered with a hash request.
pub proof fn lemma_push1_preserves_wf(m: ScanState, f: FileView, cs: usize)
    requires
        state_wf(m),
        m.records.len() < usize::MAX,
        m.pending is None,
    ensures
        state_wf(spec_push1(m, f, cs).0),
        spec_push1(m, f, cs).0.pending is Some <==> spec_push1(m, f, cs).1 is NeedsHash,
        spec_push1(m, f, cs).0.inos.contains(f.meta.ino) || f.meta.size == 0,
        forall|x: u64| m.inos.contains(x) ==> #[trigger] spec_push1(m, f, cs).0.inos.contains(x),
{
    let (m2, out) = spec_push1(m, f, cs);
    if f.meta.size != 0 && !m.inos.contains(f.meta.ino) {
        let idx = m.records.len() as usize;
        let key = class_key(spec_ext_hash(f.path), f.meta.size);
        lemma_alist_find(m.index, key);
        match alist_find(m.index, key) {
            None => {
                let t = m2.index;
                assert forall|j1: int, j2: int|
                    0 <= j1 < j2 < t.len() implies (#[trigger] t[j1]).0 != (#[trigger] t[j2]).0 by {
                    if j2 == m.index.len() {
                    }
                }
                assert forall|j: int, i: usize| #[trigger] first_seen_at(t, j, i) implies i
                    < m2.records.len() by {
                    if j < m.index.len() {
                        assert(first_seen_at(m.index, j, i));
                    }
                }
                assert forall|i: usize| is_first_seen(t, i) implies !(#[trigger] occurs(
                    m2.partial,
                    i,
                )) by {
                    let j = choose|j: int| first_seen_at(t, j, i);
                    if j < m.index.len() {
                        assert(first_seen_at(m.index, j, i));
                    } else {
                        assert(i == idx);
                        assert forall|jj: int| true implies !occurs_in(m.partial, jj, i) by {
                            if 0 <= jj < m.partial.len() {
                                assert(occurs_in(m.partial, jj, i) ==> i < m.records.len());
                            }
                        }
                    }
                }
                assert forall|i: usize| is_first_seen(t, i) implies !(#[trigger] occurs(
                    m2.full,
                    i,
                )) by {
                    let j = choose|j: int| first_seen_at(t, j, i);
                    if j < m.index.len() {
                        assert(first_seen_at(m.index, j, i));
                    } else {
                        assert(i == idx);
                        assert forall|jj: int| true implies !occurs_in(m.full, jj, i) by {
                            if 0 <= jj < m.full.len() {
                                assert(occurs_in(m.full, jj, i) ==> i < m.records.len());
                            }
                        }
                    }
                }
                assert forall|j1: int, j2: int, i: usize|
                    #[trigger] first_seen_at(t, j1, i) && #[trigger] first_seen_at(t, j2, i)
                    implies j1 == j2 by {
                    if j1 < m.index.len() && j2 < m.index.len() {
                        assert(first_seen_at(m.index, j1, i) && first_seen_at(m.index, j2, i));
                    }
                    if j1 < m.index.len() && j2 == m.index.len() {
                        assert(first_seen_at(m.index, j1, i) && i == idx);
                    }
                    if j2 < m.index.len() && j1 == m.index.len() {
                        assert(first_seen_at(m.index, j2, i) && i == idx);
                    }
                }
            },
            Some(j) => {
                let req = match out {
                    PushOutcome::NeedsHash(r) => r,
                    _ => arbitrary(),
                };
                assert(req.current == idx);
                assert forall|jj: int| true implies !occurs_in(m.partial, jj, idx) by {
                    if 0 <= jj < m.partial.len() {
                        assert(occurs_in(m.partial, jj, idx) ==> idx < m.records.len());
                    }
                }
                assert forall|jj: int| true implies !occurs_in(m.full, jj, idx) by {
                    if 0 <= jj < m.full.len() {
                        assert(occurs_in(m.full, jj, idx) ==> idx < m.records.len());
                    }
                }
                assert(!occurs(m.partial, idx));
                assert(!occurs(m.full, idx));
                assert(!is_first_seen(m2.index, idx)) by {
                    if is_first_seen(m.index, idx) {
                        let jj = choose|jj: int| first_seen_at(m.index, jj, idx);
                        assert(idx < m.records.len());
                    }
                }
                match m.index[j].1 {
                    SlotModel::FirstSeen(p) => {
                        assert(first_seen_at(m.index, j, p));
                        assert(p < m.records.len());
                    },
                    SlotModel::Observed(_) => {},
                }
            },
        }
    }
}

/// Answering a request preserves well-formedness and leaves no request
/// behind; records and inodes stay as they were.
pub proof fn lemma_supply_preserves_wf(m: ScanState, h_cur: HashVal, h_prev: Option<HashVal>)
    requires
        state_wf(m),
        m.pending matches Some(req) && (req.previous is Some <==> h_prev is Some),
    ensures
        state_wf(spec_supply(m, h_cur, h_prev)),
        spec_supply(m, h_cur, h_prev).pending is None,
        spec_supply(m, h_cur, h_prev).records == m.records,
        spec_supply(m, h_cur, h_prev).inos == m.inos,
        spec_supply(m, h_cur, h_prev).full == m.full,
{
    let req = m.pending.unwrap();
    let j = alist_find(m.index, req.key).unwrap();
    lemma_alist_find(m.index, req.key);
    let m2 = spec_supply(m, h_cur, h_prev);
    match (req.previous, h_prev) {
        (Some(p), Some(hp)) => {
            let index1 = m.index.update(j, (req.key, SlotModel::Observed(
                Set::empty().insert(hp).insert(h_cur),
            )));
            let partial1 = bucket_append(m.partial, hp, p);
            let partial2 = bucket_append(partial1, h_cur, req.current);
            assert(m.index[j].1 == SlotModel::FirstSeen(p));
            assert(first_seen_at(m.index, j, p));
            assert(is_first_seen(m.index, p));
            assert(!occurs(m.partial, p));
            assert(!occurs(m.full, p));
            lemma_bucket_append(m.partial, hp, p);
            lemma_bucket_append(partial1, h_cur, req.current);
            assert(!occurs(partial1, req.current)) by {
                if occurs(partial1, req.current) {
                    let jj = choose|jj: int| occurs_in(partial1, jj, req.current);
                    assert(occurs_in(m.partial, jj, req.current) || req.current == p);
                }
            }
            // distinct keys of index are kept by the in-place update
            assert(alist_distinct_keys(index1)) by {
                assert(forall|i: int| 0 <= i < m.index.len() ==> (#[trigger] index1[i]).0
                    == m.index[i].0);
            }
            // internal uniqueness of the twice-extended partial map
            assert(buckets_internal_unique(partial2)) by {
                assert(buckets_internal_unique(partial1)) by {
                    assert forall|j1: int, j2: int, i: usize|
                        #[trigger] occurs_in(partial1, j1, i) && #[trigger] occurs_in(
                        partial1,
                        j2,
                        i,
                    ) implies j1 == j2 by {
                        if i == p {
                            assert(!occurs_in(m.partial, j1, i));
                            assert(!occurs_in(m.partial, j2, i));
                        }
                    }
                }
                assert forall|j1: int, j2: int, i: usize|
                    #[trigger] occurs_in(partial2, j1, i) && #[trigger] occurs_in(
                    partial2,
                    j2,
                    i,
                ) implies j1 == j2 by {
                    if i == req.current {
                        assert(!occurs_in(partial1, j1, i));
                        assert(!occurs_in(partial1, j2, i));
                    }
                }
            }
            assert(buckets_in_range(partial2, m2.records.len())) by {
                assert forall|jj: int, i: usize| #[trigger] occurs_in(partial2, jj, i) implies i
                    < m2.records.len() by {
                    if occurs_in(partial1, jj, i) {
                        if !occurs_in(m.partial, jj, i) {
                            assert(i == p);
                        }
                    } else {
                        assert(i == req.current);
                    }
                }
            }
            assert(buckets_disjoint(partial2, m.full)) by {
                assert forall|i: usize| #[trigger] occurs(partial2, i) implies !occurs(
                    m.full,
                    i,
                ) by {
                    let jj = choose|jj: int| occurs_in(partial2, jj, i);
                    if occurs_in(partial1, jj, i) {
                        if occurs_in(m.partial, jj, i) {
                            assert(occurs(m.partial, i));
                        } else {
                            assert(i == p);
                        }
                    } else {
                        assert(i == req.current);
                    }
                }
            }
            assert forall|i: usize| is_first_seen(index1, i) implies !(#[trigger] occurs(
                partial2,
                i,
            )) by {
                let jj = choose|jj: int| first_seen_at(index1, jj, i);
                assert(jj != j);
                assert(index1[jj] == m.index[jj]);
                assert(first_seen_at(m.index, jj, i));
                assert(is_first_seen(m.index, i));
                assert(i != p) by {
                    if i == p {
                        assert(first_seen_at(m.index, j, p));
                    }
                }
                assert(i != req.current);
                assert(!occurs(m.partial, i));
                if occurs(partial2, i) {
                    let w = choose|w: int| occurs_in(partial2, w, i);
                    assert(occurs_in(partial1, w, i) || i == req.current);
                    assert(occurs_in(m.partial, w, i) || i == p);
                }
            }
            assert forall|i: usize| is_first_seen(index1, i) implies !(#[trigger] occurs(
                m2.full,
                i,
            )) by {
                let jj = choose|jj: int| first_seen_at(index1, jj, i);
                assert(jj != j);
                assert(index1[jj] == m.index[jj]);
                assert(first_seen_at(m.index, jj, i));
                assert(is_first_seen(m.index, i));
            }
            assert forall|j1: int, i: usize| #[trigger] first_seen_at(index1, j1, i) implies i
                < m2.records.len() by {
                assert(j1 != j);
                assert(first_seen_at(m.index, j1, i));
            }
            assert forall|j1: int, j2: int, i: usize|
                #[trigger] first_seen_at(index1, j1, i) && #[trigger] first_seen_at(
                index1,
                j2,
                i,
            ) implies j1 == j2 by {
                assert(j1 != j && j2 != j);
                assert(first_seen_at(m.index, j1, i) && first_seen_at(m.index, j2, i));
            }
        },
        (None, None) => {
            let partial2 = bucket_append(m.partial, h_cur, req.current);
            lemma_bucket_append(m.partial, h_cur, req.current);
            assert(m.index[j].1 is Observed);
            let index1 = m2.index;
            assert(forall|i: int| 0 <= i < m.index.len() ==> (#[trigger] index1[i]).0
                == m.index[i].0);
            assert(forall|i: int| 0 <= i < m.index.len() && i != j ==> (#[trigger] index1[i])
                == m.index[i]);
            assert(index1[j].1 is Observed);
            assert(buckets_internal_unique(partial2)) by {
                assert forall|j1: int, j2: int, i: usize|
                    #[trigger] occurs_in(partial2, j1, i) && #[trigger] occurs_in(
                    partial2,
                    j2,
                    i,
                ) implies j1 == j2 by {
                    if i == req.current {
                        assert(!occurs_in(m.partial, j1, i));
                        assert(!occurs_in(m.partial, j2, i));
                    }
                }
            }
            assert(buckets_in_range(partial2, m2.records.len())) by {
                assert forall|jj: int, i: usize| #[trigger] occurs_in(partial2, jj, i) implies i
                    < m2.records.len() by {
                    if !occurs_in(m.partial, jj, i) {
                        assert(i == req.current);
                    }
                }
            }
            assert(buckets_disjoint(partial2, m.full)) by {
                assert forall|i: usize| #[trigger] occurs(partial2, i) implies !occurs(
                    m.full,
                    i,
                ) by {
                    let jj = choose|jj: int| occurs_in(partial2, jj, i);
                    if occurs_in(m.partial, jj, i) {
                        assert(occurs(m.partial, i));
                    } else {
                        assert(i == req.current);
                    }
                }
            }
            assert forall|i: usize| is_first_seen(index1, i) implies !(#[trigger] occurs(
                partial2,
                i,
            )) by {
                let jj = choose|jj: int| first_seen_at(index1, jj, i);
                assert(jj != j);
                assert(index1[jj] == m.index[jj]);
                assert(first_seen_at(m.index, jj, i));
                assert(is_first_seen(m.index, i));
                assert(i != req.current);
                assert(!occurs(m.partial, i));
                if occurs(partial2, i) {
                    let w = choose|w: int| occurs_in(partial2, w, i);
                    assert(occurs_in(m.partial, w, i) || i == req.current);
                }
            }
            assert forall|i: usize| is_first_seen(index1, i) implies !(#[trigger] occurs(
                m2.full,
                i,
            )) by {
                let jj = choose|jj: int| first_seen_at(index1, jj, i);
                assert(jj != j);
                assert(index1[jj] == m.index[jj]);
                assert(first_seen_at(m.index, jj, i));
                assert(is_first_seen(m.index, i));
            }
            assert forall|j1: int, i: usize| #[trigger] first_seen_at(index1, j1, i) implies i
                < m2.records.len() by {
                assert(j1 != j);
                assert(first_seen_at(m.index, j1, i));
            }
            assert forall|j1: int, j2: int, i: usize|
                #[trigger] first_seen_at(index1, j1, i) && #[trigger] first_seen_at(
                index1,
                j2,
                i,
            ) implies j1 == j2 by {
                assert(j1 != j && j2 != j);
                assert(first_seen_at(m.index, j1, i) && first_seen_at(m.index, j2, i));
            }
            assert(alist_distinct_keys(index1));
        },
        _ => {},
    }
}

// ---------------------------------------------------------------------
// The engine
// ---------------------------------------------------------------------

/// The mathematical value of an exec bucket map.
pub open spec fn buckets_model(s: Seq<(HashVal, Vec<usize>)>) -> Seq<(HashVal, Seq<usize>)> {
    s.map_values(|p: (HashVal, Vec<usize>)| (p.0, p.1@))
}

/// The mathematical value of the exec classification index.
pub open spec fn index_model(s: Seq<(u128, Slot)>) -> Seq<(u128, SlotModel)> {
    s.map_values(|p: (u128, Slot)| (p.0, p.1.model()))
}

/// The state of a fresh engine.
pub open spec fn empty_state() -> ScanState {
    ScanState {
        records: Seq::empty(),
        inos: Seq::empty(),
        index: Seq::empty(),
        partial: Seq::empty(),
        full: Seq::empty(),
        duplicated: 0,
        pending: None,
    }
}

/// The duplicate engine: owns the record store, the inode set, the
/// classification index and both hash maps. Fields are public so that the
/// contracts can speak openly about them; every method requires and
/// preserves `wf`.
pub struct Duplicate<F: ScanFilter> {
    /// The root the scan starts from, as path bytes.
    pub root: Vec<u8>,
    /// The append-only record store.
    pub records: Vec<File>,
    /// Every inode ever admitted; a repeated inode never makes a record.
    pub inodes: Vec<u64>,
    /// The classification index over (extension code, size) keys.
    pub index: Vec<(u128, Slot)>,
    /// Partial hash to record indices.
    pub hash2files: Vec<(HashVal, Vec<usize>)>,
    /// Full hash to record indices; only verification fills it.
    pub full_hash2files: Vec<(HashVal, Vec<usize>)>,
    /// The scan filter.
    pub filter: F,
    /// Progress counters.
    pub status: StatusReport,
    /// The hash request the last push left open, if any.
    pub pending: Option<HashRequest>,
}

impl<F: ScanFilter> Duplicate<F> {
    /// The engine's mathematical state.
    pub open spec fn model(self) -> ScanState {
        ScanState {
            records: self.records@.map_values(|f: File| f@),
            inos: self.inodes@,
            index: index_model(self.index@),
            partial: buckets_model(self.hash2files@),
            full: buckets_model(self.full_hash2files@),
            duplicated: self.status.duplicated as nat,
            pending: self.pending,
        }
    }

    /// Well-formedness: the mathematical state is well-formed.
    pub open spec fn wf(self) -> bool {
        state_wf(self.model())
    }
}

/// Whether `v` holds `x`.
fn contains_u64(v: &Vec<u64>, x: u64) -> (r: bool)
    ensures
        r == v@.contains(x),
{
    let mut i: usize = 0;
    while i < v.len()
        invariant
            0 <= i <= v@.len(),
            forall|j: int| 0 <= j < i ==> v@[j] != x,
        decreases v@.len() - i,
    {
        if v[i] == x {
            return true;
        }
        i = i + 1;
    }
    false
}

/// Whether `v` holds `x`.
fn contains_hash(v: &Vec<HashVal>, x: HashVal) -> (r: bool)
    ensures
        r == v@.contains(x),
{
    let mut i: usize = 0;
    while i < v.len()
        invariant
            0 <= i <= v@.len(),
            forall|j: int| 0 <= j < i ==> v@[j] != x,
        decreases v@.len() - i,
    {
        if v[i] == x {
            return true;
        }
        i = i + 1;
    }
    false
}

/// The position of classification key `k`.
fn find_slot(v: &Vec<(u128, Slot)>, k: u128) -> (r: Option<usize>)
    ensures
        match r {
            Some(i) => i < v@.len() && alist_find(index_model(v@), k) == Some(i as int),
            None => alist_find(index_model(v@), k) is None,
        },
{
    let mut i: usize = 0;
    while i < v.len()
        invariant
            0 <= i <= v@.len(),
            forall|j: int| 0 <= j < i ==> (#[trigger] index_model(v@)[j]).0 != k,
        decreases v@.len() - i,
    {
        let pair = &v[i];
        if pair.0 == k {
            proof {
                lemma_alist_find_is(index_model(v@), k, i as int);
            }
            return Some(i);
        }
        proof {
            assert(index_model(v@)[i as int].0 == v@[i as int].0);
        }
        i = i + 1;
    }
    proof {
        lemma_alist_find_none(index_model(v@), k);
    }
    None
}

/// The position of bucket key `k`.
fn find_bucket(v: &Vec<(HashVal, Vec<usize>)>, k: HashVal) -> (r: Option<usize>)
    ensures
        match r {
            Some(i) => i < v@.len() && alist_find(buckets_model(v@), k) == Some(i as int),
            None => alist_find(buckets_model(v@), k) is None,
        },
{
    let mut i: usize = 0;
    while i < v.len()
        invariant
            0 <= i <= v@.len(),
            forall|j: int| 0 <= j < i ==> (#[trigger] buckets_model(v@)[j]).0 != k,
        decreases v@.len() - i,
    {
        let pair = &v[i];
        if pair.0 == k {
            proof {
                lemma_alist_find_is(buckets_model(v@), k, i as int);
            }
            return Some(i);
        }
        proof {
            assert(buckets_model(v@)[i as int].0 == v@[i as int].0);
        }
        i = i + 1;
    }
    proof {
        lemma_alist_find_none(buckets_model(v@), k);
    }
    None
}

/// Appends record index `i` under key `h` and returns the bucket's new
/// length.
fn bucket_append_exec(v: &mut Vec<(HashVal, Vec<usize>)>, h: HashVal, i: usize) -> (newlen: usize)
    requires
        alist_distinct_keys(buckets_model(old(v)@)),
    ensures
        buckets_model(final(v)@) == bucket_append(buckets_model(old(v)@), h, i),
        newlen == bucket_len(bucket_append(buckets_model(old(v)@), h, i), h),
        newlen >= 1,
{
    let ghost s = buckets_model(old(v)@);
    proof {
        lemma_bucket_append(s, h, i);
        lemma_alist_find(s, h);
    }
    match find_bucket(v, h) {
        Some(j) => {
            let mut pair = v.remove(j);
            pair.1.push(i);
            let n = pair.1.len();
            v.insert(j, pair);
            proof {
                assert(v@ =~= old(v)@.update(j as int, v@[j as int]));
                assert(buckets_model(v@) =~~= bucket_append(s, h, i));
                assert(bucket_append(s, h, i)[j as int].1.len() == n);
            }
            n
        },
        None => {
            let mut l: Vec<usize> = Vec::new();
            l.push(i);
            v.push((h, l));
            proof {
                assert(buckets_model(v@) =~~= bucket_append(s, h, i));
                assert(bucket_append(s, h, i)[s.len() as int].1.len() == 1);
            }
            1
        },
    }
}

/// The classification key, computed.
pub fn class_key_exec(ext: u32, size: u64) -> (r: u128)
    ensures
        r == class_key(ext, size),
{
    (ext as u128) * 0x10000000000000000 + (size as u128)
}

impl Duplicate<NoFilter> {
    /// A fresh engine over the tree rooted at `root`, accepting every file.
    pub fn new(root: Vec<u8>) -> (r: Self)
        ensures
            r.wf(),
            r.model() == empty_state(),
            r.root == root,
            r.status.scanned == 0,
    {
        let r = Duplicate {
            root,
            records: Vec::new(),
            inodes: Vec::new(),
            index: Vec::new(),
            hash2files: Vec::new(),
            full_hash2files: Vec::new(),
            filter: NoFilter,
            status: Default::default(),
            pending: None,
        };
        proof {
            assert(r.model() =~~= empty_state());
        }
        r
    }
}

impl<F: ScanFilter> Duplicate<F> {
    /// The engine with another filter: keeps the records, inodes,
    /// classification index and partial map scanned so far; the full map,
    /// counters and any open request start over.
    pub fn custom_filter<G: ScanFilter>(self, filter: G) -> (r: Duplicate<G>)
        requires
            self.wf(),
        ensures
            r.wf(),
            r.model() == (ScanState {
                full: Seq::empty(),
                duplicated: 0,
                pending: None,
                ..self.model()
            }),
            r.root == self.root,
            r.filter == filter,
            r.status.scanned == 0,
    {
        let Duplicate { root, records, inodes, index, hash2files, .. } = self;
        let r = Duplicate {
            root,
            records,
            inodes,
            index,
            hash2files,
            full_hash2files: Vec::new(),
            filter,
            status: Default::default(),
            pending: None,
        };
        proof {
            assert(r.model() =~~= (ScanState {
                full: Seq::empty(),
                duplicated: 0,
                pending: None,
                ..self.model()
            }));
            assert forall|i: usize| is_first_seen(r.model().index, i) implies !(#[trigger] occurs(
                r.model().full,
                i,
            )) by {
                if occurs(r.model().full, i) {
                    let j = choose|j: int| occurs_in(r.model().full, j, i);
                }
            }
        }
        r
    }

    /// Counts a walked file and remembers it for progress rendering.
    pub fn note_scanned(&mut self, last_file: Vec<u8>)
        requires
            old(self).status.scanned < usize::MAX,
        ensures
            final(self).status.scanned == old(self).status.scanned + 1,
            final(self).status.last_file == last_file,
            final(self).status.duplicated == old(self).status.duplicated,
            final(self).model() == old(self).model(),
            final(self).root == old(self).root,
            final(self).records == old(self).records,
            final(self).filter == old(self).filter,
    {
        self.status.scanned = self.status.scanned + 1;
        self.status.last_file = last_file;
    }

    /// Whether the engine's filter admits the file.
    pub fn accepts(&self, file: &File) -> (r: bool)
        ensures
            r == self.filter.spec_accepts(file),
    {
        self.filter.filter(file)
    }

    /// The first phase of a push, exactly `spec_push1`: screens the inode
    /// and size, stores the record, classifies it, and either finishes or
    /// answers with the hash request that `supply_hashes` must see next.
    pub fn push(&mut self, file: File, compare_size: usize) -> (r: PushOutcome)
        requires
            old(self).wf(),
            old(self).pending is None,
            old(self).records@.len() < usize::MAX,
        ensures
            final(self).wf(),
            final(self).model() == spec_push1(old(self).model(), file@, compare_size).0,
            r == spec_push1(old(self).model(), file@, compare_size).1,
            final(self).root == old(self).root,
            final(self).filter == old(self).filter,
            final(self).status.scanned == old(self).status.scanned,
            final(self).status.last_file == old(self).status.last_file,
            final(self).pending is Some <==> r is NeedsHash,
    {
        let ghost m0 = self.model();
        proof {
            lemma_push1_preserves_wf(m0, file@, compare_size);
        }
        if file.metadata.size == 0 {
            return PushOutcome::SkippedEmpty;
        }
        let ino = file.metadata.ino;
        if contains_u64(&self.inodes, ino) {
            return PushOutcome::SkippedInode;
        }
        let idx = self.records.len();
        let ext = ext_hash(&file.path);
        let size = file.metadata.size;
        self.inodes.push(ino);
        self.records.push(file);
        let key = class_key_exec(ext, size);
        match find_slot(&self.index, key) {
            None => {
                self.index.push((key, Slot::FirstSeen(idx)));
                proof {
                    assert(self.model() =~~= spec_push1(m0, file@, compare_size).0);
                }
                PushOutcome::Recorded
            },
            Some(j) => {
                let pair = &self.index[j];
                let prev: Option<usize> = match &pair.1 {
                    Slot::FirstSeen(p) => Some(*p),
                    Slot::Observed(_) => None,
                };
                let req = HashRequest { current: idx, previous: prev, key: key, window: compare_size };
                self.pending = Some(req);
                proof {
                    assert(index_model(self.index@)[j as int].1 == self.index@[j as int].1.model());
                    assert(self.model() =~~= spec_push1(m0, file@, compare_size).0);
                }
                PushOutcome::NeedsHash(req)
            },
        }
    }

    /// The second phase of a push, exactly `spec_supply`: answers the open
    /// hash request with the partial checksum of the new record and, when
    /// the request asked for it, of the bucket's first record.
    pub fn supply_hashes(&mut self, h_cur: HashVal, h_prev: Option<HashVal>)
        requires
            old(self).wf(),
            old(self).pending matches Some(req) && (req.previous is Some <==> h_prev is Some),
            old(self).status.duplicated < usize::MAX,
        ensures
            final(self).wf(),
            final(self).model() == spec_supply(old(self).model(), h_cur, h_prev),
            final(self).pending is None,
            final(self).root == old(self).root,
            final(self).records == old(self).records,
            final(self).filter == old(self).filter,
            final(self).status.scanned == old(self).status.scanned,
            final(self).status.last_file == old(self).status.last_file,
    {
        let ghost m0 = self.model();
        proof {
            lemma_supply_preserves_wf(m0, h_cur, h_prev);
            lemma_alist_find(m0.index, m0.pending.unwrap().key);
        }
        let req = self.pending.unwrap();
        self.pending = None;
        let j = match find_slot(&self.index, req.key) {
            Some(j) => j,
            None => {
                proof {
                    assert(false);
                }
                0
            },
        };
        match (req.previous, h_prev) {
            (Some(p), Some(hp)) => {
                let mut hs: Vec<HashVal> = Vec::new();
                hs.push(hp);
                if h_cur != hp {
                    hs.push(h_cur);
                }
                proof {
                    assert(hs@.to_set() =~= Set::empty().insert(hp).insert(h_cur));
                }
                let _old_pair = self.index.remove(j);
                self.index.insert(j, (req.key, Slot::Observed(hs)));
                proof {
                    assert(self.index@ =~= old(self).index@.update(j as int, self.index@[j as int]));
                    assert(index_model(self.index@) =~~= m0.index.update(
                        j as int,
                        (req.key, SlotModel::Observed(Set::empty().insert(hp).insert(h_cur))),
                    ));
                }
                let ghost partial1 = bucket_append(m0.partial, hp, p);
                let _l1 = bucket_append_exec(&mut self.hash2files, hp, p);
                proof {
                    lemma_bucket_append(m0.partial, hp, p);
                }
                let l2 = bucket_append_exec(&mut self.hash2files, h_cur, req.current);
                if l2 >= 2 {
                    self.status.duplicated = self.status.duplicated + 1;
                }
                proof {
                    assert(self.model() =~~= spec_supply(m0, h_cur, h_prev));
                }
            },
            (None, None) => {
                let old_pair = self.index.remove(j);
                let (okey, oslot) = old_pair;
                match oslot {
                    Slot::Observed(mut hs) => {
                        if !contains_hash(&hs, h_cur) {
                            hs.push(h_cur);
                        }
                        proof {
                            let oset = old(self).index@[j as int].1.model()->Observed_0;
                            assert(hs@.to_set() =~= oset.insert(h_cur));
                        }
                        self.index.insert(j, (req.key, Slot::Observed(hs)));
                        proof {
                            assert(self.index@ =~= old(self).index@.update(
                                j as int,
                                self.index@[j as int],
                            ));
                            assert(index_model(self.index@) =~~= spec_supply(
                                m0,
                                h_cur,
                                h_prev,
                            ).index);
                        }
                    },
                    Slot::FirstSeen(p) => {
                        proof {
                            assert(old(self).index@[j as int].1.model() is Observed);
                            assert(false);
                        }
                        self.index.insert(j, (okey, Slot::FirstSeen(p)));
                    },
                }
                let l2 = bucket_append_exec(&mut self.hash2files, h_cur, req.current);
                if l2 >= 2 {
                    self.status.duplicated = self.status.duplicated + 1;
                }
                proof {
                    assert(self.model() =~~= spec_supply(m0, h_cur, h_prev));
                }
            },
            _ => {
                proof {
                    assert(false);
                }
            },
        }
    }

    /// Abandons the open hash request: the record and its inode stay, the
    /// classification slot is left as it was. This is how a failed read is
    /// tolerated mid-step.
    pub fn cancel_request(&mut self)
        requires
            old(self).wf(),
        ensures
            final(self).wf(),
            final(self).model() == (ScanState { pending: None, ..old(self).model() }),
            final(self).root == old(self).root,
            final(self).records == old(self).records,
            final(self).filter == old(self).filter,
            final(self).status == old(self).status,
    {
        self.pending = None;
        proof {
            assert(self.model() =~~= (ScanState { pending: None, ..old(self).model() }));
        }
    }
}

// ---------------------------------------------------------------------
// Results
// ---------------------------------------------------------------------

/// The lists of two or more members in a bucket map, in map order.
pub open spec fn multi_lists(s: Seq<(HashVal, Seq<usize>)>) -> Seq<Seq<usize>>
    decreases s.len(),
{
    if s.len() == 0 {
        Seq::empty()
    } else {
        multi_lists(s.drop_last()) + (if s.last().1.len() >= 2 {
            seq![s.last().1]
        } else {
            Seq::empty()
        })
    }
}

/// The duplicate groups of a state: the multi-member partial buckets, then
/// the multi-member full buckets, as lists of record indices. Order within
/// a group is push order; order between groups follows the maps.
pub open spec fn spec_groups(m: ScanState) -> Seq<Seq<usize>> {
    multi_lists(m.partial) + multi_lists(m.full)
}

/// Every list `multi_lists` keeps has two or more members.
pub proof fn lemma_multi_lists_min_len(s: Seq<(HashVal, Seq<usize>)>)
    ensures
        forall|i: int| 0 <= i < multi_lists(s).len() ==> (#[trigger] multi_lists(s)[i]).len() >= 2,
    decreases s.len(),
{
    if s.len() > 0 {
        lemma_multi_lists_min_len(s.drop_last());
        let t = multi_lists(s.drop_last());
        assert forall|i: int|
            0 <= i < multi_lists(s).len() implies (#[trigger] multi_lists(s)[i]).len() >= 2 by {
            if i < t.len() {
                assert(multi_lists(s)[i] == t[i]);
            } else {
                assert(multi_lists(s)[i] == s.last().1);
            }
        }
    }
}

/// No group a state yields is a singleton: every duplicate group has two
/// or more members.
pub proof fn lemma_no_singletons(m: ScanState)
    ensures
        forall|i: int| 0 <= i < spec_groups(m).len() ==> (#[trigger] spec_groups(m)[i]).len() >= 2,
{
    lemma_multi_lists_min_len(m.partial);
    lemma_multi_lists_min_len(m.full);
}

/// An exact copy of an index list.
fn copy_indices(v: &Vec<usize>) -> (r: Vec<usize>)
    ensures
        r@ == v@,
{
    let mut r: Vec<usize> = Vec::new();
    let mut i: usize = 0;
    while i < v.len()
        invariant
            0 <= i <= v@.len(),
            r@ == v@.subrange(0, i as int),
        decreases v@.len() - i,
    {
        r.push(v[i]);
        i = i + 1;
        proof {
            assert(v@.subrange(0, i as int) =~= v@.subrange(0, i - 1).push(v@[i - 1]));
        }
    }
    proof {
        assert(v@.subrange(0, v@.len() as int) =~= v@);
    }
    r
}

/// Collects the multi-member lists of one bucket map.
fn collect_multi(v: &Vec<(HashVal, Vec<usize>)>, out: &mut Vec<Vec<usize>>)
    ensures
        final(out)@.map_values(|g: Vec<usize>| g@) == old(out)@.map_values(|g: Vec<usize>| g@)
            + multi_lists(buckets_model(v@)),
{
    let ghost s = buckets_model(v@);
    let mut i: usize = 0;
    while i < v.len()
        invariant
            0 <= i <= v@.len(),
            s == buckets_model(v@),
            out@.map_values(|g: Vec<usize>| g@) == old(out)@.map_values(|g: Vec<usize>| g@)
                + multi_lists(s.subrange(0, i as int)),
        decreases v@.len() - i,
    {
        let pair = &v[i];
        let ghost pre = s.subrange(0, i as int);
        let ghost prev_out = out@;
        if pair.1.len() >= 2 {
            let copy = copy_indices(&pair.1);
            out.push(copy);
            proof {
                assert(out@.map_values(|g: Vec<usize>| g@) =~= prev_out.map_values(
                    |g: Vec<usize>| g@,
                ).push(v@[i as int].1@));
            }
        }
        i = i + 1;
        proof {
            let cur = s.subrange(0, i as int);
            assert(cur.drop_last() =~= pre);
            assert(cur.last() == s[i - 1]);
            assert(s[i - 1].1 == v@[i - 1].1@);
            if s[i - 1].1.len() >= 2 {
                assert(multi_lists(cur) =~= multi_lists(pre).push(s[i - 1].1));
            } else {
                assert(multi_lists(cur) =~= multi_lists(pre));
            }
            assert(out@.map_values(|g: Vec<usize>| g@) =~= old(out)@.map_values(
                |g: Vec<usize>| g@,
            ) + multi_lists(cur));
        }
    }
    proof {
        assert(s.subrange(0, s.len() as int) =~= s);
    }
}

impl<F: ScanFilter> Duplicate<F> {
    /// The duplicate groups found so far: every multi-member partial
    /// bucket, then every multi-member full bucket, as record indices in
    /// push order. Singletons are filtered out: every group returned has
    /// two or more members.
    pub fn result(&self) -> (r: Vec<Vec<usize>>)
        ensures
            r@.map_values(|g: Vec<usize>| g@) == spec_groups(self.model()),
            forall|i: int| 0 <= i < r@.len() ==> (#[trigger] r@[i])@.len() >= 2,
    {
        let mut r: Vec<Vec<usize>> = Vec::new();
        proof {
            assert(r@.map_values(|g: Vec<usize>| g@) =~= Seq::<Seq<usize>>::empty());
        }
        collect_multi(&self.hash2files, &mut r);
        collect_multi(&self.full_hash2files, &mut r);
        proof {
            assert(r@.map_values(|g: Vec<usize>| g@) =~= spec_groups(self.model()));
            lemma_no_singletons(self.model());
            assert forall|i: int| 0 <= i < r@.len() implies (#[trigger] r@[i])@.len() >= 2 by {
                assert(r@.map_values(|g: Vec<usize>| g@)[i] == r@[i]@);
            }
        }
        r
    }

    /// The records a group of indices names, borrowed from the store.
    pub fn map_record_vec(&self, v: &Vec<usize>) -> (r: Vec<&File>)
        requires
            forall|k: int| 0 <= k < v@.len() ==> (#[trigger] v@[k]) < self.records@.len(),
        ensures
            r@.len() == v@.len(),
            forall|k: int| 0 <= k < v@.len() ==> (#[trigger] r@[k])@ == self.records@[v@[k] as int]@,
    {
        let mut r: Vec<&File> = Vec::new();
        let mut i: usize = 0;
        while i < v.len()
            invariant
                0 <= i <= v@.len(),
                r@.len() == i,
                forall|k: int| 0 <= k < v@.len() ==> (#[trigger] v@[k]) < self.records@.len(),
                forall|k: int|
                    0 <= k < i ==> (#[trigger] r@[k])@ == self.records@[v@[k] as int]@,
            decreases v@.len() - i,
        {
            r.push(&self.records[v[i]]);
            i = i + 1;
        }
        r
    }
}

// ---------------------------------------------------------------------
// Inode idempotence
// ---------------------------------------------------------------------

/// One full scan step over a tree whose contents the oracle gives by
/// path: the push, and — when it asks — the answer a driver computes,
/// the partial checksum of each requested record's content.
pub open spec fn spec_scan_step(
    m: ScanState,
    f: FileView,
    cs: usize,
    contents: spec_fn(Seq<u8>) -> Seq<u8>,
) -> ScanState {
    let m1 = spec_push1(m, f, cs).0;
    match m1.pending {
        None => m1,
        Some(req) => {
            let h_cur = spec_checksum(contents(f.path), CompareMode::Part(req.window));
            let h_prev = match req.previous {
                Some(p) => Some(
                    spec_checksum(
                        contents(m1.records[p as int].path),
                        CompareMode::Part(req.window),
                    ),
                ),
                None => None,
            };
            spec_supply(m1, h_cur, h_prev)
        },
    }
}

/// A whole scan: every file of the walk pushed in turn, hash requests
/// answered from the tree's contents.
pub open spec fn spec_scan(
    m: ScanState,
    files: Seq<FileView>,
    cs: usize,
    contents: spec_fn(Seq<u8>) -> Seq<u8>,
) -> ScanState
    decreases files.len(),
{
    if files.len() == 0 {
        m
    } else {
        spec_scan_step(spec_scan(m, files.drop_last(), cs, contents), files.last(), cs, contents)
    }
}

/// Pushing a file whose inode is already recorded (or which is empty)
/// changes nothing and asks for nothing.
pub proof fn lemma_push_known_inode_is_noop(m: ScanState, f: FileView, cs: usize)
    requires
        f.meta.size == 0 || m.inos.contains(f.meta.ino),
    ensures
        spec_push1(m, f, cs).0 == m,
        !(spec_push1(m, f, cs).1 is NeedsHash),
{
}

/// What a scan does to the inodes: it keeps every recorded one, records
/// every non-empty file's, and leaves no request open.
pub proof fn lemma_scan_records_inos(
    m: ScanState,
    files: Seq<FileView>,
    cs: usize,
    contents: spec_fn(Seq<u8>) -> Seq<u8>,
)
    requires
        m.pending is None,
    ensures
        forall|x: u64|
            m.inos.contains(x) ==> #[trigger] spec_scan(m, files, cs, contents).inos.contains(x),
        forall|i: int|
            0 <= i < files.len() ==> (#[trigger] files[i]).meta.size == 0 || spec_scan(
                m,
                files,
                cs,
                contents,
            ).inos.contains(files[i].meta.ino),
        spec_scan(m, files, cs, contents).pending is None,
    decreases files.len(),
{
    if files.len() > 0 {
        let pre = files.drop_last();
        let f = files.last();
        let prev = spec_scan(m, pre, cs, contents);
        let m1 = spec_push1(prev, f, cs).0;
        let cur = spec_scan(m, files, cs, contents);
        lemma_scan_records_inos(m, pre, cs, contents);
        assert(forall|i: int| 0 <= i < files.len() - 1 ==> #[trigger] pre[i] == files[i]);
        assert(m1.inos == prev.inos || m1.inos == prev.inos.push(f.meta.ino));
        assert(cur.inos == m1.inos && cur.pending is None) by {
            match m1.pending {
                None => {},
                Some(req) => {
                    assert(cur == spec_supply(
                        m1,
                        spec_checksum(contents(f.path), CompareMode::Part(req.window)),
                        match req.previous {
                            Some(p) => Some(
                                spec_checksum(
                                    contents(m1.records[p as int].path),
                                    CompareMode::Part(req.window),
                                ),
                            ),
                            None => None,
                        },
                    ));
                },
            }
        }
        assert forall|i: int|
            0 <= i < files.len() implies (#[trigger] files[i]).meta.size == 0
            || cur.inos.contains(files[i].meta.ino) by {
            if i < files.len() - 1 {
                assert(pre[i] == files[i]);
                if files[i].meta.size != 0 {
                    assert(prev.inos.contains(files[i].meta.ino));
                }
            } else {
                if f.meta.size != 0 {
                    if !prev.inos.contains(f.meta.ino) {
                        assert(m1.inos == prev.inos.push(f.meta.ino));
                    }
                }
            }
        }
    }
}

/// Scanning files whose inodes are all recorded leaves the state exactly
/// as it was: every push is dropped at the inode screen, so no hash
/// request arises and nothing changes.
pub proof fn lemma_scan_of_known_inodes_is_noop(
    m: ScanState,
    files: Seq<FileView>,
    cs: usize,
    contents: spec_fn(Seq<u8>) -> Seq<u8>,
)
    requires
        m.pending is None,
        forall|i: int|
            0 <= i < files.len() ==> (#[trigger] files[i]).meta.size == 0 || m.inos.contains(
                files[i].meta.ino,
            ),
    ensures
        spec_scan(m, files, cs, contents) == m,
    decreases files.len(),
{
    if files.len() > 0 {
        assert(forall|i: int| 0 <= i < files.len() - 1 ==> #[trigger] files.drop_last()[i]
            == files[i]);
        lemma_scan_of_known_inodes_is_noop(m, files.drop_last(), cs, contents);
        lemma_push_known_inode_is_noop(m, files.last(), cs);
    }
}

/// Inode idempotence: scanning an unchanged tree twice — the same walk,
/// the same contents — ends exactly where one scan ends, so the group
/// sets of the two scans are identical. Two fresh engines fed the same
/// walk agree for the same reason: every transition is a function of the
/// state and the inputs.
pub proof fn lemma_scan_twice(
    files: Seq<FileView>,
    cs: usize,
    contents: spec_fn(Seq<u8>) -> Seq<u8>,
)
    ensures
        spec_scan(spec_scan(empty_state(), files, cs, contents), files, cs, contents)
            == spec_scan(empty_state(), files, cs, contents),
        spec_groups(spec_scan(spec_scan(empty_state(), files, cs, contents), files, cs, contents))
            == spec_groups(spec_scan(empty_state(), files, cs, contents)),
{
    let once = spec_scan(empty_state(), files, cs, contents);
    lemma_scan_records_inos(empty_state(), files, cs, contents);
    lemma_scan_of_known_inodes_is_noop(once, files, cs, contents);
}

// ---------------------------------------------------------------------
// Verification: the spec layer
// ---------------------------------------------------------------------

/// Whether the assignment holds a full hash for record `i`.
pub open spec fn asg_has(fh: Seq<(usize, HashVal)>, i: usize) -> bool {
    alist_find(fh, i) is Some
}

/// The full hash the assignment gives record `i`.
pub open spec fn asg_hash(fh: Seq<(usize, HashVal)>, i: usize) -> HashVal {
    fh[alist_find(fh, i).unwrap()].1
}

/// The assignment covers every record in a multi-member partial bucket.
pub open spec fn asg_covers(m: ScanState, fh: Seq<(usize, HashVal)>) -> bool {
    forall|j: int, i: usize|
        #[trigger] occurs_in(m.partial, j, i) && m.partial[j].1.len() >= 2 ==> asg_has(fh, i)
}

/// The members grouped by their assigned full hash, in first-seen order.
pub open spec fn spec_group_by(members: Seq<usize>, fh: Seq<(usize, HashVal)>) -> Seq<
    (HashVal, Seq<usize>),
>
    decreases members.len(),
{
    if members.len() == 0 {
        Seq::empty()
    } else {
        bucket_append(
            spec_group_by(members.drop_last(), fh),
            asg_hash(fh, members.last()),
            members.last(),
        )
    }
}

/// Each local group merged into the full map, in order.
pub open spec fn spec_merge(
    full: Seq<(HashVal, Seq<usize>)>,
    groups: Seq<(HashVal, Seq<usize>)>,
) -> Seq<(HashVal, Seq<usize>)>
    decreases groups.len(),
{
    if groups.len() == 0 {
        full
    } else {
        bucket_append_all(
            spec_merge(full, groups.drop_last()),
            groups.last().0,
            groups.last().1,
        )
    }
}

/// Whether verifying splits a partial entry: two or more members whose
/// full hashes do not all agree.
pub open spec fn esplit(entry: (HashVal, Seq<usize>), fh: Seq<(usize, HashVal)>) -> bool {
    entry.1.len() >= 2 && spec_group_by(entry.1, fh).len() >= 2
}

/// One verification step: entry `j` is left intact when all its members
/// share one full hash; otherwise it is emptied and each full-hash group
/// joins the full map.
pub open spec fn spec_verify_step(m: ScanState, fh: Seq<(usize, HashVal)>, j: int) -> ScanState {
    let entry = m.partial[j];
    if esplit(entry, fh) {
        ScanState {
            partial: m.partial.update(j, (entry.0, Seq::empty())),
            full: spec_merge(m.full, spec_group_by(entry.1, fh)),
            ..m
        }
    } else {
        m
    }
}

/// The conflicts one step reports: the number of full-hash groups of a
/// split entry, nothing otherwise.
pub open spec fn spec_step_conflicts(m: ScanState, fh: Seq<(usize, HashVal)>, j: int) -> nat {
    if esplit(m.partial[j], fh) {
        spec_group_by(m.partial[j].1, fh).len()
    } else {
        0
    }
}

/// Verification folded over the first `n` partial entries, with the
/// running conflict count.
pub open spec fn spec_verify_upto(m: ScanState, fh: Seq<(usize, HashVal)>, n: int) -> (
    ScanState,
    nat,
)
    decreases n,
{
    if n <= 0 {
        (m, 0)
    } else {
        let prev = spec_verify_upto(m, fh, n - 1);
        (
            spec_verify_step(prev.0, fh, n - 1),
            prev.1 + spec_step_conflicts(prev.0, fh, n - 1),
        )
    }
}

/// Verification over the whole partial map.
pub open spec fn spec_verify(m: ScanState, fh: Seq<(usize, HashVal)>) -> (ScanState, nat) {
    spec_verify_upto(m, fh, m.partial.len() as int)
}

/// Record `x` stands in a bucket keyed `k`.
pub open spec fn occurs_at_key(s: Seq<(HashVal, Seq<usize>)>, k: HashVal, x: usize) -> bool {
    exists|j: int| #[trigger] occurs_in(s, j, x) && s[j].0 == k
}

/// What grouping by assigned hash yields: distinct keys, members kept,
/// every member in the bucket of its own hash, and at least one group for
/// a nonempty member list.
pub proof fn lemma_group_by(members: Seq<usize>, fh: Seq<(usize, HashVal)>)
    ensures
        alist_distinct_keys(spec_group_by(members, fh)),
        forall|j: int, x: usize|
            #[trigger] occurs_in(spec_group_by(members, fh), j, x) ==> members.contains(x)
                && spec_group_by(members, fh)[j].0 == asg_hash(fh, x),
        forall|x: usize|
            members.contains(x) ==> #[trigger] occurs_at_key(
                spec_group_by(members, fh),
                asg_hash(fh, x),
                x,
            ),
        members.len() >= 1 ==> spec_group_by(members, fh).len() >= 1,
        spec_group_by(members, fh).len() <= members.len(),
        buckets_internal_unique(spec_group_by(members, fh)),
        members.no_duplicates() ==> buckets_nodup(spec_group_by(members, fh)),
    decreases members.len(),
{
    if members.len() > 0 {
        let pre = members.drop_last();
        let x0 = members.last();
        let g0 = spec_group_by(pre, fh);
        let g1 = spec_group_by(members, fh);
        lemma_group_by(pre, fh);
        lemma_bucket_append(g0, asg_hash(fh, x0), x0);
        if members.no_duplicates() {
            assert(pre.no_duplicates()) by {
                assert(forall|w: int| 0 <= w < pre.len() ==> #[trigger] pre[w] == members[w]);
            }
            assert(!occurs(g0, x0)) by {
                if occurs(g0, x0) {
                    let w = choose|w: int| occurs_in(g0, w, x0);
                    assert(pre.contains(x0));
                    let w2 = choose|w2: int| 0 <= w2 < pre.len() && pre[w2] == x0;
                    assert(members[w2] == x0 && members[members.len() - 1] == x0);
                }
            }
        }
        assert forall|j: int, x: usize| #[trigger] occurs_in(g1, j, x) implies members.contains(x)
            && g1[j].0 == asg_hash(fh, x) by {
            if occurs_in(g0, j, x) {
                assert(pre.contains(x));
                let w = choose|w: int| 0 <= w < pre.len() && pre[w] == x;
                assert(members[w] == x);
                if j == append_pos(g0, asg_hash(fh, x0)) {
                    lemma_alist_find(g0, asg_hash(fh, x0));
                    if append_pos(g0, asg_hash(fh, x0)) < g0.len() {
                        assert(g1[j].0 == asg_hash(fh, x0));
                        assert(g0[j].0 == asg_hash(fh, x0));
                    }
                } else {
                    assert(g1[j] == g0[j]);
                }
            } else {
                assert(j == append_pos(g0, asg_hash(fh, x0)) && x == x0);
                assert(members[members.len() - 1] == x0);
                lemma_alist_find(g0, asg_hash(fh, x0));
            }
        }
        assert forall|x: usize| members.contains(x) implies #[trigger] occurs_at_key(
            g1,
            asg_hash(fh, x),
            x,
        ) by {
            if x == x0 {
                let j = append_pos(g0, asg_hash(fh, x0));
                assert(occurs_in(g1, j, x0));
                assert(alist_find(g1, asg_hash(fh, x0)) == Some(j));
                lemma_alist_find(g1, asg_hash(fh, x0));
                assert(g1[j].0 == asg_hash(fh, x0));
            } else {
                let w = choose|w: int| 0 <= w < members.len() && members[w] == x;
                assert(w < pre.len());
                assert(pre[w] == x);
                assert(pre.contains(x));
                assert(occurs_at_key(g0, asg_hash(fh, x), x));
                let j = choose|j: int| #[trigger] occurs_in(g0, j, x) && g0[j].0 == asg_hash(
                    fh,
                    x,
                );
                assert(occurs_in(g1, j, x));
                if j == append_pos(g0, asg_hash(fh, x0)) && j < g0.len() {
                    lemma_alist_find(g0, asg_hash(fh, x0));
                    assert(g1[j].0 == asg_hash(fh, x0));
                    assert(g0[j].0 == asg_hash(fh, x0));
                } else {
                    assert(g1[j].0 == g0[j].0);
                }
            }
        }
        assert forall|j1: int, j2: int, i: usize|
            #[trigger] occurs_in(g1, j1, i) && #[trigger] occurs_in(g1, j2, i) implies j1
            == j2 by {
            assert(g1[j1].0 == asg_hash(fh, i) && g1[j2].0 == asg_hash(fh, i));
            if j1 < j2 {
                assert((g1[j1]).0 != (g1[j2]).0);
            }
            if j2 < j1 {
                assert((g1[j1]).0 != (g1[j2]).0);
            }
        }
    }
}

/// What merging the groups into the full map yields: keys stay distinct,
/// old members stay where they were, each grouped member lands in the
/// bucket of its own hash, and nothing else appears.
pub proof fn lemma_merge(
    full: Seq<(HashVal, Seq<usize>)>,
    groups: Seq<(HashVal, Seq<usize>)>,
    fh: Seq<(usize, HashVal)>,
)
    requires
        alist_distinct_keys(full),
        alist_distinct_keys(groups),
        forall|j: int, x: usize|
            #[trigger] occurs_in(groups, j, x) ==> groups[j].0 == asg_hash(fh, x),
    ensures
        alist_distinct_keys(spec_merge(full, groups)),
        forall|j: int, x: usize|
            #[trigger] occurs_in(full, j, x) ==> occurs_in(spec_merge(full, groups), j, x),
        forall|j: int|
            0 <= j < full.len() ==> (#[trigger] spec_merge(full, groups)[j]).0 == full[j].0,
        forall|x: usize|
            occurs(groups, x) ==> #[trigger] occurs_at_key(
                spec_merge(full, groups),
                asg_hash(fh, x),
                x,
            ),
        forall|x: usize|
            #[trigger] occurs(spec_merge(full, groups), x) ==> occurs(full, x) || occurs(
                groups,
                x,
            ),
        forall|j: int, x: usize|
            #[trigger] occurs_in(spec_merge(full, groups), j, x) ==> occurs_in(full, j, x)
                || occurs(groups, x),
        forall|j: int, x: usize|
            #[trigger] occurs_in(spec_merge(full, groups), j, x) && !occurs_in(full, j, x)
                ==> spec_merge(full, groups)[j].0 == asg_hash(fh, x),
        spec_merge(full, groups).len() >= full.len(),
    decreases groups.len(),
{
    if groups.len() > 0 {
        let pre = groups.drop_last();
        let (gk, gl) = groups.last();
        let m0 = spec_merge(full, pre);
        let m1 = spec_merge(full, groups);
        assert(forall|j: int, x: usize| #[trigger] occurs_in(pre, j, x) ==> occurs_in(
            groups,
            j,
            x,
        ));
        lemma_merge(full, pre, fh);
        lemma_bucket_append_all(m0, gk, gl);
        lemma_alist_find(m0, gk);
        assert forall|j: int, x: usize| #[trigger] occurs_in(full, j, x) implies occurs_in(
            m1,
            j,
            x,
        ) by {
            assert(occurs_in(m0, j, x));
        }
        assert forall|x: usize| occurs(groups, x) implies #[trigger] occurs_at_key(
            m1,
            asg_hash(fh, x),
            x,
        ) by {
            let j = choose|j: int| occurs_in(groups, j, x);
            if j < pre.len() {
                assert(occurs_in(pre, j, x));
                assert(occurs(pre, x));
                assert(occurs_at_key(m0, asg_hash(fh, x), x));
                let w = choose|w: int| #[trigger] occurs_in(m0, w, x) && m0[w].0 == asg_hash(
                    fh,
                    x,
                );
                assert(occurs_in(m1, w, x));
                if w == append_pos(m0, gk) && w < m0.len() {
                    assert(m1[w].0 == gk && m0[w].0 == gk);
                } else {
                    assert(m1[w].0 == m0[w].0);
                }
            } else {
                assert(j == groups.len() - 1);
                assert(gl.contains(x));
                assert(gk == asg_hash(fh, x));
                let w = append_pos(m0, gk);
                assert(occurs_in(m1, w, x));
                assert(alist_find(m1, gk) == Some(w));
                lemma_alist_find(m1, gk);
                assert(m1[w].0 == gk);
            }
        }
        assert forall|x: usize| #[trigger] occurs(m1, x) implies occurs(full, x) || occurs(
            groups,
            x,
        ) by {
            let j = choose|j: int| occurs_in(m1, j, x);
            if occurs_in(m0, j, x) {
                assert(occurs(m0, x));
                if !occurs(full, x) {
                    let w = choose|w: int| occurs_in(pre, w, x);
                    assert(occurs_in(groups, w, x));
                }
            } else {
                assert(gl.contains(x));
                assert(occurs_in(groups, groups.len() - 1, x));
            }
        }
        assert forall|j: int, x: usize| #[trigger] occurs_in(m1, j, x) implies occurs_in(
            full,
            j,
            x,
        ) || occurs(groups, x) by {
            if occurs_in(m0, j, x) {
                if !occurs_in(full, j, x) {
                    let w = choose|w: int| occurs_in(pre, w, x);
                    assert(occurs_in(groups, w, x));
                }
            } else {
                assert(gl.contains(x));
                assert(occurs_in(groups, groups.len() - 1, x));
            }
        }
        assert forall|j: int, x: usize|
            #[trigger] occurs_in(m1, j, x) && !occurs_in(full, j, x) implies m1[j].0 == asg_hash(
            fh,
            x,
        ) by {
            if occurs_in(m0, j, x) {
                assert(m0[j].0 == asg_hash(fh, x));
                if j == append_pos(m0, gk) {
                    assert(j < m0.len());
                    lemma_alist_find(m0, gk);
                    assert(m0[j].0 == gk);
                    assert(m1[j].0 == gk);
                } else {
                    assert(m1[j] == m0[j]);
                }
            } else {
                assert(j == append_pos(m0, gk) && gl.contains(x));
                assert(occurs_in(groups, groups.len() - 1, x));
                assert(gk == asg_hash(fh, x));
                assert(m1[j].0 == gk);
            }
        }
    }
}

/// Merging groups that are disjoint from the full map keeps every bucket
/// list free of repeats.
pub proof fn lemma_merge_nodup(
    full: Seq<(HashVal, Seq<usize>)>,
    groups: Seq<(HashVal, Seq<usize>)>,
    fh: Seq<(usize, HashVal)>,
)
    requires
        alist_distinct_keys(full),
        alist_distinct_keys(groups),
        forall|j: int, x: usize|
            #[trigger] occurs_in(groups, j, x) ==> groups[j].0 == asg_hash(fh, x),
        buckets_nodup(full),
        buckets_nodup(groups),
        buckets_internal_unique(groups),
        forall|x: usize| occurs(groups, x) ==> !(#[trigger] occurs(full, x)),
    ensures
        buckets_nodup(spec_merge(full, groups)),
    decreases groups.len(),
{
    if groups.len() > 0 {
        let pre = groups.drop_last();
        let (gk, gl) = groups.last();
        let m0 = spec_merge(full, pre);
        assert(forall|j: int, x: usize| #[trigger] occurs_in(pre, j, x) ==> occurs_in(
            groups,
            j,
            x,
        ));
        assert forall|x: usize| occurs(pre, x) implies !(#[trigger] occurs(full, x)) by {
            let w = choose|w: int| occurs_in(pre, w, x);
            assert(occurs_in(groups, w, x));
            assert(occurs(groups, x));
        }
        lemma_merge(full, pre, fh);
        lemma_merge_nodup(full, pre, fh);
        assert(gl.no_duplicates()) by {
            assert(groups[groups.len() - 1].1 == gl);
        }
        assert forall|x: usize| gl.contains(x) implies !occurs(m0, x) by {
            assert(occurs_in(groups, groups.len() - 1, x));
            assert(occurs(groups, x));
            if occurs(m0, x) {
                if !occurs(full, x) {
                    let w = choose|w: int| occurs_in(m0, w, x);
                    assert(occurs_in(full, w, x) || occurs(pre, x));
                    let w2 = choose|w2: int| occurs_in(pre, w2, x);
                    assert(occurs_in(groups, w2, x));
                    assert(w2 == groups.len() - 1);
                }
            }
        }
        lemma_bucket_append_all(m0, gk, gl);
    }
}

/// What one verification step does, and that it preserves
/// well-formedness.
pub proof fn lemma_step_props(m1: ScanState, fh: Seq<(usize, HashVal)>, j: int)
    requires
        state_wf(m1),
        0 <= j < m1.partial.len(),
    ensures
        state_wf(spec_verify_step(m1, fh, j)),
        spec_verify_step(m1, fh, j).records == m1.records,
        spec_verify_step(m1, fh, j).inos == m1.inos,
        spec_verify_step(m1, fh, j).index == m1.index,
        spec_verify_step(m1, fh, j).pending == m1.pending,
        spec_verify_step(m1, fh, j).duplicated == m1.duplicated,
        spec_verify_step(m1, fh, j).partial.len() == m1.partial.len(),
        forall|jj: int|
            0 <= jj < m1.partial.len() && jj != j ==> #[trigger] spec_verify_step(
                m1,
                fh,
                j,
            ).partial[jj] == m1.partial[jj],
        esplit(m1.partial[j], fh) ==> spec_verify_step(m1, fh, j).partial[j] == (
            m1.partial[j].0,
            Seq::<usize>::empty(),
        ),
        !esplit(m1.partial[j], fh) ==> spec_verify_step(m1, fh, j) == m1,
        forall|jj: int, x: usize|
            #[trigger] occurs_in(spec_verify_step(m1, fh, j).partial, jj, x) ==> occurs_in(
                m1.partial,
                jj,
                x,
            ),
        forall|jj: int, x: usize|
            #[trigger] occurs_in(m1.full, jj, x) ==> occurs_in(
                spec_verify_step(m1, fh, j).full,
                jj,
                x,
            ),
        forall|k: HashVal, x: usize|
            #[trigger] occurs_at_key(m1.full, k, x) ==> occurs_at_key(
                spec_verify_step(m1, fh, j).full,
                k,
                x,
            ),
        esplit(m1.partial[j], fh) ==> forall|x: usize|
            m1.partial[j].1.contains(x) ==> #[trigger] occurs_at_key(
                spec_verify_step(m1, fh, j).full,
                asg_hash(fh, x),
                x,
            ),
        forall|x: usize|
            #[trigger] occurs(spec_verify_step(m1, fh, j).full, x) ==> occurs(m1.full, x) || (
            esplit(m1.partial[j], fh) && m1.partial[j].1.contains(x)),
{
    let entry = m1.partial[j];
    let m2 = spec_verify_step(m1, fh, j);
    if esplit(entry, fh) {
        let gb = spec_group_by(entry.1, fh);
        let partial2 = m1.partial.update(j, (entry.0, Seq::<usize>::empty()));
        let full2 = spec_merge(m1.full, gb);
        lemma_group_by(entry.1, fh);
        // group members may not stand in the full map: they stand in a
        // partial bucket and the maps are disjoint
        assert forall|x: usize| occurs(gb, x) implies !occurs(m1.full, x) by {
            let w = choose|w: int| occurs_in(gb, w, x);
            assert(entry.1.contains(x));
            assert(occurs_in(m1.partial, j, x));
            assert(occurs(m1.partial, x));
        }
        lemma_merge(m1.full, gb, fh);
        // partial part of wf
        assert(alist_distinct_keys(partial2)) by {
            assert(forall|i: int| 0 <= i < m1.partial.len() ==> (#[trigger] partial2[i]).0
                == m1.partial[i].0);
        }
        assert(buckets_nodup(partial2)) by {
            assert forall|j2: int|
                0 <= j2 < partial2.len() implies (#[trigger] partial2[j2]).1.no_duplicates() by {
                if j2 != j {
                    assert(partial2[j2] == m1.partial[j2]);
                }
            }
        }
        assert(entry.1.no_duplicates()) by {
            assert(m1.partial[j] == entry);
        }
        assert(buckets_nodup(full2)) by {
            lemma_merge_nodup(m1.full, gb, fh);
        }
        assert forall|jj: int, x: usize| #[trigger] occurs_in(partial2, jj, x) implies occurs_in(
            m1.partial,
            jj,
            x,
        ) by {
            if jj == j {
                assert(!partial2[jj].1.contains(x));
            }
        }
        // full part of wf
        assert(buckets_in_range(full2, m2.records.len())) by {
            assert forall|jj: int, x: usize| #[trigger] occurs_in(full2, jj, x) implies x
                < m2.records.len() by {
                if !occurs(m1.full, x) {
                    let w = choose|w: int| occurs_in(gb, w, x);
                    assert(entry.1.contains(x));
                    assert(occurs_in(m1.partial, j, x));
                }
            }
        }
        assert(buckets_internal_unique(full2)) by {
            assert forall|j1: int, j2: int, x: usize|
                #[trigger] occurs_in(full2, j1, x) && #[trigger] occurs_in(full2, j2, x) implies j1
                == j2 by {
                if occurs(m1.full, x) {
                    assert(!occurs(gb, x)) by {
                        if occurs(gb, x) {
                            let w = choose|w: int| occurs_in(gb, w, x);
                            assert(entry.1.contains(x));
                            assert(occurs_in(m1.partial, j, x));
                        }
                    }
                    assert(occurs_in(m1.full, j1, x) && occurs_in(m1.full, j2, x));
                } else {
                    assert(!occurs_in(m1.full, j1, x) && !occurs_in(m1.full, j2, x));
                    assert(full2[j1].0 == asg_hash(fh, x) && full2[j2].0 == asg_hash(fh, x));
                    if j1 < j2 {
                        assert((full2[j1]).0 != (full2[j2]).0);
                    }
                    if j2 < j1 {
                        assert((full2[j1]).0 != (full2[j2]).0);
                    }
                }
            }
        }
        assert(buckets_disjoint(partial2, full2)) by {
            assert forall|x: usize| #[trigger] occurs(partial2, x) implies !occurs(full2, x) by {
                let jj = choose|jj: int| occurs_in(partial2, jj, x);
                assert(occurs_in(m1.partial, jj, x));
                assert(jj != j) by {
                    if jj == j {
                        assert(!partial2[j].1.contains(x));
                    }
                }
                if occurs(full2, x) {
                    if occurs(m1.full, x) {
                        assert(occurs(m1.partial, x));
                    } else {
                        assert(entry.1.contains(x));
                        assert(occurs_in(m1.partial, j, x));
                    }
                }
            }
        }
        assert forall|i: usize| is_first_seen(m2.index, i) implies !(#[trigger] occurs(
            m2.partial,
            i,
        )) by {
            assert(!occurs(m1.partial, i));
            if occurs(partial2, i) {
                let w = choose|w: int| occurs_in(partial2, w, i);
                assert(occurs_in(m1.partial, w, i));
            }
        }
        assert forall|i: usize| is_first_seen(m2.index, i) implies !(#[trigger] occurs(
            m2.full,
            i,
        )) by {
            assert(!occurs(m1.full, i));
            assert(!occurs(m1.partial, i));
            if occurs(full2, i) {
                assert(entry.1.contains(i));
                assert(occurs_in(m1.partial, j, i));
            }
        }
        // the open request, if any, names a record in neither map
        match m1.pending {
            Some(req) => {
                assert(!occurs(partial2, req.current)) by {
                    if occurs(partial2, req.current) {
                        let w = choose|w: int| occurs_in(partial2, w, req.current);
                        assert(occurs_in(m1.partial, w, req.current));
                    }
                }
                assert(!occurs(full2, req.current)) by {
                    if occurs(full2, req.current) {
                        if !occurs(m1.full, req.current) {
                            assert(entry.1.contains(req.current));
                            assert(occurs_in(m1.partial, j, req.current));
                        }
                    }
                }
            },
            None => {},
        }
        // stability of keyed occurrence
        assert forall|k: HashVal, x: usize| #[trigger] occurs_at_key(m1.full, k, x) implies
            occurs_at_key(full2, k, x) by {
            let w = choose|w: int| #[trigger] occurs_in(m1.full, w, x) && m1.full[w].0 == k;
            assert(occurs_in(full2, w, x));
            assert(full2[w].0 == m1.full[w].0);
        }
        // split members land under their own hash
        assert forall|x: usize| entry.1.contains(x) implies #[trigger] occurs_at_key(
            full2,
            asg_hash(fh, x),
            x,
        ) by {
            assert(occurs_at_key(gb, asg_hash(fh, x), x));
            let w = choose|w: int| #[trigger] occurs_in(gb, w, x) && gb[w].0 == asg_hash(fh, x);
            assert(occurs(gb, x));
        }
        assert forall|x: usize| #[trigger] occurs(full2, x) implies occurs(m1.full, x) || (esplit(
            m1.partial[j],
            fh,
        ) && m1.partial[j].1.contains(x)) by {
            if !occurs(m1.full, x) {
                let w = choose|w: int| occurs_in(gb, w, x);
                assert(entry.1.contains(x));
            }
        }
    }
}

/// Verification folded over a prefix: well-formedness is kept, untouched
/// entries stay, split entries are emptied with their members standing in
/// the full map under their own hashes, and unsplit entries stay intact.
pub proof fn lemma_upto_props(m: ScanState, fh: Seq<(usize, HashVal)>, n: int)
    requires
        state_wf(m),
        0 <= n <= m.partial.len(),
    ensures
        state_wf(spec_verify_upto(m, fh, n).0),
        spec_verify_upto(m, fh, n).0.records == m.records,
        spec_verify_upto(m, fh, n).0.inos == m.inos,
        spec_verify_upto(m, fh, n).0.index == m.index,
        spec_verify_upto(m, fh, n).0.pending == m.pending,
        spec_verify_upto(m, fh, n).0.duplicated == m.duplicated,
        spec_verify_upto(m, fh, n).0.partial.len() == m.partial.len(),
        forall|jj: int|
            n <= jj < m.partial.len() ==> #[trigger] spec_verify_upto(m, fh, n).0.partial[jj]
                == m.partial[jj],
        forall|jj: int|
            0 <= jj < n && esplit(m.partial[jj], fh) ==> #[trigger] spec_verify_upto(
                m,
                fh,
                n,
            ).0.partial[jj] == (m.partial[jj].0, Seq::<usize>::empty()),
        forall|jj: int|
            0 <= jj < n && !esplit(m.partial[jj], fh) ==> #[trigger] spec_verify_upto(
                m,
                fh,
                n,
            ).0.partial[jj] == m.partial[jj],
        forall|jj: int, x: usize|
            #[trigger] occurs_in(spec_verify_upto(m, fh, n).0.partial, jj, x) ==> occurs_in(
                m.partial,
                jj,
                x,
            ),
        forall|k: HashVal, x: usize|
            #[trigger] occurs_at_key(m.full, k, x) ==> occurs_at_key(
                spec_verify_upto(m, fh, n).0.full,
                k,
                x,
            ),
        forall|jj: int, x: usize|
            0 <= jj < n && esplit(#[trigger] m.partial[jj], fh) && m.partial[jj].1.contains(x)
                ==> #[trigger] occurs_at_key(
                spec_verify_upto(m, fh, n).0.full,
                asg_hash(fh, x),
                x,
            ),
    decreases n,
{
    if n > 0 {
        let prev = spec_verify_upto(m, fh, n - 1).0;
        let cur = spec_verify_upto(m, fh, n).0;
        lemma_upto_props(m, fh, n - 1);
        assert(prev.partial[n - 1] == m.partial[n - 1]);
        lemma_step_props(prev, fh, n - 1);
        assert forall|jj: int, x: usize|
            0 <= jj < n && esplit(#[trigger] m.partial[jj], fh) && m.partial[jj].1.contains(
                x,
            ) implies #[trigger] occurs_at_key(cur.full, asg_hash(fh, x), x) by {
            if jj < n - 1 {
                assert(occurs_at_key(prev.full, asg_hash(fh, x), x));
            }
        }
        assert forall|jj: int|
            0 <= jj < n && esplit(m.partial[jj], fh) implies #[trigger] cur.partial[jj] == (
            m.partial[jj].0,
            Seq::<usize>::empty(),
        ) by {
            if jj < n - 1 {
                assert(cur.partial[jj] == prev.partial[jj]);
            }
        }
        assert forall|jj: int|
            0 <= jj < n && !esplit(m.partial[jj], fh) implies #[trigger] cur.partial[jj]
            == m.partial[jj] by {
            if jj < n - 1 {
                assert(cur.partial[jj] == prev.partial[jj]);
            }
        }
    }
}

/// The conflict counter only grows along the fold.
pub proof fn lemma_upto_counter_monotone(
    m: ScanState,
    fh: Seq<(usize, HashVal)>,
    n1: int,
    n2: int,
)
    requires
        0 <= n1 <= n2,
    ensures
        spec_verify_upto(m, fh, n1).1 <= spec_verify_upto(m, fh, n2).1,
    decreases n2 - n1,
{
    if n1 < n2 {
        lemma_upto_counter_monotone(m, fh, n1, n2 - 1);
    }
}

/// All bucket members of a map, in map order.
pub open spec fn flat_members(s: Seq<(HashVal, Seq<usize>)>) -> Seq<usize>
    decreases s.len(),
{
    if s.len() == 0 {
        Seq::empty()
    } else {
        flat_members(s.drop_last()) + s.last().1
    }
}

/// The members of the first `n` buckets, counted.
pub open spec fn prefix_members(s: Seq<(HashVal, Seq<usize>)>, n: int) -> nat
    decreases n,
{
    if n <= 0 {
        0
    } else {
        prefix_members(s, n - 1) + s[n - 1].1.len()
    }
}

/// A well-formed map's members, flattened, repeat no index and name only
/// records of the store.
pub proof fn lemma_flat_members_nodup(s: Seq<(HashVal, Seq<usize>)>)
    requires
        buckets_nodup(s),
        buckets_internal_unique(s),
    ensures
        flat_members(s).no_duplicates(),
        forall|x: usize| #[trigger] flat_members(s).contains(x) ==> occurs(s, x),
    decreases s.len(),
{
    if s.len() > 0 {
        let pre = s.drop_last();
        let a = flat_members(pre);
        let b = s.last().1;
        let c = flat_members(s);
        assert(forall|j: int| 0 <= j < pre.len() ==> #[trigger] pre[j] == s[j]);
        assert forall|j1: int, j2: int, i: usize|
            #[trigger] occurs_in(pre, j1, i) && #[trigger] occurs_in(pre, j2, i) implies j1
            == j2 by {
            assert(occurs_in(s, j1, i) && occurs_in(s, j2, i));
        }
        lemma_flat_members_nodup(pre);
        assert(b.no_duplicates()) by {
            assert(s[s.len() - 1].1 == b);
        }
        assert forall|x: usize| #[trigger] c.contains(x) implies occurs(s, x) by {
            let w = choose|w: int| 0 <= w < c.len() && c[w] == x;
            if w < a.len() {
                assert(a[w] == x);
                assert(a.contains(x));
                let j = choose|j: int| occurs_in(pre, j, x);
                assert(occurs_in(s, j, x));
            } else {
                assert(b[w - a.len()] == x);
                assert(b.contains(x));
                assert(occurs_in(s, s.len() - 1, x));
            }
        }
        assert forall|w1: int, w2: int| 0 <= w1 < w2 < c.len() implies c[w1] != c[w2] by {
            if w2 < a.len() {
                assert(c[w1] == a[w1] && c[w2] == a[w2]);
            } else if w1 >= a.len() {
                assert(c[w1] == b[w1 - a.len()] && c[w2] == b[w2 - a.len()]);
            } else {
                assert(c[w1] == a[w1] && c[w2] == b[w2 - a.len()]);
                if c[w1] == c[w2] {
                    assert(a.contains(a[w1]));
                    let j = choose|j: int| occurs_in(pre, j, a[w1]);
                    assert(occurs_in(s, j, a[w1]));
                    assert(b.contains(c[w2]));
                    assert(occurs_in(s, s.len() - 1, c[w2]));
                }
            }
        }
    }
}

/// A well-formed map over a store of `n` records holds at most `n`
/// members in all.
pub proof fn lemma_flat_members_bound(s: Seq<(HashVal, Seq<usize>)>, n: nat)
    requires
        buckets_nodup(s),
        buckets_internal_unique(s),
        buckets_in_range(s, n),
    ensures
        flat_members(s).len() <= n,
{
    lemma_flat_members_nodup(s);
    let f = flat_members(s);
    let g = f.map_values(|x: usize| x as int);
    assert(g.no_duplicates()) by {
        assert forall|w1: int, w2: int|
            0 <= w1 < w2 < g.len() implies g[w1] != g[w2] by {
            assert(g[w1] == f[w1] as int && g[w2] == f[w2] as int);
        }
    }
    g.unique_seq_to_set();
    let range = vstd::set_lib::set_int_range(0, n as int);
    assert(g.to_set().subset_of(range)) by {
        assert forall|y: int| g.to_set().contains(y) implies range.contains(y) by {
            let w = choose|w: int| 0 <= w < g.len() && g[w] == y;
            assert(f.contains(f[w]));
            let j = choose|j: int| occurs_in(s, j, f[w]);
        }
    }
    vstd::set_lib::lemma_int_range(0, n as int);
    vstd::set_lib::lemma_len_subset(g.to_set(), range);
}

/// The prefix count of a prefix agrees with the whole map's count.
pub proof fn lemma_prefix_members_drop_last(s: Seq<(HashVal, Seq<usize>)>, n: int)
    requires
        0 <= n < s.len(),
    ensures
        prefix_members(s, n) == prefix_members(s.drop_last(), n),
    decreases n,
{
    if n > 0 {
        lemma_prefix_members_drop_last(s, n - 1);
        assert(s.drop_last()[n - 1] == s[n - 1]);
    }
}

/// The members of all buckets, counted, are the flattened members.
pub proof fn lemma_prefix_members_total(s: Seq<(HashVal, Seq<usize>)>)
    ensures
        prefix_members(s, s.len() as int) == flat_members(s).len(),
    decreases s.len(),
{
    if s.len() > 0 {
        lemma_prefix_members_total(s.drop_last());
        lemma_prefix_members_drop_last(s, s.len() - 1);
    }
}

/// The running conflict count never exceeds the members of the buckets
/// folded so far.
pub proof fn lemma_counter_le_prefix(m: ScanState, fh: Seq<(usize, HashVal)>, n: int)
    requires
        state_wf(m),
        0 <= n <= m.partial.len(),
    ensures
        spec_verify_upto(m, fh, n).1 <= prefix_members(m.partial, n),
    decreases n,
{
    if n > 0 {
        lemma_counter_le_prefix(m, fh, n - 1);
        lemma_upto_props(m, fh, n - 1);
        let prev = spec_verify_upto(m, fh, n - 1).0;
        assert(prev.partial[n - 1] == m.partial[n - 1]);
        lemma_group_by(m.partial[n - 1].1, fh);
    }
}

/// The conflict count of a whole verification is bounded by the record
/// store: every split bucket yields at most one group per member, and a
/// record stands in at most one bucket.
pub proof fn lemma_conflicts_bound(m: ScanState, fh: Seq<(usize, HashVal)>)
    requires
        state_wf(m),
    ensures
        spec_verify(m, fh).1 <= m.records.len(),
{
    lemma_counter_le_prefix(m, fh, m.partial.len() as int);
    lemma_prefix_members_total(m.partial);
    lemma_flat_members_bound(m.partial, m.records.len());
}

// ---------------------------------------------------------------------
// Large uniform buckets
// ---------------------------------------------------------------------

/// The partial checksum a scan computes for the `i`-th file of a walk.
pub open spec fn scan_hash(
    files: Seq<FileView>,
    i: int,
    cs: usize,
    contents: spec_fn(Seq<u8>) -> Seq<u8>,
) -> HashVal {
    spec_checksum(contents(files[i].path), CompareMode::Part(cs))
}

/// A map of buckets below two members yields nothing.
pub proof fn lemma_multi_lists_of_singletons(s: Seq<(HashVal, Seq<usize>)>)
    requires
        forall|j: int| 0 <= j < s.len() ==> (#[trigger] s[j]).1.len() < 2,
    ensures
        multi_lists(s).len() == 0,
    decreases s.len(),
{
    if s.len() > 0 {
        assert(forall|j: int| 0 <= j < s.len() - 1 ==> #[trigger] s.drop_last()[j] == s[j]);
        lemma_multi_lists_of_singletons(s.drop_last());
    }
}

/// A large bucket of distinct content: scanning files that all share one
/// classification key but have pairwise distinct inodes and partial
/// checksums leaves one singleton partial bucket per file and yields no
/// group. Each file's content is consulted exactly once along the way:
/// the first record is hashed when the second arrives, and from then on
/// the slot is observed, so every later push requests only its own
/// record's hash.
pub proof fn lemma_uniform_bucket_scan(
    files: Seq<FileView>,
    cs: usize,
    contents: spec_fn(Seq<u8>) -> Seq<u8>,
    key: u128,
)
    requires
        forall|i: int| 0 <= i < files.len() ==> (#[trigger] files[i]).meta.size != 0,
        forall|i: int|
            0 <= i < files.len() ==> class_key(
                spec_ext_hash((#[trigger] files[i]).path),
                files[i].meta.size,
            ) == key,
        forall|i: int, j: int|
            0 <= i < j < files.len() ==> (#[trigger] files[i]).meta.ino != (
            #[trigger] files[j]).meta.ino,
        forall|i: int, j: int|
            0 <= i < j < files.len() ==> scan_hash(files, i, cs, contents) != scan_hash(
                files,
                j,
                cs,
                contents,
            ),
    ensures
        spec_scan(empty_state(), files, cs, contents).records == files,
        spec_scan(empty_state(), files, cs, contents).pending is None,
        spec_scan(empty_state(), files, cs, contents).duplicated == 0,
        spec_scan(empty_state(), files, cs, contents).full == Seq::<(HashVal, Seq<usize>)>::empty(),
        spec_scan(empty_state(), files, cs, contents).inos.len() == files.len(),
        forall|i: int|
            0 <= i < files.len() ==> #[trigger] spec_scan(
                empty_state(),
                files,
                cs,
                contents,
            ).inos[i] == files[i].meta.ino,
        files.len() <= 1 ==> spec_scan(empty_state(), files, cs, contents).partial.len() == 0,
        files.len() >= 2 ==> spec_scan(empty_state(), files, cs, contents).partial.len()
            == files.len(),
        forall|i: int|
            0 <= i < spec_scan(empty_state(), files, cs, contents).partial.len()
                ==> #[trigger] spec_scan(empty_state(), files, cs, contents).partial[i] == (
            scan_hash(files, i, cs, contents), seq![i as usize]),
        files.len() == 0 ==> spec_scan(empty_state(), files, cs, contents).index.len() == 0,
        files.len() == 1 ==> spec_scan(empty_state(), files, cs, contents).index == seq![
            (key, SlotModel::FirstSeen(0usize)),
        ],
        files.len() >= 2 ==> spec_scan(empty_state(), files, cs, contents).index.len() == 1
            && spec_scan(empty_state(), files, cs, contents).index[0].0 == key && spec_scan(
            empty_state(),
            files,
            cs,
            contents,
        ).index[0].1 is Observed,
        spec_groups(spec_scan(empty_state(), files, cs, contents)).len() == 0,
    decreases files.len(),
{
    let cur = spec_scan(empty_state(), files, cs, contents);
    if files.len() == 0 {
        assert(cur.records =~= files);
        lemma_multi_lists_of_singletons(cur.partial);
        lemma_multi_lists_of_singletons(cur.full);
    } else {
        let pre = files.drop_last();
        let n = pre.len() as int;
        let f = files.last();
        assert(forall|i: int| 0 <= i < n ==> #[trigger] pre[i] == files[i]);
        assert forall|i: int, j: int|
            0 <= i < j < pre.len() implies scan_hash(pre, i, cs, contents) != scan_hash(
            pre,
            j,
            cs,
            contents,
        ) by {
            assert(pre[i] == files[i] && pre[j] == files[j]);
            assert(scan_hash(files, i, cs, contents) != scan_hash(files, j, cs, contents));
        }
        lemma_uniform_bucket_scan(pre, cs, contents, key);
        let prev = spec_scan(empty_state(), pre, cs, contents);
        assert(forall|i: int| 0 <= i < prev.partial.len()
            ==> #[trigger] prev.partial[i] == (scan_hash(pre, i, cs, contents), seq![i as usize]));
        // the new inode was never seen
        assert(!prev.inos.contains(f.meta.ino)) by {
            if prev.inos.contains(f.meta.ino) {
                let w = choose|w: int| 0 <= w < prev.inos.len() && prev.inos[w] == f.meta.ino;
                assert(files[w].meta.ino == files[files.len() - 1].meta.ino);
            }
        }
        let (m1, out) = spec_push1(prev, f, cs);
        assert(m1.records =~= files);
        let hnew = scan_hash(files, files.len() - 1, cs, contents);
        // the new partial hash matches no existing bucket key
        assert forall|j: int| 0 <= j < prev.partial.len() implies (#[trigger] prev.partial[j]).0
            != hnew by {
            assert(prev.partial[j].0 == scan_hash(pre, j, cs, contents));
            assert(pre[j] == files[j]);
            assert(scan_hash(files, j, cs, contents) != hnew);
        }
        if n == 0 {
            // first file: recorded without a request
            assert(alist_find(prev.index, key) is None);
            assert(cur == m1);
            assert(cur.index =~= seq![(key, SlotModel::FirstSeen(0usize))]);
            lemma_multi_lists_of_singletons(cur.partial);
            lemma_multi_lists_of_singletons(cur.full);
        } else {
            lemma_alist_find_is(prev.index, key, 0);
            if n == 1 {
                // second file: both records are hashed, the slot observes
                let req = HashRequest {
                    current: 1usize,
                    previous: Some(0usize),
                    key: key,
                    window: cs,
                };
                assert(m1.pending == Some(req));
                assert(m1.records[0].path == files[0].path);
                let h0 = scan_hash(files, 0, cs, contents);
                assert(cur == spec_supply(m1, hnew, Some(h0)));
                lemma_alist_find_is(m1.index, key, 0);
                let partial1 = bucket_append(m1.partial, h0, 0usize);
                lemma_alist_find_none(m1.partial, h0);
                assert(partial1 =~= seq![(h0, seq![0usize])]);
                lemma_alist_find_none(partial1, hnew);
                let partial2 = bucket_append(partial1, hnew, 1usize);
                assert(partial2 =~= seq![(h0, seq![0usize]), (hnew, seq![1usize])]);
                lemma_alist_find_is(partial2, hnew, 1);
                assert(bucket_len(partial2, hnew) == 1);
                assert(cur.partial == partial2);
                assert(cur.duplicated == 0);
                assert(cur.index.len() == 1 && cur.index[0].0 == key && cur.index[0].1
                    is Observed);
            } else {
                // a later file: only the new record is hashed
                let req = HashRequest {
                    current: n as usize,
                    previous: None,
                    key: key,
                    window: cs,
                };
                assert(prev.index[0].1 is Observed);
                assert(m1.pending == Some(req));
                assert(cur == spec_supply(m1, hnew, None));
                lemma_alist_find_is(m1.index, key, 0);
                lemma_alist_find_none(m1.partial, hnew);
                let partial2 = bucket_append(m1.partial, hnew, n as usize);
                assert(partial2 =~= m1.partial.push((hnew, seq![n as usize])));
                lemma_alist_find_is(partial2, hnew, n);
                assert(bucket_len(partial2, hnew) == 1);
                assert(cur.partial == partial2);
                assert(cur.duplicated == 0);
                assert(cur.index.len() == 1 && cur.index[0].0 == key && cur.index[0].1
                    is Observed);
            }
            assert(cur.inos =~= prev.inos.push(f.meta.ino));
            assert forall|i: int|
                0 <= i < cur.partial.len() implies #[trigger] cur.partial[i] == (
            scan_hash(files, i, cs, contents), seq![i as usize]) by {
                if i < prev.partial.len() {
                    assert(cur.partial[i] == prev.partial[i]);
                    assert(pre[i] == files[i]);
                }
            }
            assert forall|j: int| 0 <= j < cur.partial.len() implies (
            #[trigger] cur.partial[j]).1.len() < 2 by {
                assert(cur.partial[j] == (scan_hash(files, j, cs, contents), seq![j as usize]));
            }
            lemma_multi_lists_of_singletons(cur.partial);
            lemma_multi_lists_of_singletons(cur.full);
        }
    }
}

/// Records `a` and `b` stand together in some bucket of either map.
pub open spec fn shares_group(m: ScanState, a: usize, b: usize) -> bool {
    exists|jj: int|
        #![trigger occurs_in(m.partial, jj, a), occurs_in(m.partial, jj, b)]
        #![trigger occurs_in(m.full, jj, a), occurs_in(m.full, jj, b)]
        (occurs_in(m.partial, jj, a) && occurs_in(m.partial, jj, b)) || (occurs_in(m.full, jj, a)
            && occurs_in(m.full, jj, b))
}

/// Verify soundness: two records that stood in the same multi-member
/// partial bucket share a group after verification exactly when their
/// assigned full-content hashes agree.
pub proof fn lemma_verify_soundness(
    m: ScanState,
    fh: Seq<(usize, HashVal)>,
    j: int,
    a: usize,
    b: usize,
)
    requires
        state_wf(m),
        0 <= j < m.partial.len(),
        m.partial[j].1.len() >= 2,
        m.partial[j].1.contains(a),
        m.partial[j].1.contains(b),
    ensures
        shares_group(spec_verify(m, fh).0, a, b) <==> asg_hash(fh, a) == asg_hash(fh, b),
{
    let n = m.partial.len() as int;
    let mt = spec_verify(m, fh).0;
    let entry = m.partial[j];
    lemma_upto_props(m, fh, n);
    lemma_group_by(entry.1, fh);
    if !esplit(entry, fh) {
        // one full-hash group: the entry stays, hashes agree
        assert(mt.partial[j] == m.partial[j]);
        assert(shares_group(mt, a, b)) by {
            assert(occurs_in(mt.partial, j, a) && occurs_in(mt.partial, j, b));
        }
        let gb = spec_group_by(entry.1, fh);
        assert(gb.len() == 1);
        assert(occurs_at_key(gb, asg_hash(fh, a), a));
        assert(occurs_at_key(gb, asg_hash(fh, b), b));
        let wa = choose|w: int| #[trigger] occurs_in(gb, w, a) && gb[w].0 == asg_hash(fh, a);
        let wb = choose|w: int| #[trigger] occurs_in(gb, w, b) && gb[w].0 == asg_hash(fh, b);
        assert(wa == 0 && wb == 0);
    } else {
        // the entry is split: members stand in the full map only, keyed by
        // their own hash
        assert(occurs_at_key(mt.full, asg_hash(fh, a), a));
        assert(occurs_at_key(mt.full, asg_hash(fh, b), b));
        assert(!occurs(mt.partial, a)) by {
            if occurs(mt.partial, a) {
                let w = choose|w: int| occurs_in(mt.partial, w, a);
                assert(occurs_in(m.partial, w, a));
                assert(occurs_in(m.partial, j, a));
                assert(w == j);
                assert(mt.partial[j] == (m.partial[j].0, Seq::<usize>::empty()));
            }
        }
        assert(!occurs(mt.partial, b)) by {
            if occurs(mt.partial, b) {
                let w = choose|w: int| occurs_in(mt.partial, w, b);
                assert(occurs_in(m.partial, w, b));
                assert(occurs_in(m.partial, j, b));
                assert(w == j);
                assert(mt.partial[j] == (m.partial[j].0, Seq::<usize>::empty()));
            }
        }
        let wa = choose|w: int| #[trigger] occurs_in(mt.full, w, a) && mt.full[w].0 == asg_hash(
            fh,
            a,
        );
        let wb = choose|w: int| #[trigger] occurs_in(mt.full, w, b) && mt.full[w].0 == asg_hash(
            fh,
            b,
        );
        if asg_hash(fh, a) == asg_hash(fh, b) {
            // both stand in the bucket of the shared hash
            assert(alist_distinct_keys(mt.full));
            assert(wa == wb) by {
                if wa < wb {
                    assert((mt.full[wa]).0 != (mt.full[wb]).0);
                }
                if wb < wa {
                    assert((mt.full[wa]).0 != (mt.full[wb]).0);
                }
            }
            assert(shares_group(mt, a, b)) by {
                assert(occurs_in(mt.full, wa, a) && occurs_in(mt.full, wa, b));
            }
        } else {
            // distinct hashes: a and b stand in distinct buckets, and in no
            // partial bucket at all
            assert(!shares_group(mt, a, b)) by {
                if shares_group(mt, a, b) {
                    let w = choose|w: int|
                        #![trigger occurs_in(mt.partial, w, a), occurs_in(mt.partial, w, b)]
                        #![trigger occurs_in(mt.full, w, a), occurs_in(mt.full, w, b)]
                        (occurs_in(mt.partial, w, a) && occurs_in(mt.partial, w, b)) || (occurs_in(
                            mt.full,
                            w,
                            a,
                        ) && occurs_in(mt.full, w, b));
                    assert(occurs_in(mt.full, w, a) && occurs_in(mt.full, w, b));
                    assert(w == wa);
                    assert(w == wb);
                    assert(mt.full[w].0 == asg_hash(fh, a));
                    assert(mt.full[w].0 == asg_hash(fh, b));
                }
            }
        }
    }
}

// ---------------------------------------------------------------------
// Verification: the executable side
// ---------------------------------------------------------------------

/// Record `i` stands in a multi-member partial bucket, so verification
/// needs its full-content hash.
pub open spec fn needs_full_hash(m: ScanState, i: usize) -> bool {
    exists|j: int| #[trigger] occurs_in(m.partial, j, i) && m.partial[j].1.len() >= 2
}

/// The assigned hash of record `i`.
fn asg_get(v: &Vec<(usize, HashVal)>, i: usize) -> (r: HashVal)
    requires
        asg_has(v@, i),
    ensures
        r == asg_hash(v@, i),
{
    let mut k: usize = 0;
    while k < v.len()
        invariant
            0 <= k <= v@.len(),
            asg_has(v@, i),
            forall|w: int| 0 <= w < k ==> (#[trigger] v@[w]).0 != i,
        decreases v@.len() - k,
    {
        let pair = &v[k];
        if pair.0 == i {
            proof {
                lemma_alist_find_is(v@, i, k as int);
            }
            return pair.1;
        }
        k = k + 1;
    }
    proof {
        lemma_alist_find_none(v@, i);
        assert(false);
    }
    HashVal { w0: 0, w1: 0, w2: 0, w3: 0 }
}

/// Appends the whole list `l` under key `h`.
fn bucket_append_all_exec(v: &mut Vec<(HashVal, Vec<usize>)>, h: HashVal, l: Vec<usize>)
    requires
        alist_distinct_keys(buckets_model(old(v)@)),
    ensures
        buckets_model(final(v)@) == bucket_append_all(buckets_model(old(v)@), h, l@),
{
    let ghost s = buckets_model(old(v)@);
    proof {
        lemma_bucket_append_all(s, h, l@);
        lemma_alist_find(s, h);
    }
    match find_bucket(v, h) {
        Some(j) => {
            let mut pair = v.remove(j);
            let mut rest = l;
            pair.1.append(&mut rest);
            v.insert(j, pair);
            proof {
                assert(v@ =~= old(v)@.update(j as int, v@[j as int]));
                assert(buckets_model(v@) =~~= bucket_append_all(s, h, l@));
            }
        },
        None => {
            v.push((h, l));
            proof {
                assert(buckets_model(v@) =~~= bucket_append_all(s, h, l@));
            }
        },
    }
}

impl<F: ScanFilter> Duplicate<F> {
    /// The records whose full-content hashes `verify` will ask about:
    /// exactly the members of multi-member partial buckets.
    pub fn verify_candidates(&self) -> (r: Vec<usize>)
        ensures
            forall|i: usize| r@.contains(i) <==> needs_full_hash(self.model(), i),
    {
        let ghost s = buckets_model(self.hash2files@);
        let mut r: Vec<usize> = Vec::new();
        let mut j: usize = 0;
        while j < self.hash2files.len()
            invariant
                0 <= j <= s.len(),
                s == buckets_model(self.hash2files@),
                forall|i: usize|
                    r@.contains(i) <==> (exists|jj: int|
                        0 <= jj < j && #[trigger] occurs_in(s, jj, i) && s[jj].1.len() >= 2),
            decreases s.len() - j,
        {
            let blen = self.hash2files[j].1.len();
            if blen >= 2 {
                let mut k: usize = 0;
                while k < blen
                    invariant
                        0 <= k <= blen,
                        0 <= j < s.len(),
                        s == buckets_model(self.hash2files@),
                        blen == s[j as int].1.len(),
                        blen >= 2,
                        forall|i: usize|
                            r@.contains(i) <==> (exists|jj: int|
                                0 <= jj < j && #[trigger] occurs_in(s, jj, i) && s[jj].1.len()
                                    >= 2) || s[j as int].1.take(k as int).contains(i),
                    decreases blen - k,
                {
                    let pair = &self.hash2files[j];
                    r.push(pair.1[k]);
                    k = k + 1;
                    proof {
                        assert(s[j as int].1.take(k as int) =~= s[j as int].1.take(
                            k - 1,
                        ).push(s[j as int].1[k - 1]));
                    }
                }
                proof {
                    assert(s[j as int].1.take(blen as int) =~= s[j as int].1);
                    assert forall|i: usize|
                        r@.contains(i) <==> ((exists|jj: int|
                            0 <= jj < j + 1 && #[trigger] occurs_in(s, jj, i) && s[jj].1.len()
                                >= 2)) by {
                        if s[j as int].1.contains(i) {
                            assert(occurs_in(s, j as int, i));
                        }
                        if exists|jj: int|
                            0 <= jj < j + 1 && #[trigger] occurs_in(s, jj, i) && s[jj].1.len()
                                >= 2 {
                            let jj = choose|jj: int|
                                0 <= jj < j + 1 && #[trigger] occurs_in(s, jj, i) && s[jj].1.len()
                                    >= 2;
                            if jj == j {
                                assert(s[j as int].1.contains(i));
                            }
                        }
                    }
                }
            } else {
                proof {
                    assert forall|i: usize|
                        r@.contains(i) <==> ((exists|jj: int|
                            0 <= jj < j + 1 && #[trigger] occurs_in(s, jj, i) && s[jj].1.len()
                                >= 2)) by {
                        if exists|jj: int|
                            0 <= jj < j + 1 && #[trigger] occurs_in(s, jj, i) && s[jj].1.len()
                                >= 2 {
                            let jj = choose|jj: int|
                                0 <= jj < j + 1 && #[trigger] occurs_in(s, jj, i) && s[jj].1.len()
                                    >= 2;
                            assert(jj != j);
                        }
                    }
                }
            }
            j = j + 1;
        }
        proof {
            assert forall|i: usize| r@.contains(i) <==> needs_full_hash(self.model(), i) by {
                assert(self.model().partial == s);
                if r@.contains(i) {
                    let jj = choose|jj: int|
                        0 <= jj < j && #[trigger] occurs_in(s, jj, i) && s[jj].1.len() >= 2;
                    assert(occurs_in(self.model().partial, jj, i));
                }
                if needs_full_hash(self.model(), i) {
                    let jj = choose|jj: int|
                        #[trigger] occurs_in(self.model().partial, jj, i)
                            && self.model().partial[jj].1.len() >= 2;
                    assert(occurs_in(s, jj, i) && s[jj].1.len() >= 2);
                }
            }
        }
        r
    }

    /// Verification, exactly `spec_verify`: every multi-member partial
    /// bucket whose members' full hashes disagree is emptied, its members
    /// regrouped into the full map by full hash; buckets whose members all
    /// agree stay untouched. Returns the conflict count: the number of
    /// full-hash groups produced over all split buckets; it never exceeds
    /// the record count (`lemma_conflicts_bound`), so it fits the machine
    /// word.
    pub fn verify(&mut self, assignment: &Vec<(usize, HashVal)>) -> (conflicts: usize)
        requires
            old(self).wf(),
            old(self).pending is None,
            asg_covers(old(self).model(), assignment@),
        ensures
            final(self).wf(),
            final(self).model() == spec_verify(old(self).model(), assignment@).0,
            conflicts == spec_verify(old(self).model(), assignment@).1,
            final(self).root == old(self).root,
            final(self).records == old(self).records,
            final(self).filter == old(self).filter,
            final(self).status == old(self).status,
            final(self).pending is None,
    {
        let ghost m0 = self.model();
        let ghost fh = assignment@;
        let mut conflicts: usize = 0;
        let mut j: usize = 0;
        proof {
            lemma_upto_props(m0, fh, 0);
            lemma_conflicts_bound(m0, fh);
        }
        while j < self.hash2files.len()
            invariant
                state_wf(m0),
                asg_covers(m0, fh),
                spec_verify(m0, fh).1 <= usize::MAX,
                fh == assignment@,
                0 <= j <= m0.partial.len(),
                self.model() == spec_verify_upto(m0, fh, j as int).0,
                conflicts == spec_verify_upto(m0, fh, j as int).1,
                self.hash2files@.len() == m0.partial.len(),
                self.root == old(self).root,
                self.records == old(self).records,
                self.filter == old(self).filter,
                self.status == old(self).status,
                self.pending == old(self).pending,
                m0 == old(self).model(),
            decreases m0.partial.len() - j,
        {
            proof {
                lemma_upto_props(m0, fh, j as int);
                lemma_upto_props(m0, fh, j + 1);
                lemma_step_props(spec_verify_upto(m0, fh, j as int).0, fh, j as int);
                lemma_upto_counter_monotone(m0, fh, j + 1, m0.partial.len() as int);
            }
            let ghost mprev = spec_verify_upto(m0, fh, j as int).0;
            let ghost entry = m0.partial[j as int];
            let blen = self.hash2files[j].1.len();
            proof {
                assert(mprev.partial[j as int] == entry);
                assert(buckets_model(self.hash2files@)[j as int].1 == entry.1);
            }
            if blen >= 2 {
                let ghost members = entry.1;
                let mut groups: Vec<(HashVal, Vec<usize>)> = Vec::new();
                let mut k: usize = 0;
                proof {
                    assert(buckets_model(groups@) =~= spec_group_by(members.take(0), fh));
                }
                while k < blen
                    invariant
                        0 <= k <= blen,
                        0 <= j < m0.partial.len(),
                        state_wf(m0),
                        asg_covers(m0, fh),
                        fh == assignment@,
                        members == m0.partial[j as int].1,
                        blen == members.len(),
                        blen >= 2,
                        self.hash2files@.len() == m0.partial.len(),
                        buckets_model(self.hash2files@)[j as int].1 == members,
                        buckets_model(groups@) == spec_group_by(members.take(k as int), fh),
                        alist_distinct_keys(buckets_model(groups@)),
                    decreases blen - k,
                {
                    let pair = &self.hash2files[j];
                    let idx = pair.1[k];
                    proof {
                        assert(members.contains(members[k as int]));
                        assert(occurs_in(m0.partial, j as int, idx));
                    }
                    let h = asg_get(assignment, idx);
                    proof {
                        lemma_bucket_append(buckets_model(groups@), h, idx);
                    }
                    bucket_append_exec(&mut groups, h, idx);
                    k = k + 1;
                    proof {
                        assert(members.take(k as int).drop_last() =~= members.take(k - 1));
                        assert(members.take(k as int).last() == members[k - 1]);
                    }
                }
                proof {
                    assert(members.take(blen as int) =~= members);
                    lemma_group_by(members, fh);
                }
                let glen = groups.len();
                if glen >= 2 {
                    proof {
                        assert(esplit(entry, fh)) by {
                            assert(spec_group_by(members, fh).len() == buckets_model(
                                groups@,
                            ).len());
                        }
                    }
                    // empty the split bucket, keeping its key
                    let cleared = self.hash2files.remove(j);
                    self.hash2files.insert(j, (cleared.0, Vec::new()));
                    proof {
                        assert(buckets_model(self.hash2files@) =~~= mprev.partial.update(
                            j as int,
                            (entry.0, Seq::<usize>::empty()),
                        ));
                    }
                    // merge each full-hash group into the full map
                    let ghost gb = spec_group_by(members, fh);
                    let ghost full0 = buckets_model(self.full_hash2files@);
                    let ghost self_snap = *self;
                    let mut g: usize = 0;
                    proof {
                        assert(spec_merge(full0, gb.take(0)) =~= full0);
                        assert(full0 == mprev.full);
                    }
                    while g < glen
                        invariant
                            self.root == self_snap.root,
                            self.records == self_snap.records,
                            self.inodes == self_snap.inodes,
                            self.index == self_snap.index,
                            self.hash2files == self_snap.hash2files,
                            self.filter == self_snap.filter,
                            self.status == self_snap.status,
                            self.pending == self_snap.pending,
                            0 <= g <= glen,
                            glen == groups@.len(),
                            gb == buckets_model(groups@),
                            alist_distinct_keys(gb),
                            forall|jj: int, x: usize|
                                #[trigger] occurs_in(gb, jj, x) ==> gb[jj].0 == asg_hash(fh, x),
                            alist_distinct_keys(full0),
                            buckets_model(self.full_hash2files@) == spec_merge(
                                full0,
                                gb.take(g as int),
                            ),
                            fh == assignment@,
                        decreases glen - g,
                    {
                        proof {
                            assert(alist_distinct_keys(gb.take(g as int))) by {
                                assert(forall|w: int|
                                    0 <= w < g ==> #[trigger] gb.take(g as int)[w] == gb[w]);
                            }
                            assert forall|jj: int, x: usize|
                                #[trigger] occurs_in(gb.take(g as int), jj, x) implies gb.take(
                                g as int,
                            )[jj].0 == asg_hash(fh, x) by {
                                assert(occurs_in(gb, jj, x));
                            }
                            lemma_merge(full0, gb.take(g as int), fh);
                        }
                        let pair = &groups[g];
                        let key = pair.0;
                        let lst = copy_indices(&pair.1);
                        bucket_append_all_exec(&mut self.full_hash2files, key, lst);
                        g = g + 1;
                        proof {
                            assert(gb.take(g as int).drop_last() =~= gb.take(g - 1));
                            assert(gb.take(g as int).last() == gb[g - 1]);
                        }
                    }
                    proof {
                        assert(gb.take(glen as int) =~= gb);
                        assert(gb.len() == glen);
                        assert(spec_step_conflicts(mprev, fh, j as int) == glen);
                        assert(spec_verify_upto(m0, fh, j + 1).1 == conflicts + glen);
                        assert(conflicts + glen <= usize::MAX);
                    }
                    conflicts = conflicts + glen;
                    proof {
                        assert(buckets_model(self.full_hash2files@) == spec_merge(full0, gb));
                        assert(self.model() =~~= spec_verify_upto(m0, fh, j + 1).0);
                    }
                } else {
                    proof {
                        assert(!esplit(entry, fh)) by {
                            assert(spec_group_by(members, fh).len() == buckets_model(
                                groups@,
                            ).len());
                        }
                        assert(self.model() =~~= spec_verify_upto(m0, fh, j + 1).0);
                    }
                }
            } else {
                proof {
                    assert(!esplit(entry, fh));
                    assert(self.model() =~~= spec_verify_upto(m0, fh, j + 1).0);
                }
            }
            j = j + 1;
        }
        proof {
            assert(j as int == m0.partial.len() as int);
            lemma_upto_props(m0, fh, j as int);
            assert(self.model() == spec_verify(m0, fh).0);
            assert(conflicts == spec_verify(m0, fh).1);
        }
        conflicts
    }
}

} // verus!
