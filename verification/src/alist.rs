//! Association sequences: the mathematical core of the engine's maps.
//!
//! The engine keys small maps by classification key, content hash and
//! record index. All of them are held as vectors of pairs with distinct
//! keys; the spec functions here give lookup and update their meaning.

use vstd::prelude::*;

verus! {

/// The position of the first pair with key `k`, or `None`.
pub open spec fn alist_find<K, V>(s: Seq<(K, V)>, k: K) -> Option<int>
    decreases s.len(),
{
    if s.len() == 0 {
        None
    } else if s[0].0 == k {
        Some(0)
    } else {
        match alist_find(s.drop_first(), k) {
            Some(i) => Some(i + 1),
            None => None,
        }
    }
}

/// No two pairs share a key.
pub open spec fn alist_distinct_keys<K, V>(s: Seq<(K, V)>) -> bool {
    forall|i: int, j: int| 0 <= i < j < s.len() ==> (#[trigger] s[i]).0 != (#[trigger] s[j]).0
}

/// What `alist_find` returns: the first position holding the key.
pub proof fn lemma_alist_find<K, V>(s: Seq<(K, V)>, k: K)
    ensures
        match alist_find(s, k) {
            Some(i) => 0 <= i < s.len() && s[i].0 == k && (forall|j: int|
                0 <= j < i ==> (#[trigger] s[j]).0 != k),
            None => forall|j: int| 0 <= j < s.len() ==> (#[trigger] s[j]).0 != k,
        },
    decreases s.len(),
{
    if s.len() > 0 && s[0].0 != k {
        let t = s.drop_first();
        lemma_alist_find(t, k);
        match alist_find(t, k) {
            Some(i) => {
                assert(s[i + 1] == t[i]);
                assert forall|j: int| 0 <= j < i + 1 implies (#[trigger] s[j]).0 != k by {
                    if j > 0 {
                        assert(s[j] == t[j - 1]);
                    }
                }
            },
            None => {
                assert forall|j: int| 0 <= j < s.len() implies (#[trigger] s[j]).0 != k by {
                    if j > 0 {
                        assert(s[j] == t[j - 1]);
                    }
                }
            },
        }
    }
}

/// A position that holds the key first is what `alist_find` returns.
pub proof fn lemma_alist_find_is<K, V>(s: Seq<(K, V)>, k: K, i: int)
    requires
        0 <= i < s.len(),
        s[i].0 == k,
        forall|j: int| 0 <= j < i ==> (#[trigger] s[j]).0 != k,
    ensures
        alist_find(s, k) == Some(i),
    decreases s.len(),
{
    if i > 0 {
        lemma_alist_find_is(s.drop_first(), k, i - 1);
        assert(forall|j: int| 0 <= j < s.len() - 1 ==> #[trigger] s.drop_first()[j] == s[j + 1]);
    }
}

/// When no position holds the key, `alist_find` finds nothing.
pub proof fn lemma_alist_find_none<K, V>(s: Seq<(K, V)>, k: K)
    requires
        forall|j: int| 0 <= j < s.len() ==> (#[trigger] s[j]).0 != k,
    ensures
        alist_find(s, k) is None,
    decreases s.len(),
{
    if s.len() > 0 {
        assert(forall|j: int| 0 <= j < s.len() - 1 ==> #[trigger] s.drop_first()[j] == s[j + 1]);
        lemma_alist_find_none(s.drop_first(), k);
    }
}

/// Updating a pair in place, key kept, moves no other pair: lookups of
/// every key land where they did.
pub proof fn lemma_alist_find_after_update<K, V>(s: Seq<(K, V)>, j: int, v: V, k: K)
    requires
        0 <= j < s.len(),
    ensures
        alist_find(s.update(j, (s[j].0, v)), k) == alist_find(s, k),
{
    let t = s.update(j, (s[j].0, v));
    assert(forall|i: int| 0 <= i < s.len() ==> (#[trigger] t[i]).0 == s[i].0);
    lemma_alist_find(s, k);
    match alist_find(s, k) {
        Some(i) => lemma_alist_find_is(t, k, i),
        None => lemma_alist_find_none(t, k),
    }
}

/// Appending a pair with a fresh key leaves old lookups in place and makes
/// the new key found at the end.
pub proof fn lemma_alist_find_after_push<K, V>(s: Seq<(K, V)>, k0: K, v: V, k: K)
    requires
        alist_find(s, k0) is None,
    ensures
        alist_find(s.push((k0, v)), k) == if k == k0 {
            Some(s.len() as int)
        } else {
            alist_find(s, k)
        },
{
    let t = s.push((k0, v));
    lemma_alist_find(s, k0);
    lemma_alist_find(s, k);
    if k == k0 {
        lemma_alist_find_is(t, k, s.len() as int);
    } else {
        match alist_find(s, k) {
            Some(i) => lemma_alist_find_is(t, k, i),
            None => lemma_alist_find_none(t, k),
        }
    }
}

} // verus!
