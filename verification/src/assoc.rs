//! Association-list model: the store keeps every keyed collection as a
//! vector of (key, value) pairs with unique keys, looked up by first match.

use vstd::prelude::*;

verus! {

/// Index of the first pair whose key is `k`, or -1 when none is.
pub open spec fn find_key<K, V>(s: Seq<(K, V)>, k: K) -> int
    decreases s.len(),
{
    if s.len() == 0 {
        -1
    } else if s[0].0 == k {
        0
    } else {
        let r = find_key(s.drop_first(), k);
        if r == -1 {
            -1
        } else {
            r + 1
        }
    }
}

pub open spec fn has_key<K, V>(s: Seq<(K, V)>, k: K) -> bool {
    find_key(s, k) >= 0
}

/// The value of the first pair whose key is `k`; meaningful under `has_key`.
pub open spec fn get_val<K, V>(s: Seq<(K, V)>, k: K) -> V {
    s[find_key(s, k)].1
}

/// `s` with the value of the first pair keyed `k` replaced by `v`.
pub open spec fn set_val<K, V>(s: Seq<(K, V)>, k: K, v: V) -> Seq<(K, V)> {
    s.update(find_key(s, k), (k, v))
}

/// `set_val` when the key is present, append otherwise.
pub open spec fn put_val<K, V>(s: Seq<(K, V)>, k: K, v: V) -> Seq<(K, V)> {
    if has_key(s, k) {
        set_val(s, k, v)
    } else {
        s.push((k, v))
    }
}

/// The keys of `s`, in order.
pub open spec fn keys_of<K, V>(s: Seq<(K, V)>) -> Seq<K> {
    Seq::new(s.len(), |i: int| s[i].0)
}

pub open spec fn keys_unique<K, V>(s: Seq<(K, V)>) -> bool {
    forall|i: int, j: int| 0 <= i < j < s.len() ==> s[i].0 != s[j].0
}

/// Where the first occurrence of `k` sits: nowhere, or at a valid index
/// before which `k` does not occur.
pub proof fn lemma_find_key<K, V>(s: Seq<(K, V)>, k: K)
    ensures
        find_key(s, k) == -1 ==> forall|i: int| 0 <= i < s.len() ==> s[i].0 != k,
        find_key(s, k) != -1 ==> {
            &&& 0 <= find_key(s, k) < s.len()
            &&& s[find_key(s, k)].0 == k
            &&& forall|i: int| 0 <= i < find_key(s, k) ==> s[i].0 != k
        },
    decreases s.len(),
{
    if s.len() == 0 {
    } else if s[0].0 == k {
    } else {
        lemma_find_key(s.drop_first(), k);
        assert(forall|i: int| 1 <= i < s.len() ==> s[i] == s.drop_first()[i - 1]);
    }
}

/// Updating or appending a pair keeps the keys unique.
pub proof fn lemma_put_val_unique<K, V>(s: Seq<(K, V)>, k: K, v: V)
    requires
        keys_unique(s),
    ensures
        keys_unique(put_val(s, k, v)),
{
    lemma_find_key(s, k);
    if has_key(s, k) {
        let t = set_val(s, k, v);
        assert forall|i: int, j: int| 0 <= i < j < t.len() implies t[i].0 != t[j].0 by {
            assert(s[i].0 != s[j].0);
        }
    } else {
        let t = s.push((k, v));
        assert forall|i: int, j: int| 0 <= i < j < t.len() implies t[i].0 != t[j].0 by {
            if j < s.len() {
                assert(s[i].0 != s[j].0);
            } else {
                assert(t[j].0 == k && s[i].0 != k);
            }
        }
    }
}

} // verus!
