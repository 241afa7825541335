//! Spec-level helpers for association lists: sequences of key/value pairs
//! with unique keys, the mathematical model behind the stores' `Vec` fields.

use vstd::prelude::*;

verus! {

/// The key `k` occurs somewhere in the list.
pub open spec fn has_key<K, V>(s: Seq<(K, V)>, k: K) -> bool {
    exists|i: int| 0 <= i < s.len() && (#[trigger] s[i]).0 == k
}

/// An index at which `k` occurs (meaningful only when `has_key` holds).
pub open spec fn idx_of<K, V>(s: Seq<(K, V)>, k: K) -> int {
    choose|i: int| 0 <= i < s.len() && (#[trigger] s[i]).0 == k
}

/// The value stored under `k` (meaningful only when `has_key` holds).
pub open spec fn val_of<K, V>(s: Seq<(K, V)>, k: K) -> V {
    s[idx_of(s, k)].1
}

/// No key occurs twice.
pub open spec fn keys_unique<K, V>(s: Seq<(K, V)>) -> bool {
    forall|i: int, j: int|
        0 <= i < j < s.len() ==> (#[trigger] s[i]).0 != (#[trigger] s[j]).0
}

/// When `k` is present, `idx_of` picks a real occurrence.
pub proof fn lemma_idx_of<K, V>(s: Seq<(K, V)>, k: K)
    requires
        has_key(s, k),
    ensures
        0 <= idx_of(s, k) < s.len(),
        s[idx_of(s, k)].0 == k,
        val_of(s, k) == s[idx_of(s, k)].1,
{
}

/// Removing an entry from a unique-keyed list removes exactly that key.
pub proof fn lemma_remove_entry<K, V>(s: Seq<(K, V)>, i: int)
    requires
        keys_unique(s),
        0 <= i < s.len(),
    ensures
        keys_unique(s.remove(i)),
        !has_key(s.remove(i), s[i].0),
        forall|k: K|
            k != s[i].0 ==> ((has_key(s.remove(i), k) <==> has_key(s, k)) && (has_key(s, k)
                ==> val_of(s.remove(i), k) == val_of(s, k))),
{
    let w = s.remove(i);
    assert(forall|j: int| 0 <= j < i ==> w[j] == s[j]);
    assert(forall|j: int| i <= j < w.len() ==> w[j] == s[j + 1]);
    assert(keys_unique(w)) by {
        assert forall|a: int, b: int| 0 <= a < b < w.len() implies (#[trigger] w[a]).0 != (
        #[trigger] w[b]).0 by {
            let a2 = if a < i {
                a
            } else {
                a + 1
            };
            let b2 = if b < i {
                b
            } else {
                b + 1
            };
            assert(s[a2].0 != s[b2].0);
        }
    }
    assert(!has_key(w, s[i].0)) by {
        if has_key(w, s[i].0) {
            lemma_idx_of(w, s[i].0);
            let j = idx_of(w, s[i].0);
            let j2 = if j < i {
                j
            } else {
                j + 1
            };
            assert(s[j2].0 == s[i].0);
            if j2 < i {
                assert(s[j2].0 != s[i].0);
            } else {
                assert(s[i].0 != s[j2].0);
            }
        }
    }
    assert forall|k: K| k != s[i].0 implies ((has_key(w, k) <==> has_key(s, k)) && (has_key(s, k)
        ==> val_of(w, k) == val_of(s, k))) by {
        if has_key(s, k) {
            lemma_idx_of(s, k);
            let j = idx_of(s, k);
            let j2 = if j < i {
                j
            } else {
                j - 1
            };
            assert(w[j2].0 == k);
            lemma_idx_of_unique(w, k, j2);
            lemma_idx_of_unique(s, k, j);
        }
        if has_key(w, k) {
            lemma_idx_of(w, k);
            let j = idx_of(w, k);
            let j2 = if j < i {
                j
            } else {
                j + 1
            };
            assert(s[j2].0 == k);
        }
    }
}

/// Under unique keys, `idx_of` is the only occurrence of its key.
pub proof fn lemma_idx_of_unique<K, V>(s: Seq<(K, V)>, k: K, i: int)
    requires
        keys_unique(s),
        0 <= i < s.len(),
        s[i].0 == k,
    ensures
        has_key(s, k),
        idx_of(s, k) == i,
        val_of(s, k) == s[i].1,
{
    assert(has_key(s, k));
    lemma_idx_of(s, k);
    let j = idx_of(s, k);
    if i != j {
        if i < j {
            assert(s[i].0 != s[j].0);
        } else {
            assert(s[j].0 != s[i].0);
        }
    }
}

} // verus!
