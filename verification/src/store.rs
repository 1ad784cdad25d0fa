//! Key-value stores kept as vectors of `(key, value)` entries, looked up by
//! the first matching key. Every persisted component of the ledger (schedules
//! by owner, balances, transaction history) is such a store, so the lookup
//! and update reasoning lives here once, generic over the value type.

use vstd::pervasive::VecAdditionalExecFns;
use vstd::prelude::*;

verus! {

/// Index of the first entry of `s` whose key is `key`, or `-1` when no entry
/// matches.
pub open spec fn assoc_index<V>(s: Seq<(u64, V)>, key: u64) -> int
    decreases s.len(),
{
    if s.len() == 0 {
        -1
    } else if s[0].0 == key {
        0
    } else if assoc_index(s.skip(1), key) == -1 {
        -1
    } else {
        assoc_index(s.skip(1), key) + 1
    }
}

/// The value held by the first entry of `s` keyed by `key`, when there is one.
pub open spec fn assoc_lookup<V>(s: Seq<(u64, V)>, key: u64) -> Option<V> {
    if assoc_index(s, key) >= 0 {
        Some(s[assoc_index(s, key)].1)
    } else {
        None
    }
}

/// `assoc_index` either reports `-1` and no entry matches, or points at the
/// first matching entry.
pub proof fn lemma_assoc_index<V>(s: Seq<(u64, V)>, key: u64)
    ensures
        assoc_index(s, key) == -1 ==> forall|j: int|
            0 <= j < s.len() ==> (#[trigger] s[j]).0 != key,
        assoc_index(s, key) != -1 ==> 0 <= assoc_index(s, key) < s.len()
            && s[assoc_index(s, key)].0 == key
            && forall|j: int| 0 <= j < assoc_index(s, key) ==> (#[trigger] s[j]).0 != key,
    decreases s.len(),
{
    if s.len() == 0 {
    } else if s[0].0 == key {
    } else {
        let t = s.skip(1);
        lemma_assoc_index(t, key);
        if assoc_index(t, key) == -1 {
            assert forall|j: int| 0 <= j < s.len() implies (#[trigger] s[j]).0 != key by {
                if j > 0 {
                    assert(s[j] == t[j - 1]);
                }
            }
        } else {
            let n = assoc_index(t, key);
            assert(s[n + 1] == t[n]);
            assert forall|j: int| 0 <= j < n + 1 implies (#[trigger] s[j]).0 != key by {
                if j > 0 {
                    assert(s[j] == t[j - 1]);
                }
            }
        }
    }
}

/// A position that matches while no earlier one does is exactly where
/// `assoc_index` points.
pub proof fn lemma_assoc_index_at<V>(s: Seq<(u64, V)>, key: u64, i: int)
    requires
        0 <= i < s.len(),
        s[i].0 == key,
        forall|j: int| 0 <= j < i ==> (#[trigger] s[j]).0 != key,
    ensures
        assoc_index(s, key) == i,
{
    lemma_assoc_index(s, key);
    let n = assoc_index(s, key);
    if n == -1 {
        assert(s[i].0 != key);
    } else {
        if n < i {
            assert(s[n].0 != key);
        }
        if i < n {
            assert(s[i].0 != key);
        }
    }
}

/// Position of the first entry of `s` keyed by `key`, scanning front to back.
pub fn store_find<V>(s: &Vec<(u64, V)>, key: u64) -> (r: Option<usize>)
    ensures
        match r {
            Some(i) => assoc_index(s@, key) == i && i < s@.len() && s@[i as int].0 == key,
            None => assoc_index(s@, key) == -1,
        },
{
    let n = s.len();
    let mut i: usize = 0;
    while i < n
        invariant
            i <= n,
            n == s@.len(),
            forall|j: int| 0 <= j < i ==> (#[trigger] s@[j]).0 != key,
        decreases n - i,
    {
        if s[i].0 == key {
            proof {
                lemma_assoc_index_at(s@, key, i as int);
            }
            return Some(i);
        }
        i = i + 1;
    }
    proof {
        lemma_assoc_index(s@, key);
    }
    None
}

/// Update the first entry of `s` keyed by `key` to hold `value`, appending a
/// new entry when none exists.
pub fn store_put<V>(s: &mut Vec<(u64, V)>, key: u64, value: V)
    ensures
        assoc_index(old(s)@, key) == -1 ==> final(s)@ == old(s)@.push((key, value)),
        assoc_index(old(s)@, key) != -1 ==> final(s)@ == old(s)@.update(
            assoc_index(old(s)@, key),
            (key, value),
        ),
{
    match store_find(s, key) {
        Some(i) => {
            s.set(i, (key, value));
        },
        None => {
            s.push((key, value));
        },
    }
}

/// What `store_put` does to every lookup: the written key now finds the new
/// value and every other key finds what it found before.
pub proof fn lemma_store_put_lookup<V>(s1: Seq<(u64, V)>, s2: Seq<(u64, V)>, key: u64, value: V)
    requires
        assoc_index(s1, key) == -1 ==> s2 == s1.push((key, value)),
        assoc_index(s1, key) != -1 ==> s2 == s1.update(assoc_index(s1, key), (key, value)),
    ensures
        assoc_lookup(s2, key) == Some(value),
        forall|a: u64| a != key ==> assoc_lookup(s2, a) == assoc_lookup(s1, a),
{
    lemma_assoc_index(s1, key);
    let n = assoc_index(s1, key);
    if n == -1 {
        lemma_assoc_index_at(s2, key, s1.len() as int);
        assert forall|a: u64| a != key implies assoc_lookup(s2, a) == assoc_lookup(s1, a) by {
            lemma_assoc_index(s1, a);
            let m = assoc_index(s1, a);
            if m == -1 {
                lemma_assoc_index(s2, a);
                let m2 = assoc_index(s2, a);
                if m2 != -1 {
                    assert(s2[m2].0 == a);
                }
            } else {
                lemma_assoc_index_at(s2, a, m);
            }
        }
    } else {
        lemma_assoc_index_at(s2, key, n);
        assert forall|a: u64| a != key implies assoc_lookup(s2, a) == assoc_lookup(s1, a) by {
            lemma_assoc_index(s1, a);
            let m = assoc_index(s1, a);
            if m == -1 {
                lemma_assoc_index(s2, a);
                let m2 = assoc_index(s2, a);
                if m2 != -1 {
                    assert(s2[m2].0 == a);
                    assert(m2 != n);
                    assert(s1[m2].0 == a);
                }
            } else {
                assert(m != n);
                lemma_assoc_index_at(s2, a, m);
            }
        }
    }
}

} // verus!
