//! Lists of pairs read as maps: the first pair with a key gives its value.
use vstd::prelude::*;
use crate::ids::{BufferId, GlobalDeviceId};

verus! {

/// Where the first pair with key `k` stands; the length of `s` where there is none.
pub open spec fn assoc_pos<K, V>(s: Seq<(K, V)>, k: K) -> int
    decreases s.len(),
{
    if s.len() == 0 || s[0].0 == k {
        0
    } else {
        1 + assoc_pos(s.drop_first(), k)
    }
}

/// The value stored under `k`.
pub open spec fn assoc_get<K, V>(s: Seq<(K, V)>, k: K) -> Option<V> {
    if assoc_pos(s, k) < s.len() {
        Some(s[assoc_pos(s, k)].1)
    } else {
        None
    }
}

/// Whether some pair has key `k`.
pub open spec fn assoc_has<K, V>(s: Seq<(K, V)>, k: K) -> bool {
    assoc_pos(s, k) < s.len()
}

/// No key stands in two pairs.
pub open spec fn keys_distinct<K, V>(s: Seq<(K, V)>) -> bool {
    forall|i: int, j: int| 0 <= i < j < s.len() ==> (#[trigger] s[i]).0 != (#[trigger] s[j]).0
}

/// Stores `v` under `k`: in place of the old value, or behind the others.
pub open spec fn assoc_put<K, V>(s: Seq<(K, V)>, k: K, v: V) -> Seq<(K, V)> {
    if assoc_has(s, k) {
        s.update(assoc_pos(s, k), (k, v))
    } else {
        s.push((k, v))
    }
}

/// Drops the first pair with key `k`.
pub open spec fn assoc_drop<K, V>(s: Seq<(K, V)>, k: K) -> Seq<(K, V)> {
    if assoc_has(s, k) {
        s.remove(assoc_pos(s, k))
    } else {
        s
    }
}

/// What `assoc_pos` finds.
pub proof fn lemma_assoc_pos<K, V>(s: Seq<(K, V)>, k: K)
    ensures
        0 <= assoc_pos(s, k) <= s.len(),
        assoc_pos(s, k) < s.len() ==> s[assoc_pos(s, k)].0 == k,
        forall|j: int| 0 <= j < assoc_pos(s, k) ==> (#[trigger] s[j]).0 != k,
    decreases s.len(),
{
    if s.len() == 0 || s[0].0 == k {
    } else {
        lemma_assoc_pos(s.drop_first(), k);
        assert forall|j: int| 0 <= j < assoc_pos(s, k) implies (#[trigger] s[j]).0 != k by {
            if j > 0 {
                assert(s.drop_first()[j - 1] == s[j]);
            }
        }
    }
}

/// A position with the properties that `assoc_pos` has is `assoc_pos`.
pub proof fn lemma_assoc_pos_is<K, V>(s: Seq<(K, V)>, k: K, i: int)
    requires
        0 <= i <= s.len(),
        forall|j: int| 0 <= j < i ==> (#[trigger] s[j]).0 != k,
        i < s.len() ==> s[i].0 == k,
    ensures
        assoc_pos(s, k) == i,
{
    lemma_assoc_pos(s, k);
    let p = assoc_pos(s, k);
    if p < i {
        assert(s[p].0 != k);
    }
    if i < p {
        assert(s[i].0 != k);
    }
}

/// A pair in a list with distinct keys is the one that its key finds.
pub proof fn lemma_assoc_distinct<K, V>(s: Seq<(K, V)>, i: int)
    requires
        keys_distinct(s),
        0 <= i < s.len(),
    ensures
        assoc_pos(s, s[i].0) == i,
        assoc_get(s, s[i].0) == Some(s[i].1),
{
    lemma_assoc_pos_is(s, s[i].0, i);
}

/// Replacing the values, key by key, moves no key.
pub proof fn lemma_assoc_pos_same_keys<K, V, W>(s: Seq<(K, V)>, t: Seq<(K, W)>, k: K)
    requires
        s.len() == t.len(),
        forall|j: int| 0 <= j < s.len() ==> (#[trigger] s[j]).0 == (#[trigger] t[j]).0,
    ensures
        assoc_pos(s, k) == assoc_pos(t, k),
{
    lemma_assoc_pos(s, k);
    let p = assoc_pos(s, k);
    assert forall|j: int| 0 <= j < p implies (#[trigger] t[j]).0 != k by {
        assert(s[j].0 != k);
    }
    if p < s.len() {
        assert(s[p].0 == t[p].0);
    }
    lemma_assoc_pos_is(t, k, p);
}

/// Storing keeps keys distinct.
pub proof fn lemma_assoc_put_distinct<K, V>(s: Seq<(K, V)>, k: K, v: V)
    requires
        keys_distinct(s),
    ensures
        keys_distinct(assoc_put(s, k, v)),
{
    lemma_assoc_pos(s, k);
}

/// What is stored is found again, and nothing else changes.
pub proof fn lemma_assoc_put_get<K, V>(s: Seq<(K, V)>, k: K, v: V, other: K)
    ensures
        assoc_get(assoc_put(s, k, v), other) == if other == k {
            Some(v)
        } else {
            assoc_get(s, other)
        },
{
    lemma_assoc_pos(s, k);
    lemma_assoc_pos(s, other);
    let t = assoc_put(s, k, v);
    let p = assoc_pos(s, other);
    if other == k {
        assert forall|j: int| 0 <= j < p implies (#[trigger] t[j]).0 != k by {
            assert(s[j].0 != k);
        }
        lemma_assoc_pos_is(t, k, p);
    } else {
        assert forall|j: int| 0 <= j < p implies (#[trigger] t[j]).0 != other by {
            assert(s[j].0 != other);
        }
        if p < s.len() {
            lemma_assoc_pos_is(t, other, p);
        } else {
            lemma_assoc_pos_is(t, other, t.len() as int);
        }
    }
}

/// The position of the first pair for `device`.
pub fn find_device<T>(list: &Vec<(GlobalDeviceId, T)>, device: GlobalDeviceId) -> (found: Option<
    usize,
>)
    ensures
        match found {
            Some(i) => i < list@.len() && i == assoc_pos(list@, device),
            None => assoc_pos(list@, device) == list@.len(),
        },
{
    let mut i: usize = 0;
    while i < list.len()
        invariant
            i <= list@.len(),
            forall|j: int| 0 <= j < i ==> (#[trigger] list@[j]).0 != device,
        decreases list@.len() - i,
    {
        if list[i].0 == device {
            proof {
                lemma_assoc_pos_is(list@, device, i as int);
            }
            return Some(i);
        }
        i = i + 1;
    }
    proof {
        lemma_assoc_pos_is(list@, device, i as int);
    }
    None
}

/// The position of the first pair for `buffer`.
pub fn find_buffer<T>(list: &Vec<(BufferId, T)>, buffer: BufferId) -> (found: Option<usize>)
    ensures
        match found {
            Some(i) => i < list@.len() && i == assoc_pos(list@, buffer),
            None => assoc_pos(list@, buffer) == list@.len(),
        },
{
    let mut i: usize = 0;
    while i < list.len()
        invariant
            i <= list@.len(),
            forall|j: int| 0 <= j < i ==> (#[trigger] list@[j]).0 != buffer,
        decreases list@.len() - i,
    {
        if list[i].0 == buffer {
            proof {
                lemma_assoc_pos_is(list@, buffer, i as int);
            }
            return Some(i);
        }
        i = i + 1;
    }
    proof {
        lemma_assoc_pos_is(list@, buffer, i as int);
    }
    None
}

} // verus!
