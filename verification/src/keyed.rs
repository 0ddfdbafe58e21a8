//! Keyed storage kept as a sequence of entries: a read returns the latest
//! entry written under a key, as a storage mapper returns the last value set.
use vstd::prelude::*;

verus! {

/// The latest entry of `s` whose key is `k`, if any.
pub open spec fn latest<E, K>(s: Seq<E>, key: spec_fn(E) -> K, k: K) -> Option<E>
    decreases s.len(),
{
    if s.len() == 0 {
        None
    } else if key(s.last()) == k {
        Some(s.last())
    } else {
        latest(s.drop_last(), key, k)
    }
}

/// An entry read under a key carries that key.
pub proof fn lemma_latest_key<E, K>(s: Seq<E>, key: spec_fn(E) -> K, k: K)
    ensures
        latest(s, key, k) matches Some(e) ==> key(e) == k,
    decreases s.len(),
{
    if s.len() > 0 {
        lemma_latest_key(s.drop_last(), key, k);
    }
}

/// Appending an entry makes it the latest under its key and leaves the other keys alone.
pub proof fn lemma_latest_push<E, K>(s: Seq<E>, key: spec_fn(E) -> K, e: E, k: K)
    ensures
        latest(s.push(e), key, k) == (if key(e) == k { Some(e) } else { latest(s, key, k) }),
{
    assert(s.push(e).drop_last() =~= s);
}

/// When no entry from index `i` on has key `k`, the latest entry under `k`
/// is the latest one among the first `i` entries.
pub proof fn lemma_latest_prefix<E, K>(s: Seq<E>, key: spec_fn(E) -> K, k: K, i: int)
    requires
        0 <= i <= s.len(),
        forall|j: int| i <= j < s.len() ==> key(#[trigger] s[j]) != k,
    ensures
        latest(s, key, k) == latest(s.take(i), key, k),
    decreases s.len() - i,
{
    if i < s.len() {
        assert(s.drop_last().len() == s.len() - 1);
        lemma_latest_prefix(s.drop_last(), key, k, i);
        assert(s.drop_last().take(i) =~= s.take(i));
        assert(key(s[s.len() - 1]) != k);
    } else {
        assert(s.take(i) =~= s);
    }
}

/// The entry at index `i` is the latest under its key when no later entry has that key.
pub proof fn lemma_latest_at<E, K>(s: Seq<E>, key: spec_fn(E) -> K, i: int)
    requires
        0 <= i < s.len(),
        forall|j: int| i < j < s.len() ==> key(#[trigger] s[j]) != key(s[i]),
    ensures
        latest(s, key, key(s[i])) == Some(s[i]),
{
    lemma_latest_prefix(s, key, key(s[i]), i + 1);
    assert(s.take(i + 1).drop_last() =~= s.take(i));
    assert(s.take(i + 1).last() == s[i]);
}

/// Replacing the latest entry under a key by another entry under the same key
/// changes what is read under that key only.
pub proof fn lemma_latest_update<E, K>(s: Seq<E>, key: spec_fn(E) -> K, i: int, e: E, k: K)
    requires
        0 <= i < s.len(),
        key(e) == key(s[i]),
        forall|j: int| i < j < s.len() ==> key(#[trigger] s[j]) != key(s[i]),
    ensures
        latest(s.update(i, e), key, k) == (if key(e) == k { Some(e) } else { latest(s, key, k) }),
    decreases s.len(),
{
    let t = s.update(i, e);
    if i == s.len() - 1 {
        assert(t.drop_last() =~= s.drop_last());
    } else {
        assert(t.drop_last() =~= s.drop_last().update(i, e));
        lemma_latest_update(s.drop_last(), key, i, e, k);
        if key(e) == k {
            assert(key(t.last()) != k);
        }
    }
}

/// The index of the latest entry of `s` whose key is `k`, or -1.
pub open spec fn latest_index<E, K>(s: Seq<E>, key: spec_fn(E) -> K, k: K) -> int
    decreases s.len(),
{
    if s.len() == 0 {
        -1
    } else if key(s.last()) == k {
        s.len() - 1
    } else {
        latest_index(s.drop_last(), key, k)
    }
}

/// The latest index under a key is `i` when the entry at `i` has the key and
/// no later entry has it; it is -1 when no entry has the key.
pub proof fn lemma_latest_index<E, K>(s: Seq<E>, key: spec_fn(E) -> K, k: K, i: int)
    requires
        -1 <= i < s.len(),
        i >= 0 ==> key(s[i]) == k,
        forall|j: int| i < j < s.len() ==> key(#[trigger] s[j]) != k,
    ensures
        latest_index(s, key, k) == i,
    decreases s.len(),
{
    if s.len() > 0 && i < s.len() - 1 {
        assert(key(s[s.len() - 1]) != k);
        lemma_latest_index(s.drop_last(), key, k, i);
    }
}

/// The latest index and the latest entry agree: at the latest index is the
/// latest entry, and no later entry has the key.
pub proof fn lemma_latest_index_is_latest<E, K>(s: Seq<E>, key: spec_fn(E) -> K, k: K)
    ensures
        ({
            let i = latest_index(s, key, k);
            &&& -1 <= i < s.len()
            &&& i >= 0 ==> key(s[i]) == k && latest(s, key, k) == Some(s[i])
            &&& i < 0 ==> latest(s, key, k) is None
            &&& forall|j: int| i < j < s.len() ==> key(#[trigger] s[j]) != k
        }),
    decreases s.len(),
{
    if s.len() > 0 {
        lemma_latest_index_is_latest(s.drop_last(), key, k);
        let i = latest_index(s, key, k);
        assert forall|j: int| i < j < s.len() implies key(#[trigger] s[j]) != k by {
            if j < s.len() - 1 {
                assert(s.drop_last()[j] == s[j]);
            }
        }
        if i >= 0 && i < s.len() - 1 {
            assert(s.drop_last()[i] == s[i]);
        }
    }
}

} // verus!
