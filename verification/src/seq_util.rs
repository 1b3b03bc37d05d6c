//! Small reusable facts about sequences: first-index lookup by key and
//! how inserting an element anywhere changes a sequence's multiset.

use vstd::prelude::*;
use vstd::seq_lib::lemma_multiset_commutative;

verus! {

/// Index of the first element of `s` whose key is `k`, or `-1` if none is.
pub open spec fn index_of_key<T>(s: Seq<T>, key: spec_fn(T) -> u32, k: u32) -> int
    decreases s.len(),
{
    if s.len() == 0 {
        -1
    } else if key(s.first()) == k {
        0
    } else {
        let r = index_of_key(s.drop_first(), key, k);
        if r == -1 {
            -1
        } else {
            r + 1
        }
    }
}

/// What `index_of_key` returns: `-1` exactly when no element has the key,
/// and otherwise the first index that does.
pub proof fn lemma_index_of_key<T>(s: Seq<T>, key: spec_fn(T) -> u32, k: u32)
    ensures
        -1 <= index_of_key(s, key, k) < s.len(),
        index_of_key(s, key, k) == -1 <==> (forall|j: int|
            0 <= j < s.len() ==> key(#[trigger] s[j]) != k),
        index_of_key(s, key, k) >= 0 ==> {
            let i = index_of_key(s, key, k);
            &&& 0 <= i < s.len()
            &&& key(s[i]) == k
            &&& forall|j: int| 0 <= j < i ==> key(#[trigger] s[j]) != k
        },
    decreases s.len(),
{
    if s.len() > 0 && key(s.first()) != k {
        let rest = s.drop_first();
        let r = index_of_key(rest, key, k);
        lemma_index_of_key(rest, key, k);
        assert(forall|j: int| 1 <= j < s.len() ==> #[trigger] s[j] == rest[j - 1]);
        if r == -1 {
            assert(forall|j: int| 0 <= j < s.len() ==> key(#[trigger] s[j]) != k) by {
                assert forall|j: int| 0 <= j < s.len() implies key(#[trigger] s[j]) != k by {
                    if j >= 1 {
                        assert(key(rest[j - 1]) != k);
                    }
                }
            }
        } else {
            assert(0 <= r < rest.len());
            assert(key(rest[r]) == k);
            assert(s[r + 1] == rest[r]);
            assert(key(s[r + 1]) == k);
            assert(forall|j: int| 0 <= j < r + 1 ==> key(#[trigger] s[j]) != k) by {
                assert forall|j: int| 0 <= j < r + 1 implies key(#[trigger] s[j]) != k by {
                    if j >= 1 {
                        assert(key(rest[j - 1]) != k);
                    }
                }
            }
        }
    }
}

/// Two sequences whose elements carry the same keys position by position
/// agree on every key lookup.
pub proof fn lemma_index_of_key_same_keys<T, U>(
    s1: Seq<T>,
    s2: Seq<U>,
    key1: spec_fn(T) -> u32,
    key2: spec_fn(U) -> u32,
    k: u32,
)
    requires
        s1.len() == s2.len(),
        forall|j: int| 0 <= j < s1.len() ==> key1(#[trigger] s1[j]) == key2(#[trigger] s2[j]),
    ensures
        index_of_key(s1, key1, k) == index_of_key(s2, key2, k),
    decreases s1.len(),
{
    if s1.len() > 0 {
        assert(key1(s1[0]) == key2(s2[0]));
        assert(forall|j: int|
            0 <= j < s1.drop_first().len() ==> key1(#[trigger] s1.drop_first()[j]) == key1(
                s1[j + 1],
            ) && key2(#[trigger] s2.drop_first()[j]) == key2(s2[j + 1]));
        lemma_index_of_key_same_keys(s1.drop_first(), s2.drop_first(), key1, key2, k);
    }
}

/// Inserting an element anywhere inserts it into the sequence's multiset.
pub proof fn lemma_insert_multiset<T>(s: Seq<T>, i: int, x: T)
    requires
        0 <= i <= s.len(),
    ensures
        s.insert(i, x).to_multiset() == s.to_multiset().insert(x),
{
    let left = s.subrange(0, i);
    let right = s.subrange(i, s.len() as int);
    broadcast use vstd::seq_lib::group_to_multiset_ensures;

    assert(s =~= left + right);
    assert(s.insert(i, x) =~= left.push(x) + right);
    lemma_multiset_commutative(left, right);
    lemma_multiset_commutative(left.push(x), right);
    assert(left.push(x).to_multiset() =~= left.to_multiset().insert(x));
    assert((left.push(x) + right).to_multiset() =~= (left + right).to_multiset().insert(x));
}

} // verus!
