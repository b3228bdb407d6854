//! Small helpers on vectors.

use vstd::prelude::*;

verus! {

broadcast use {
    vstd::std_specs::hash::group_hash_axioms,
    vstd::seq_lib::group_to_multiset_ensures,
    vstd::multiset::group_multiset_axioms,
};

/// Count how many times each key occurs in `keys`. The key type's `Hash` and
/// `Eq` must obey the model of a hash table key, as those of the integer
/// types do.
pub fn build_hashmap_counter<K: core::cmp::Eq + core::hash::Hash>(keys: Vec<K>) -> (r:
    std::collections::HashMap<K, u64>)
    requires
        vstd::std_specs::hash::obeys_key_model::<K>(),
    ensures
        forall|k: K| #[trigger] r@.contains_key(k) == (keys@.to_multiset().count(k) > 0),
        forall|k: K| #[trigger] r@.contains_key(k) ==> r@[k] == keys@.to_multiset().count(k),
{
    let ghost s = keys@;
    let n = keys.len();
    let mut keys = keys;
    let mut map: std::collections::HashMap<K, u64> = std::collections::HashMap::new();
    while keys.len() > 0
        invariant
            vstd::std_specs::hash::obeys_key_model::<K>(),
            n == s.len(),
            keys@.len() <= n,
            forall|k: K| #[trigger]
                map@.contains_key(k) ==> map@[k] >= 1 && map@[k] + keys@.to_multiset().count(k)
                    == s.to_multiset().count(k),
            forall|k: K| #[trigger]
                keys@.to_multiset().count(k) >= 0 && (!map@.contains_key(k)
                    ==> keys@.to_multiset().count(k) == s.to_multiset().count(k)),
        decreases keys@.len(),
    {
        let ghost before = keys@;
        let ghost old_map = map@;
        let k = keys.pop().unwrap();
        proof {
            assert(before == keys@.push(k));
            assert(before.to_multiset() == keys@.to_multiset().insert(k));
            assert(s.to_multiset().count(k) <= s.to_multiset().len());
        }
        let c: u64 = match map.get(&k) {
            Some(c) => *c,
            None => 0,
        };
        proof {
            assert(keys@.to_multiset().count(k) >= 0);
            if map@.contains_key(k) {
                assert(c == map@[k]);
            }
        }
        map.insert(k, c + 1);
        proof {
            assert forall|j: K| #[trigger] map@.contains_key(j) implies map@[j] >= 1 && map@[j]
                + keys@.to_multiset().count(j) == s.to_multiset().count(j) by {
                if j != k {
                    assert(old_map.contains_key(j));
                    assert(before.to_multiset().count(j) == keys@.to_multiset().count(j));
                } else {
                    assert(map@ == old_map.insert(k, (c + 1) as u64));
                    assert(before.to_multiset().count(k) == keys@.to_multiset().count(k) + 1);
                    if old_map.contains_key(k) {
                        assert(old_map[k] + before.to_multiset().count(k) == s.to_multiset().count(k));
                    } else {
                        assert(before.to_multiset().count(k) == s.to_multiset().count(k));
                    }
                }
            }
            assert forall|j: K| #[trigger]
                keys@.to_multiset().count(j) >= 0 && (!map@.contains_key(j)
                    ==> keys@.to_multiset().count(j) == s.to_multiset().count(j)) by {
                if !map@.contains_key(j) {
                    assert(j != k);
                    assert(!old_map.contains_key(j));
                    assert(before.to_multiset().count(j) == keys@.to_multiset().count(j));
                }
            }
        }
    }
    proof {
        assert forall|k: K| keys@.to_multiset().count(k) == 0 by {
            assert(!keys@.contains(k));
        }
        assert forall|k: K| #[trigger] map@.contains_key(k) == (s.to_multiset().count(k) > 0) by {
            assert(keys@.to_multiset().count(k) == 0);
        }
    }
    map
}

/// Split `v` around position `at`: the elements before it, the element at it
/// and the elements after it. An empty vector gives two empty vectors and no
/// element.
pub fn split_element_at<T>(v: Vec<T>, at: usize) -> (r: (Vec<T>, Option<T>, Vec<T>))
    requires
        v@.len() == 0 || at < v@.len(),
    ensures
        v@.len() == 0 ==> r.0@.len() == 0 && r.1.is_none() && r.2@.len() == 0,
        v@.len() > 0 ==> {
            &&& r.0@ == v@.subrange(0, at as int)
            &&& r.1 == Some(v@[at as int])
            &&& r.2@ == v@.subrange(at + 1, v@.len() as int)
        },
{
    let mut v = v;
    if v.len() == 0 {
        return (Vec::new(), None, Vec::new());
    }
    let right = v.split_off(at + 1);
    let elem = v.pop();
    (v, elem, right)
}

} // verus!
