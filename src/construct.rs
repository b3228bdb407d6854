//! The model of a list of points with values as a map, and the pass that
//! keeps, for each point, only its last pair.

use vstd::prelude::*;

use crate::point::Point;

verus! {

broadcast use vstd::std_specs::hash::group_hash_axioms;

/// The map that inserting the pairs of `s` one after the other gives: each
/// point maps to the value of its last pair.
pub open spec fn pairs_map<V>(s: Seq<(Point, V)>) -> Map<Point, V>
    decreases s.len(),
{
    if s.len() == 0 {
        Map::empty()
    } else {
        pairs_map(s.drop_last()).insert(s.last().0, s.last().1)
    }
}

/// Whether no pair after position `i` of `s` has the point of the pair at `i`.
pub open spec fn is_last<V>(s: Seq<(Point, V)>, i: int) -> bool {
    forall|j: int| i < j < s.len() ==> (#[trigger] s[j]).0 != s[i].0
}

/// The keys of `pairs_map` are the points of the pairs, each of which has a
/// last pair, whose value it maps to.
pub proof fn lemma_pairs_map<V>(s: Seq<(Point, V)>)
    ensures
        pairs_map(s).dom().finite(),
        pairs_map(s).dom().len() <= s.len(),
        forall|p: Point| #[trigger]
            pairs_map(s).contains_key(p) ==> exists|i: int|
                0 <= i < s.len() && s[i].0 == p && is_last(s, i),
        forall|i: int|
            0 <= i < s.len() ==> #[trigger] pairs_map(s).contains_key(s[i].0),
        forall|i: int|
            0 <= i < s.len() && is_last(s, i) ==> #[trigger] pairs_map(s)[s[i].0] == s[i].1,
    decreases s.len(),
{
    if s.len() > 0 {
        let r = s.drop_last();
        let n = s.len() - 1;
        lemma_pairs_map(r);
        assert(pairs_map(s).dom() =~= pairs_map(r).dom().insert(s.last().0));
        assert forall|p: Point| #[trigger] pairs_map(s).contains_key(p) implies exists|i: int|
            0 <= i < s.len() && s[i].0 == p && is_last(s, i) by {
            if p == s.last().0 {
                assert(is_last(s, n));
                assert(0 <= n < s.len() && s[n].0 == p && is_last(s, n));
            } else {
                assert(pairs_map(r).contains_key(p));
                let i = choose|i: int| 0 <= i < r.len() && r[i].0 == p && is_last(r, i);
                assert(r[i] == s[i]);
                assert forall|j: int| i < j < s.len() implies (#[trigger] s[j]).0 != s[i].0 by {
                    if j < n {
                        assert(r[j] == s[j]);
                    }
                }
                assert(0 <= i < s.len() && s[i].0 == p && is_last(s, i));
            }
        }
        assert forall|i: int| 0 <= i < s.len() implies #[trigger] pairs_map(s).contains_key(
            s[i].0,
        ) by {
            if i < n {
                assert(r[i] == s[i]);
            }
        }
        assert forall|i: int| 0 <= i < s.len() && is_last(s, i) implies #[trigger] pairs_map(
            s,
        )[s[i].0] == s[i].1 by {
            if i < n {
                assert(r[i] == s[i]);
                assert(s[n].0 != s[i].0);
                assert forall|j: int| i < j < r.len() implies (#[trigger] r[j]).0 != r[i].0 by {
                    assert(r[j] == s[j]);
                }
            }
        }
    }
}

/// A value that no two positions of `s` hold occurs at most once in its
/// multiset.
pub proof fn lemma_count_unique<A>(s: Seq<A>, x: A)
    requires
        forall|a: int, b: int| 0 <= a < b < s.len() ==> !(s[a] == x && s[b] == x),
    ensures
        s.to_multiset().count(x) <= 1,
    decreases s.len(),
{
    broadcast use vstd::seq_lib::group_to_multiset_ensures;
    broadcast use vstd::multiset::group_multiset_axioms;

    if s.len() == 0 {
        vstd::seq_lib::to_multiset_len(s);
    } else {
        let r = s.drop_last();
        assert forall|a: int, b: int| 0 <= a < b < r.len() implies !(r[a] == x && r[b] == x) by {
            assert(r[a] == s[a] && r[b] == s[b]);
        }
        lemma_count_unique(r, x);
        assert(s =~= r.push(s.last()));
        vstd::seq_lib::to_multiset_build(r, s.last());
        if s.last() == x && r.to_multiset().count(x) > 0 {
            assert(r.contains(x));
            let a = choose|a: int| 0 <= a < r.len() && r[a] == x;
            assert(s[a] == x && s[s.len() - 1] == x);
        }
    }
}

/// A point packed into one integer: x in the high half, y in the low half.
pub open spec fn packed(p: Point) -> int {
    p.x * 0x1_0000_0000 + p.y
}

proof fn lemma_packed_injective(p: Point, q: Point)
    ensures
        packed(p) == packed(q) ==> p == q,
{
    let (a, b, c, d) = (p.x as int, p.y as int, q.x as int, q.y as int);
    assert(a * 0x1_0000_0000 + b == c * 0x1_0000_0000 + d ==> a == c && b == d) by (nonlinear_arith)
        requires
            0 <= b < 0x1_0000_0000,
            0 <= d < 0x1_0000_0000,
    ;
}

fn pack(p: Point) -> (r: u64)
    ensures
        r == packed(p),
{
    proof {
        assert(p.x * 0x1_0000_0000 <= 0xffff_ffffu64 * 0x1_0000_0000) by (nonlinear_arith)
            requires
                p.x <= 0xffff_ffffu64,
        ;
    }
    (p.x as u64) * 0x1_0000_0000 + (p.y as u64)
}

/// Tag each pair of `v` with whether it is the last pair for its point. The
/// pairs come back in reverse order, each with its tag.
#[verifier::rlimit(50)]
pub fn tag_last_pairs<V>(v: Vec<(Point, V)>) -> (r: Vec<(Point, (V, bool))>)
    ensures
        r@.len() == v@.len(),
        forall|i: int|
            0 <= i < r@.len() ==> #[trigger] r@[i] == (
                v@[v@.len() - 1 - i].0,
                (v@[v@.len() - 1 - i].1, is_last(v@, v@.len() - 1 - i)),
            ),
{
    let ghost s = v@;
    let n = v.len();
    let mut last: std::collections::HashMap<u64, usize> = std::collections::HashMap::new();
    let mut i: usize = 0;
    while i < n
        invariant
            n == s.len(),
            v@ == s,
            i <= n,
            forall|j: int|
                0 <= j < i ==> #[trigger] last@.contains_key(packed(s[j].0) as u64) && {
                    let l = last@[packed(s[j].0) as u64] as int;
                    &&& j <= l < i
                    &&& s[l].0 == s[j].0
                    &&& forall|t: int| l < t < i ==> (#[trigger] s[t]).0 != s[j].0
                },
        decreases n - i,
    {
        let key = pack(v[i].0);
        last.insert(key, i);
        proof {
            assert forall|j: int| 0 <= j < i + 1 implies #[trigger] last@.contains_key(
                packed(s[j].0) as u64,
            ) && {
                let l = last@[packed(s[j].0) as u64] as int;
                &&& j <= l < i + 1
                &&& s[l].0 == s[j].0
                &&& forall|t: int| l < t < i + 1 ==> (#[trigger] s[t]).0 != s[j].0
            } by {
                lemma_packed_injective(s[j].0, s[i as int].0);
            }
        }
        i = i + 1;
    }
    let mut v = v;
    let mut r: Vec<(Point, (V, bool))> = Vec::new();
    while i > 0
        invariant
            n == s.len(),
            i <= n,
            v@ == s.subrange(0, i as int),
            r@.len() == n - i,
            forall|j: int|
                0 <= j < n ==> #[trigger] last@.contains_key(packed(s[j].0) as u64) && {
                    let l = last@[packed(s[j].0) as u64] as int;
                    &&& j <= l < n
                    &&& s[l].0 == s[j].0
                    &&& forall|t: int| l < t < n ==> (#[trigger] s[t]).0 != s[j].0
                },
            forall|j: int|
                0 <= j < r@.len() ==> #[trigger] r@[j] == (
                    s[n - 1 - j].0,
                    (s[n - 1 - j].1, is_last(s, n - 1 - j)),
                ),
        decreases i,
    {
        let e = v.pop().unwrap();
        i = i - 1;
        let ghost ii = i as int;
        assert(e == s[ii]);
        let key = pack(e.0);
        proof {
            assert(last@.contains_key(packed(s[ii].0) as u64));
            let l = last@[packed(s[ii].0) as u64] as int;
            assert(s[l].0 == s[ii].0);
            if l != ii {
                assert(!is_last(s, ii));
            }
        }
        let l = *last.get(&key).unwrap();
        let (p, val) = e;
        r.push((p, (val, l == i)));
    }
    r
}

} // verus!
