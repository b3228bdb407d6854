//! Order-statistic selection: partition a list of points with values around
//! the element of a given rank.

use vstd::prelude::*;

use crate::kdtree::{coord, Axis, AxisValue};
use crate::point::Point;

verus! {

/// The selection key of a pair: its coordinate on `axis` first, then its
/// coordinate on the other axis, combined into one integer whose order is the
/// lexicographic order of the two.
pub open spec fn sel_key<V>(e: (Point, V), axis: Axis) -> int {
    point_key(e.0, axis)
}

/// The selection key of a point: its coordinate on `axis`, then on the other
/// axis.
pub open spec fn point_key(p: Point, axis: Axis) -> int {
    coord(p, axis) * 0x1_0000_0000 + coord(p, axis.next_spec())
}

/// The selection key of `e`, computed.
fn key_of<V>(e: &(Point, V), axis: Axis) -> (r: u64)
    ensures
        r == sel_key(*e, axis),
{
    let hi = e.0.axis_value(axis) as u64;
    let lo = e.0.axis_value(axis.next()) as u64;
    proof {
        assert(hi * 0x1_0000_0000 <= 0xffff_ffffu64 * 0x1_0000_0000) by (nonlinear_arith)
            requires
                hi <= 0xffff_ffffu64,
        ;
    }
    hi * 0x1_0000_0000 + lo
}

/// Whether `p` is counted against the key `k`: its key is below `k`, or, where
/// `strict` is false, at most `k`.
pub open spec fn key_counted(p: Point, k: int, axis: Axis, strict: bool) -> bool {
    if strict {
        point_key(p, axis) < k
    } else {
        point_key(p, axis) <= k
    }
}

/// How many pairs of `s`, repeats included, have their point counted against
/// the key `k`.
pub open spec fn n_keyed<W>(s: Seq<(Point, W)>, k: int, axis: Axis, strict: bool) -> nat
    decreases s.len(),
{
    if s.len() == 0 {
        0
    } else {
        n_keyed(s.drop_last(), k, axis, strict) + if key_counted(s.last().0, k, axis, strict) {
            1nat
        } else {
            0nat
        }
    }
}

/// The count of a concatenation is the sum of the counts.
pub proof fn lemma_n_keyed_concat<W>(
    a: Seq<(Point, W)>,
    b: Seq<(Point, W)>,
    k: int,
    axis: Axis,
    strict: bool,
)
    ensures
        n_keyed(a + b, k, axis, strict) == n_keyed(a, k, axis, strict) + n_keyed(b, k, axis, strict),
    decreases b.len(),
{
    if b.len() == 0 {
        assert(a + b =~= a);
    } else {
        lemma_n_keyed_concat(a, b.drop_last(), k, axis, strict);
        assert((a + b).drop_last() =~= a + b.drop_last());
        assert((a + b).last() == b.last());
    }
}

/// The count is at most the length; it is the length where every pair is
/// counted, and zero where none is.
pub proof fn lemma_n_keyed_range<W>(s: Seq<(Point, W)>, k: int, axis: Axis, strict: bool)
    ensures
        n_keyed(s, k, axis, strict) <= s.len(),
        (forall|i: int| 0 <= i < s.len() ==> key_counted((#[trigger] s[i]).0, k, axis, strict))
            ==> n_keyed(s, k, axis, strict) == s.len(),
        (forall|i: int| 0 <= i < s.len() ==> !key_counted((#[trigger] s[i]).0, k, axis, strict))
            ==> n_keyed(s, k, axis, strict) == 0,
    decreases s.len(),
{
    if s.len() > 0 {
        let r = s.drop_last();
        lemma_n_keyed_range(r, k, axis, strict);
        assert(forall|i: int| 0 <= i < r.len() ==> r[i] == s[i]);
        assert(s.last() == s[s.len() - 1]);
    }
}

/// Sequences that hold the same pairs, in any order, have the same count.
pub proof fn lemma_n_keyed_perm<W>(
    a: Seq<(Point, W)>,
    b: Seq<(Point, W)>,
    k: int,
    axis: Axis,
    strict: bool,
)
    requires
        a.to_multiset() == b.to_multiset(),
    ensures
        n_keyed(a, k, axis, strict) == n_keyed(b, k, axis, strict),
    decreases a.len(),
{
    broadcast use vstd::seq_lib::group_to_multiset_ensures;

    if a.len() == 0 {
        vstd::seq_lib::to_multiset_len(a);
        vstd::seq_lib::to_multiset_len(b);
        assert(b.len() == 0);
        assert(b =~= a);
    } else {
        let x = a.last();
        let a1 = a.drop_last();
        assert(a =~= a1.push(x));
        assert(b.to_multiset().count(x) > 0);
        assert(b.contains(x));
        let j = choose|j: int| 0 <= j < b.len() && b[j] == x;
        let b1 = b.remove(j);
        assert(b1.to_multiset() == b.to_multiset().remove(x));
        assert(a1.to_multiset() =~= b1.to_multiset());
        lemma_n_keyed_perm(a1, b1, k, axis, strict);
        let pre = b.take(j);
        let post = b.skip(j + 1);
        assert(b =~= pre + seq![x] + post);
        assert(b1 =~= pre + post);
        lemma_n_keyed_concat(pre + seq![x], post, k, axis, strict);
        lemma_n_keyed_concat(pre, seq![x], k, axis, strict);
        lemma_n_keyed_concat(pre, post, k, axis, strict);
        assert(seq![x].drop_last() =~= Seq::<(Point, W)>::empty());
        assert(n_keyed(Seq::<(Point, W)>::empty(), k, axis, strict) == 0);
        assert(n_keyed(seq![x], k, axis, strict) == if key_counted(x.0, k, axis, strict) {
            1nat
        } else {
            0nat
        });
    }
}

/// A sequence whose points are those of another in reverse order has the
/// same count.
pub proof fn lemma_n_keyed_reversed<W, U>(
    r: Seq<(Point, W)>,
    v: Seq<(Point, U)>,
    k: int,
    axis: Axis,
    strict: bool,
)
    requires
        r.len() == v.len(),
        forall|i: int| 0 <= i < r.len() ==> (#[trigger] r[i]).0 == v[r.len() - 1 - i].0,
    ensures
        n_keyed(r, k, axis, strict) == n_keyed(v, k, axis, strict),
    decreases r.len(),
{
    if r.len() > 0 {
        let r1 = r.drop_last();
        let v1 = v.skip(1);
        assert forall|i: int| 0 <= i < r1.len() implies (#[trigger] r1[i]).0 == v1[r1.len() - 1
            - i].0 by {
            assert(r1[i] == r[i]);
            assert(v1[r1.len() - 1 - i] == v[r.len() - 1 - i]);
        }
        lemma_n_keyed_reversed(r1, v1, k, axis, strict);
        assert(r[r.len() - 1].0 == v[0].0);
        assert(v =~= seq![v[0]] + v1);
        lemma_n_keyed_concat(seq![v[0]], v1, k, axis, strict);
        assert(seq![v[0]].drop_last() =~= Seq::<(Point, U)>::empty());
        assert(n_keyed(Seq::<(Point, U)>::empty(), k, axis, strict) == 0);
        assert(n_keyed(seq![v[0]], k, axis, strict) == if key_counted(v[0].0, k, axis, strict) {
            1nat
        } else {
            0nat
        });
        assert(r.last().0 == v[0].0);
    }
}

/// After selection at `mid`, at most `mid` pairs have a key below that of the
/// pair at `mid`, and at least `mid + 1` have a key at most it.
pub proof fn lemma_selected_counts<V>(s: Seq<(Point, V)>, mid: int, axis: Axis)
    requires
        0 <= mid < s.len(),
        forall|i: int| 0 <= i < mid ==> sel_key(#[trigger] s[i], axis) <= sel_key(s[mid], axis),
        forall|i: int| mid < i < s.len() ==> sel_key(#[trigger] s[i], axis) >= sel_key(s[mid], axis),
    ensures
        n_keyed(s, point_key(s[mid].0, axis), axis, true) <= mid,
        n_keyed(s, point_key(s[mid].0, axis), axis, false) >= mid + 1,
{
    let k = point_key(s[mid].0, axis);
    let (a, b) = (s.take(mid), s.skip(mid));
    assert(s =~= a + b);
    lemma_n_keyed_concat(a, b, k, axis, true);
    lemma_n_keyed_range(a, k, axis, true);
    assert forall|i: int| 0 <= i < b.len() implies !key_counted((#[trigger] b[i]).0, k, axis, true) by {
        assert(b[i] == s[mid + i]);
    }
    lemma_n_keyed_range(b, k, axis, true);
    let (c, d) = (s.take(mid + 1), s.skip(mid + 1));
    assert(s =~= c + d);
    lemma_n_keyed_concat(c, d, k, axis, false);
    assert forall|i: int| 0 <= i < c.len() implies key_counted((#[trigger] c[i]).0, k, axis, false) by {
        assert(c[i] == s[i]);
    }
    lemma_n_keyed_range(c, k, axis, false);
}

/// Relies on `<[T]>::swap`: exchanges the elements at the two positions.
#[verifier::external_body]
fn swap_items<T>(v: &mut Vec<T>, i: usize, j: usize)
    requires
        i < old(v)@.len(),
        j < old(v)@.len(),
    ensures
        final(v)@ == old(v)@.update(i as int, old(v)@[j as int]).update(j as int, old(v)@[i as int]),
{
    v.swap(i, j)
}

/// Exchanging two elements keeps the multiset of a sequence.
proof fn lemma_swap_multiset<T>(s: Seq<T>, i: int, j: int)
    requires
        0 <= i < s.len(),
        0 <= j < s.len(),
    ensures
        s.update(i, s[j]).update(j, s[i]).to_multiset() == s.to_multiset(),
{
    broadcast use vstd::seq_lib::to_multiset_update;
    broadcast use vstd::seq_lib::to_multiset_contains;
    broadcast use vstd::multiset::group_multiset_axioms;

    let s1 = s.update(i, s[j]);
    assert(s1.len() == s.len());
    assert(s1[j] == s[j]);
    let m = s.to_multiset();
    assert(s.contains(s[i]));
    assert(m.count(s[i]) > 0);
    assert(s1.to_multiset() == m.insert(s[j]).remove(s[i]));
    assert(s1.update(j, s[i]).to_multiset() == m.insert(s[j]).remove(s[i]).insert(s[i]).remove(
        s[j],
    ));
    assert(m.insert(s[j]).remove(s[i]).insert(s[i]).remove(s[j]) =~= m);
}

/// Reorder `v` so that the element at position `k` is the one that a sort by
/// `sel_key` would put there: every element before it has a key at most its
/// key, every element after it a key at least its key. The elements are only
/// moved. Expected linear time; the pivot is excluded from both sides of each
/// partition, so duplicate keys do not stop progress.
pub fn select_by_axis<V>(v: &mut Vec<(Point, V)>, k: usize, axis: Axis)
    requires
        k < old(v)@.len(),
    ensures
        final(v)@.len() == old(v)@.len(),
        final(v)@.to_multiset() == old(v)@.to_multiset(),
        forall|i: int| 0 <= i < k ==> sel_key(#[trigger] final(v)@[i], axis) <= sel_key(final(v)@[k as int], axis),
        forall|i: int|
            k < i < final(v)@.len() ==> sel_key(#[trigger] final(v)@[i], axis) >= sel_key(
                final(v)@[k as int],
                axis,
            ),
{
    let mut lo: usize = 0;
    let mut hi: usize = v.len();
    let ghost mut low: int = 0;
    let ghost mut high: int = 0x1_0000_0000_0000_0000;
    while hi - lo > 1
        invariant
            lo <= k < hi <= v@.len(),
            v@.len() == old(v)@.len(),
            v@.to_multiset() == old(v)@.to_multiset(),
            forall|i: int| 0 <= i < lo ==> sel_key(#[trigger] v@[i], axis) <= low,
            forall|i: int| hi <= i < v@.len() ==> sel_key(#[trigger] v@[i], axis) >= high,
            forall|i: int|
                lo <= i < hi ==> low <= sel_key(#[trigger] v@[i], axis) <= high,
        decreases hi - lo,
    {
        let mid = lo + (hi - lo) / 2;
        let last = hi - 1;
        proof {
            lemma_swap_multiset(v@, mid as int, last as int);
        }
        swap_items(v, mid, last);
        let pk = key_of(&v[last], axis);
        let mut store: usize = lo;
        let mut i: usize = lo;
        while i < last
            invariant
                lo <= store <= i <= last < hi <= v@.len(),
                v@.len() == old(v)@.len(),
                v@.to_multiset() == old(v)@.to_multiset(),
                sel_key(v@[last as int], axis) == pk,
                forall|j: int| 0 <= j < lo ==> sel_key(#[trigger] v@[j], axis) <= low,
                forall|j: int| hi <= j < v@.len() ==> sel_key(#[trigger] v@[j], axis) >= high,
                forall|j: int| lo <= j < hi ==> low <= sel_key(#[trigger] v@[j], axis) <= high,
                forall|j: int| lo <= j < store ==> sel_key(#[trigger] v@[j], axis) < pk,
                forall|j: int| store <= j < i ==> sel_key(#[trigger] v@[j], axis) >= pk,
            decreases last - i,
        {
            if key_of(&v[i], axis) < pk {
                proof {
                    lemma_swap_multiset(v@, i as int, store as int);
                }
                swap_items(v, i, store);
                store = store + 1;
            }
            i = i + 1;
        }
        proof {
            lemma_swap_multiset(v@, store as int, last as int);
        }
        swap_items(v, store, last);
        if k < store {
            hi = store;
            proof {
                high = pk as int;
            }
        } else if k > store {
            lo = store + 1;
            proof {
                low = pk as int;
            }
        } else {
            lo = store;
            hi = store + 1;
            proof {
                low = pk as int;
                high = pk as int;
            }
        }
    }
}

} // verus!
