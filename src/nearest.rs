//! The invariant of the k-nearest-neighbour search and the lemmas that keep
//! it: which points have been visited, pruned or are still to be searched, and
//! what the bounded set of candidates holds of them.

use vstd::prelude::*;

use crate::kdtree::{coord, subtree_map, Axis, Node};
use crate::point::{sq_dist, Point};

verus! {

/// The parts of a well-formed node: its own point, and the two subtrees, whose
/// points are disjoint and whose values are those of the node's map.
pub proof fn lemma_node_parts<V>(n: Node<V>)
    requires
        n.wf(),
    ensures
        n.as_map().contains_key(n.median),
        n.as_map()[n.median] == n.value,
        n.as_map().dom() == subtree_map(n.left).dom().union(subtree_map(n.right).dom()).insert(
            n.median,
        ),
        subtree_map(n.left).dom().disjoint(subtree_map(n.right).dom()),
        !subtree_map(n.left).contains_key(n.median),
        !subtree_map(n.right).contains_key(n.median),
        forall|p: Point| #[trigger]
            subtree_map(n.left).contains_key(p) ==> n.as_map()[p] == subtree_map(n.left)[p],
        forall|p: Point| #[trigger]
            subtree_map(n.right).contains_key(p) ==> n.as_map()[p] == subtree_map(n.right)[p],
{
    assert(n.as_map().dom() =~= subtree_map(n.left).dom().union(subtree_map(n.right).dom()).insert(
        n.median,
    ));
}

/// Every point beyond the splitting line of `n`, on the side away from `q`, is
/// at least as far from `q` as the line is.
pub proof fn lemma_far_side<V>(n: Node<V>, q: Point, p: Point)
    requires
        n.wf(),
        coord(q, n.axis) <= coord(n.median, n.axis) ==> subtree_map(n.right).contains_key(p),
        coord(q, n.axis) > coord(n.median, n.axis) ==> subtree_map(n.left).contains_key(p),
    ensures
        sq_dist(p, q) >= (coord(q, n.axis) - coord(n.median, n.axis)) * (coord(q, n.axis) - coord(
            n.median,
            n.axis,
        )),
{
    let a = n.axis;
    let g: int = coord(q, a) - coord(n.median, a);
    let t: int = coord(p, a) - coord(q, a);
    assert(t * t >= g * g) by (nonlinear_arith)
        requires
            (g <= 0 && t >= -g) || (g > 0 && t <= -g),
    ;
    let u: int = match a {
        Axis::X => p.y - q.y,
        Axis::Y => p.x - q.x,
    };
    assert(u * u >= 0) by (nonlinear_arith);
    assert(sq_dist(p, q) == t * t + u * u);
}

/// Whether `n` is a well-formed subtree whose points carry the values of `m`.
pub open spec fn within<V>(n: Node<V>, m: Map<Point, V>) -> bool {
    &&& n.wf()
    &&& forall|p: Point| #[trigger]
        n.as_map().contains_key(p) ==> m.contains_key(p) && m[p] == n.as_map()[p]
}

/// The points of all subtrees on a stack of nodes.
pub open spec fn stack_points<V>(s: Seq<&Node<V>>) -> Set<Point>
    decreases s.len(),
{
    if s.len() == 0 {
        Set::empty()
    } else {
        stack_points(s.drop_last()).union(s.last().as_map().dom())
    }
}

/// Whether the subtrees on a stack of nodes hold pairwise disjoint points.
pub open spec fn stack_disjoint<V>(s: Seq<&Node<V>>) -> bool
    decreases s.len(),
{
    s.len() == 0 || (stack_disjoint(s.drop_last()) && stack_points(s.drop_last()).disjoint(
        s.last().as_map().dom(),
    ))
}

/// The points of the nodes held by a sequence of candidates.
pub open spec fn kept_points<V>(s: Seq<(u128, &Node<V>)>) -> Set<Point> {
    Set::new(|p: Point| exists|i: int| 0 <= i < s.len() && s[i].1.median == p)
}

/// What the query keeps of the points it has seen (`visited`, or left out as
/// too far, `pruned`): candidates of distinct points of `m`, keyed by their
/// squared distance to `q`; all seen points while fewer than `k` are kept; and
/// no seen point that is not kept is nearer than the farthest kept one.
pub open spec fn kept_inv<V>(
    s: Seq<(u128, &Node<V>)>,
    k: nat,
    q: Point,
    m: Map<Point, V>,
    visited: Set<Point>,
    pruned: Set<Point>,
) -> bool {
    &&& s.len() <= k
    &&& forall|i: int|
        0 <= i < s.len() ==> {
            &&& #[trigger] s[i].0 == sq_dist(s[i].1.median, q)
            &&& visited.contains(s[i].1.median)
            &&& m.contains_key(s[i].1.median)
            &&& m[s[i].1.median] == s[i].1.value
        }
    &&& forall|i: int, j: int|
        0 <= i < j < s.len() ==> #[trigger] s[i].1.median != #[trigger] s[j].1.median
    &&& s.len() < k ==> pruned == Set::<Point>::empty() && visited.subset_of(kept_points(s))
    &&& forall|p: Point|
        #![trigger visited.contains(p)]
        #![trigger pruned.contains(p)]
        (visited.contains(p) || pruned.contains(p)) && !kept_points(s).contains(p) ==> s.len()
            == k && sq_dist(p, q) >= s.last().0
}

/// The sequence of candidates with a new one inserted keeps the per-candidate
/// facts and distinctness, and holds the points of the old one and the new one.
pub proof fn lemma_insert_candidate<V>(
    s: Seq<(u128, &Node<V>)>,
    pos: int,
    n: &Node<V>,
    k: nat,
    q: Point,
    m: Map<Point, V>,
    visited: Set<Point>,
    pruned: Set<Point>,
)
    requires
        kept_inv(s, k, q, m, visited, pruned),
        !visited.contains(n.median),
        m.contains_key(n.median),
        m[n.median] == n.value,
        0 <= pos <= s.len(),
        0 <= sq_dist(n.median, q) <= u128::MAX,
    ensures
        ({
            let f = s.insert(pos, (sq_dist(n.median, q) as u128, n));
            &&& forall|i: int|
                0 <= i < f.len() ==> {
                    &&& #[trigger] f[i].0 == sq_dist(f[i].1.median, q)
                    &&& visited.insert(n.median).contains(f[i].1.median)
                    &&& m.contains_key(f[i].1.median)
                    &&& m[f[i].1.median] == f[i].1.value
                }
            &&& forall|i: int, j: int|
                0 <= i < j < f.len() ==> #[trigger] f[i].1.median != #[trigger] f[j].1.median
            &&& kept_points(f) == kept_points(s).insert(n.median)
        }),
{
    let c = (sq_dist(n.median, q) as u128, n);
    let f = s.insert(pos, c);
    let v2 = visited.insert(n.median);
    assert forall|i: int| 0 <= i < f.len() implies {
        &&& #[trigger] f[i].0 == sq_dist(f[i].1.median, q)
        &&& v2.contains(f[i].1.median)
        &&& m.contains_key(f[i].1.median)
        &&& m[f[i].1.median] == f[i].1.value
    } by {
        if i < pos {
            assert(f[i] == s[i]);
            assert(s[i].0 == sq_dist(s[i].1.median, q));
        } else if i > pos {
            assert(f[i] == s[i - 1]);
            assert(s[i - 1].0 == sq_dist(s[i - 1].1.median, q));
        }
    }
    assert forall|i: int, j: int| 0 <= i < j < f.len() implies #[trigger] f[i].1.median
        != #[trigger] f[j].1.median by {
        if j < pos {
            assert(f[i] == s[i] && f[j] == s[j]);
        } else if j == pos {
            assert(f[i] == s[i]);
            assert(s[i].0 == sq_dist(s[i].1.median, q));
        } else if i < pos {
            assert(f[i] == s[i] && f[j] == s[j - 1]);
        } else if i == pos {
            assert(f[j] == s[j - 1]);
            assert(s[j - 1].0 == sq_dist(s[j - 1].1.median, q));
        } else {
            assert(f[i] == s[i - 1] && f[j] == s[j - 1]);
        }
    }
    assert forall|p: Point| kept_points(f).contains(p) == kept_points(s).insert(n.median).contains(
        p,
    ) by {
        if kept_points(s).contains(p) {
            let i = choose|i: int| 0 <= i < s.len() && s[i].1.median == p;
            if i < pos {
                assert(f[i] == s[i]);
            } else {
                assert(f[i + 1] == s[i]);
            }
        }
        if p == n.median {
            assert(f[pos].1.median == p);
        }
        if kept_points(f).contains(p) {
            let i = choose|i: int| 0 <= i < f.len() && f[i].1.median == p;
            if i < pos {
                assert(s[i] == f[i]);
            } else if i > pos {
                assert(s[i - 1] == f[i]);
            }
        }
    }
    assert(kept_points(f) =~= kept_points(s).insert(n.median));
}

/// Pushing the candidate of a newly visited node keeps the invariant.
#[verifier::rlimit(50)]
pub proof fn lemma_push_candidate<V>(
    s: Seq<(u128, &Node<V>)>,
    t: Seq<(u128, &Node<V>)>,
    pos: int,
    n: &Node<V>,
    k: nat,
    q: Point,
    m: Map<Point, V>,
    visited: Set<Point>,
    pruned: Set<Point>,
)
    requires
        k > 0,
        kept_inv(s, k, q, m, visited, pruned),
        !visited.contains(n.median),
        !pruned.contains(n.median),
        m.contains_key(n.median),
        m[n.median] == n.value,
        0 <= pos <= s.len(),
        crate::retention::keys_ascending(s.insert(pos, (sq_dist(n.median, q) as u128, n))),
        0 <= sq_dist(n.median, q) <= u128::MAX,
        t == (if s.len() + 1 > k {
            s.insert(pos, (sq_dist(n.median, q) as u128, n)).drop_last()
        } else {
            s.insert(pos, (sq_dist(n.median, q) as u128, n))
        }),
    ensures
        kept_inv(t, k, q, m, visited.insert(n.median), pruned),
{
    let c = (sq_dist(n.median, q) as u128, n);
    let f = s.insert(pos, c);
    let v2 = visited.insert(n.median);
    lemma_insert_candidate(s, pos, n, k, q, m, visited, pruned);
    if s.len() + 1 > k {
        assert(s.len() == k);
        assert forall|i: int| 0 <= i < t.len() implies #[trigger] t[i] == f[i] by {}
        assert forall|p: Point| kept_points(f).contains(p) && !kept_points(t).contains(p) implies p
            == f.last().1.median by {
            let i = choose|i: int| 0 <= i < f.len() && f[i].1.median == p;
            if i < f.len() - 1 {
                assert(t[i] == f[i]);
            }
        }
        assert forall|p: Point| kept_points(t).contains(p) implies kept_points(f).contains(p) by {
            let i = choose|i: int| 0 <= i < t.len() && t[i].1.median == p;
            assert(t[i] == f[i]);
        }
        assert(t.last() == f[k - 1]);
        assert(f[k - 1].0 <= f[k as int].0);
        if pos < k {
            assert(s.last() == f[k as int]);
        } else {
            assert(s.last() == f[k - 1]);
        }
        assert(f.last() == f[k as int]);
        assert(f[k as int].0 == sq_dist(f[k as int].1.median, q));
        assert forall|i: int| 0 <= i < t.len() implies #[trigger] t[i].0 == sq_dist(
            t[i].1.median,
            q,
        ) && v2.contains(t[i].1.median) && m.contains_key(t[i].1.median) && m[t[i].1.median]
            == t[i].1.value by {
            assert(t[i] == f[i]);
        }
        assert forall|i: int, j: int| 0 <= i < j < t.len() implies #[trigger] t[i].1.median
            != #[trigger] t[j].1.median by {
            assert(t[i] == f[i] && t[j] == f[j]);
        }
        assert forall|p: Point|
            (v2.contains(p) || pruned.contains(p)) && !kept_points(t).contains(p) implies t.len()
            == k && sq_dist(p, q) >= t.last().0 by {
            if kept_points(f).contains(p) {
                assert(p == f.last().1.median);
            } else {
                assert(p != n.median);
                assert(!kept_points(s).contains(p));
                assert(visited.contains(p) || pruned.contains(p));
            }
        }
    } else {
        assert forall|p: Point|
            (v2.contains(p) || pruned.contains(p)) && !kept_points(t).contains(p) implies t.len()
            == k && sq_dist(p, q) >= t.last().0 by {
            assert(p != n.median);
            assert(!kept_points(s).contains(p));
            assert(visited.contains(p) || pruned.contains(p));
        }
        if t.len() < k {
            assert(s.len() < k);
            assert(v2.subset_of(kept_points(t)));
        }
    }
}

/// The number of distinct points held by a sequence of candidates is its length.
pub proof fn lemma_kept_points_len<V>(s: Seq<(u128, &Node<V>)>)
    requires
        forall|i: int, j: int|
            0 <= i < j < s.len() ==> #[trigger] s[i].1.median != #[trigger] s[j].1.median,
    ensures
        kept_points(s).finite(),
        kept_points(s).len() == s.len(),
    decreases s.len(),
{
    if s.len() == 0 {
        assert(kept_points(s) =~= Set::empty());
    } else {
        let r = s.drop_last();
        assert forall|i: int, j: int| 0 <= i < j < r.len() implies #[trigger] r[i].1.median
            != #[trigger] r[j].1.median by {
            assert(r[i] == s[i] && r[j] == s[j]);
        }
        lemma_kept_points_len(r);
        assert forall|p: Point| kept_points(s).contains(p) == kept_points(r).insert(
            s.last().1.median,
        ).contains(p) by {
            if kept_points(r).contains(p) {
                let i = choose|i: int| 0 <= i < r.len() && r[i].1.median == p;
                assert(s[i] == r[i]);
            }
            if kept_points(s).contains(p) && p != s.last().1.median {
                let i = choose|i: int| 0 <= i < s.len() && s[i].1.median == p;
                assert(r[i] == s[i]);
            }
        }
        assert(kept_points(s) =~= kept_points(r).insert(s.last().1.median));
        assert(!kept_points(r).contains(s.last().1.median));
    }
}

} // verus!
