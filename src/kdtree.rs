//! A two-dimensional k-d tree mapping points to payload values.

use vstd::prelude::*;

use crate::point::{sq_dist, Point};
use crate::construct::{
    is_last, lemma_count_unique, lemma_pairs_map, pairs_map, tag_last_pairs,
};
use crate::nearest::{
    kept_inv, kept_points, lemma_far_side, lemma_kept_points_len, lemma_node_parts,
    lemma_push_candidate, stack_disjoint, stack_points, within,
};
use crate::retention::KSmallest;
use crate::select::{
    lemma_n_keyed_perm, lemma_n_keyed_reversed, lemma_selected_counts, n_keyed, point_key,
    select_by_axis,
};
use crate::utils::split_element_at;

verus! {

/// The axis used to split the space at a node of the tree.
#[derive(Debug, Clone, Copy, PartialEq, Eq, Structural)]
pub enum Axis {
    X,
    Y,
}

impl Axis {
    /// The axis that follows `self`; the two axes alternate.
    pub open spec fn next_spec(self) -> Axis {
        match self {
            Axis::X => Axis::Y,
            Axis::Y => Axis::X,
        }
    }

    /// Return the next axis, going back to the first one after the last.
    pub fn next(self) -> (r: Axis)
        ensures
            r == self.next_spec(),
    {
        match self {
            Axis::X => Axis::Y,
            Axis::Y => Axis::X,
        }
    }
}

/// The coordinate of `p` on `axis`.
pub open spec fn coord(p: Point, axis: Axis) -> u32 {
    match axis {
        Axis::X => p.x,
        Axis::Y => p.y,
    }
}

/// Access to the coordinate of an entity on a given axis.
pub trait AxisValue {
    spec fn axis_spec(&self, axis: Axis) -> u32;

    /// Return the value on the given axis.
    fn axis_value(&self, axis: Axis) -> (r: u32)
        ensures
            r == self.axis_spec(axis),
    ;
}

impl AxisValue for Point {
    open spec fn axis_spec(&self, axis: Axis) -> u32 {
        coord(*self, axis)
    }

    fn axis_value(&self, axis: Axis) -> (r: u32) {
        match axis {
            Axis::X => self.x,
            Axis::Y => self.y,
        }
    }
}

/// A node of the tree: a splitting point, its payload and two subtrees.
#[derive(Debug, PartialEq)]
pub struct Node<V> {
    pub axis: Axis,
    pub median: Point,
    pub value: V,
    pub left: Option<Box<Node<V>>>,
    pub right: Option<Box<Node<V>>>,
}

/// The map from points to values held by an optional subtree.
pub open spec fn subtree_map<V>(n: Option<Box<Node<V>>>) -> Map<Point, V>
    decreases n,
{
    match n {
        None => Map::empty(),
        Some(b) => b.as_map(),
    }
}

/// Whether an optional subtree is well formed and, when present, splits on `axis`.
pub open spec fn subtree_wf<V>(n: Option<Box<Node<V>>>, axis: Axis) -> bool
    decreases n,
{
    match n {
        None => true,
        Some(b) => b.axis == axis && b.wf(),
    }
}

/// The node that inserting `p` with `v` below `n` gives: the value of an
/// equal point is replaced; otherwise the descent goes left where the point's
/// coordinate on the node's axis is at most the node's, right where it is
/// greater, and a leaf on the next axis is attached at the empty slot reached.
pub open spec fn inserted<V>(n: Node<V>, p: Point, v: V) -> Node<V>
    decreases n,
{
    if p == n.median {
        Node { axis: n.axis, median: n.median, value: v, left: n.left, right: n.right }
    } else if coord(p, n.axis) <= coord(n.median, n.axis) {
        Node {
            axis: n.axis,
            median: n.median,
            value: n.value,
            left: subtree_inserted(n.left, p, v, n.axis.next_spec()),
            right: n.right,
        }
    } else {
        Node {
            axis: n.axis,
            median: n.median,
            value: n.value,
            left: n.left,
            right: subtree_inserted(n.right, p, v, n.axis.next_spec()),
        }
    }
}

/// The optional subtree that inserting `p` with `v` gives; an empty subtree
/// becomes a leaf splitting on `axis`.
pub open spec fn subtree_inserted<V>(t: Option<Box<Node<V>>>, p: Point, v: V, axis: Axis) -> Option<
    Box<Node<V>>,
>
    decreases t,
{
    match t {
        None => Some(Box::new(Node { axis, median: p, value: v, left: None, right: None })),
        Some(b) => Some(Box::new(inserted(*b, p, v))),
    }
}

impl<V> Node<V> {
    /// The points of this subtree, each with its payload.
    pub open spec fn as_map(self) -> Map<Point, V>
        decreases self,
    {
        subtree_map(self.left).union_prefer_right(subtree_map(self.right)).insert(
            self.median,
            self.value,
        )
    }

    /// The search-tree invariant: points on the left lie at or below the median
    /// on this node's axis and differ from it, points on the right lie strictly
    /// above it, and children split on the next axis.
    pub open spec fn wf(self) -> bool
        decreases self,
    {
        &&& forall|p: Point|
            #[trigger] subtree_map(self.left).contains_key(p) ==> coord(p, self.axis) <= coord(
                self.median,
                self.axis,
            ) && p != self.median
        &&& forall|p: Point|
            #[trigger] subtree_map(self.right).contains_key(p) ==> coord(p, self.axis) > coord(
                self.median,
                self.axis,
            )
        &&& subtree_wf(self.left, self.axis.next_spec())
        &&& subtree_wf(self.right, self.axis.next_spec())
    }

    /// A leaf holding `pt` and `value`, splitting on `axis`.
    pub fn new(pt: Point, value: V, axis: Axis) -> (r: Node<V>)
        ensures
            r == (Node { axis, median: pt, value, left: None, right: None }),
            r.wf(),
            r.as_map() == map![pt => value],
    {
        let r = Node { median: pt, axis, value, left: None, right: None };
        assert(r.as_map() =~= map![pt => value]);
        r
    }

    /// Whether `point` lies before (`Less`), on (`Equal`) or after (`Greater`)
    /// this node's splitting line.
    pub fn cmp_to_point_value(&self, point: Point) -> (r: core::cmp::Ordering)
        ensures
            (r == core::cmp::Ordering::Less) == (coord(point, self.axis) < coord(
                self.median,
                self.axis,
            )),
            (r == core::cmp::Ordering::Equal) == (coord(point, self.axis) == coord(
                self.median,
                self.axis,
            )),
            (r == core::cmp::Ordering::Greater) == (coord(point, self.axis) > coord(
                self.median,
                self.axis,
            )),
    {
        let cur = self.median.axis_value(self.axis);
        let other = point.axis_value(self.axis);
        if other < cur {
            core::cmp::Ordering::Less
        } else if other == cur {
            core::cmp::Ordering::Equal
        } else {
            core::cmp::Ordering::Greater
        }
    }

    /// Whether `point` is in this subtree, found by the descent of `add`.
    pub fn contains(&self, point: Point) -> (r: bool)
        requires
            self.wf(),
        ensures
            r == self.as_map().contains_key(point),
        decreases self,
    {
        proof {
            lemma_node_parts(*self);
        }
        if point == self.median {
            return true;
        }
        let ord = self.cmp_to_point_value(point);
        match ord {
            core::cmp::Ordering::Greater => {
                assert(!subtree_map(self.left).contains_key(point));
                match &self.right {
                    None => false,
                    Some(b) => b.contains(point),
                }
            },
            _ => {
                assert(!subtree_map(self.right).contains_key(point));
                match &self.left {
                    None => false,
                    Some(b) => b.contains(point),
                }
            },
        }
    }

    /// Insert `point` with `value` below this node, replacing the value of an
    /// equal point; returns the replaced value.
    pub fn add(&mut self, point: Point, value: V) -> (r: Option<V>)
        requires
            old(self).wf(),
        ensures
            final(self).wf(),
            final(self).axis == old(self).axis,
            *final(self) == inserted(*old(self), point, value),
            final(self).as_map() == old(self).as_map().insert(point, value),
            r == (if old(self).as_map().contains_key(point) {
                Some(old(self).as_map()[point])
            } else {
                None
            }),
        decreases *old(self),
    {
        if point == self.median {
            let mut old_value = value;
            core::mem::swap(&mut self.value, &mut old_value);
            assert(self.as_map() =~= old(self).as_map().insert(point, value));
            return Some(old_value);
        }
        let ord = self.cmp_to_point_value(point);
        let next_axis = self.axis.next();
        let goes_left = match ord {
            core::cmp::Ordering::Greater => false,
            _ => true,
        };
        if goes_left {
            assert(!subtree_map(self.right).contains_key(point));
            let r = Self::add_to_subtree(&mut self.left, point, value, next_axis);
            assert(self.as_map() =~= old(self).as_map().insert(point, value));
            r
        } else {
            assert(!subtree_map(self.left).contains_key(point));
            let r = Self::add_to_subtree(&mut self.right, point, value, next_axis);
            assert(self.as_map() =~= old(self).as_map().insert(point, value));
            r
        }
    }

    /// Insert into an optional subtree whose nodes split first on `axis`,
    /// creating a leaf where the subtree is empty.
    fn add_to_subtree(child: &mut Option<Box<Node<V>>>, point: Point, value: V, axis: Axis) -> (r:
        Option<V>)
        requires
            subtree_wf(*old(child), axis),
        ensures
            subtree_wf(*final(child), axis),
            *final(child) == subtree_inserted(*old(child), point, value, axis),
            subtree_map(*final(child)) == subtree_map(*old(child)).insert(point, value),
            r == (if subtree_map(*old(child)).contains_key(point) {
                Some(subtree_map(*old(child))[point])
            } else {
                None
            }),
        decreases *old(child),
    {
        match child.take() {
            None => {
                *child = Some(Box::new(Node::new(point, value, axis)));
                assert(subtree_map(*child) =~= subtree_map(*old(child)).insert(point, value));
                None
            },
            Some(mut b) => {
                let r = (&mut *b).add(point, value);
                *child = Some(b);
                r
            },
        }
    }
}

/// The finiteness of the map held by a subtree.
pub proof fn lemma_subtree_finite<V>(n: Option<Box<Node<V>>>)
    ensures
        subtree_map(n).dom().finite(),
    decreases n,
{
    if let Some(b) = n {
        lemma_subtree_finite(b.left);
        lemma_subtree_finite(b.right);
        assert(subtree_map(n).dom() =~= subtree_map(b.left).dom().union(
            subtree_map(b.right).dom(),
        ).insert(b.median));
    }
}

/// All the pairs waiting in a queue of ranges, front to back.
pub open spec fn queued<V>(q: Seq<(Vec<(Point, V)>, Axis)>) -> Seq<(Point, V)>
    decreases q.len(),
{
    if q.len() == 0 {
        Seq::empty()
    } else {
        q[0].0@ + queued(q.drop_first())
    }
}

/// Appending a range at the back of a queue appends its pairs.
pub proof fn lemma_queued_push<V>(q: Seq<(Vec<(Point, V)>, Axis)>, x: (Vec<(Point, V)>, Axis))
    ensures
        queued(q.push(x)) == queued(q) + x.0@,
    decreases q.len(),
{
    if q.len() == 0 {
        assert(q.push(x).drop_first() =~= Seq::<(Vec<(Point, V)>, Axis)>::empty());
        assert(queued(Seq::<(Vec<(Point, V)>, Axis)>::empty()) == Seq::<(Point, V)>::empty());
        assert(queued(q.push(x)) =~= queued(q) + x.0@);
    } else {
        lemma_queued_push(q.drop_first(), x);
        assert(q.push(x).drop_first() =~= q.drop_first().push(x));
        assert(queued(q.push(x)) =~= queued(q) + x.0@);
    }
}

/// Whether `r` answers a query for the `k` points of `m` nearest to `q`:
/// `min(k, |m|)` distinct points of `m` with their values, in ascending order
/// of distance, and no point of `m` left out is nearer than one in `r`. Among
/// points at equal distance, any may be chosen.
pub open spec fn is_k_nearest<V>(m: Map<Point, V>, q: Point, k: nat, r: Seq<(&Point, &V)>) -> bool {
    &&& r.len() == if k <= m.dom().len() {
        k
    } else {
        m.dom().len()
    }
    &&& forall|i: int|
        0 <= i < r.len() ==> m.contains_key(*(#[trigger] r[i]).0) && m[*r[i].0] == *r[i].1
    &&& forall|i: int, j: int| 0 <= i < j < r.len() ==> *(#[trigger] r[i]).0 != *(#[trigger] r[j]).0
    &&& forall|i: int, j: int|
        0 <= i < j < r.len() ==> sq_dist(*(#[trigger] r[i]).0, q) <= sq_dist(*(#[trigger] r[j]).0, q)
    &&& forall|p: Point, i: int|
        #![trigger m.contains_key(p), r[i]]
        m.contains_key(p) && (forall|j: int| 0 <= j < r.len() ==> *r[j].0 != p) && 0 <= i < r.len()
            ==> sq_dist(p, q) >= sq_dist(*r[i].0, q)
}
/// An answer to a k-nearest query agrees with a scan of all the points sorted
/// by distance and cut after `k`: the `i`-th answer has at most `i` points of
/// `m` strictly nearer than it, and at least `i + 1` points (itself included)
/// at most as far, so its distance is the `i`-th smallest distance in `m`.
pub proof fn lemma_k_nearest_is_sorted_prefix<V>(
    m: Map<Point, V>,
    q: Point,
    k: nat,
    r: Seq<(&Point, &V)>,
    i: int,
)
    requires
        m.dom().finite(),
        is_k_nearest(m, q, k, r),
        0 <= i < r.len(),
    ensures
        m.dom().filter(|p: Point| sq_dist(p, q) < sq_dist(*r[i].0, q)).len() <= i,
        m.dom().filter(|p: Point| sq_dist(p, q) <= sq_dist(*r[i].0, q)).len() >= i + 1,
{
    broadcast use vstd::seq_lib::seq_to_set_is_finite;

    let d = sq_dist(*r[i].0, q);
    let pts = r.map_values(|e: (&Point, &V)| *e.0);
    let nearer = m.dom().filter(|p: Point| sq_dist(p, q) < d);
    let within = m.dom().filter(|p: Point| sq_dist(p, q) <= d);
    let before = pts.take(i);
    let upto = pts.take(i + 1);
    assert forall|a: int, b: int| 0 <= a < b < before.len() implies before[a] != before[b] by {
        assert(*r[a].0 != *r[b].0);
    }
    assert(before.no_duplicates());
    before.unique_seq_to_set();
    assert forall|a: int, b: int| 0 <= a < b < upto.len() implies upto[a] != upto[b] by {
        assert(*r[a].0 != *r[b].0);
    }
    assert(upto.no_duplicates());
    upto.unique_seq_to_set();
    assert forall|p: Point| nearer.contains(p) implies before.to_set().contains(p) by {
        if forall|j: int| 0 <= j < r.len() ==> *r[j].0 != p {
            assert(sq_dist(p, q) >= sq_dist(*r[i].0, q));
        } else {
            let j = choose|j: int| 0 <= j < r.len() && *r[j].0 == p;
            if j >= i {
                if j > i {
                    assert(sq_dist(*r[i].0, q) <= sq_dist(*r[j].0, q));
                }
            } else {
                assert(before[j] == p);
            }
        }
    }
    vstd::set_lib::lemma_len_subset(nearer, before.to_set());
    assert forall|p: Point| upto.to_set().contains(p) implies within.contains(p) by {
        let j = choose|j: int| 0 <= j < upto.len() && upto[j] == p;
        assert(*r[j].0 == p);
        assert(m.contains_key(*r[j].0));
        if j < i {
            assert(sq_dist(*r[j].0, q) <= sq_dist(*r[i].0, q));
        }
    }
    vstd::set_lib::lemma_len_subset(within, m.dom());
    vstd::set_lib::lemma_len_subset(upto.to_set(), within);
}

/// A k-d tree over the plane: a map from points to values, split alternately
/// on the x and the y axis, starting with x at the root.
#[derive(Debug, PartialEq)]
pub struct KdTree<V> {
    root: Option<Node<V>>,
    length: usize,
}

impl<V> View for KdTree<V> {
    type V = Map<Point, V>;

    closed spec fn view(&self) -> Map<Point, V> {
        match self.root {
            None => Map::empty(),
            Some(n) => n.as_map(),
        }
    }
}

impl<V> Default for KdTree<V> {
    /// An empty tree.
    fn default() -> (r: KdTree<V>)
        ensures
            r.wf(),
            r@ == Map::<Point, V>::empty(),
            r.root_node().is_none(),
    {
        KdTree { root: None, length: 0 }
    }
}

impl<V> KdTree<V> {
    /// The root node of the tree.
    pub closed spec fn root_node(&self) -> Option<Node<V>> {
        self.root
    }

    /// The tree invariant: the root splits on x, every node keeps the
    /// search-tree invariant, and the stored length counts the points.
    pub closed spec fn wf(&self) -> bool {
        &&& match self.root {
            None => true,
            Some(n) => n.axis == Axis::X && n.wf(),
        }
        &&& self.length as nat == self@.dom().len()
    }

    /// The tree holds finitely many points.
    pub proof fn lemma_finite(&self)
        ensures
            self@.dom().finite(),
    {
        if let Some(n) = self.root {
            lemma_subtree_finite(Some(Box::new(n)));
        }
    }

    /// Create a new empty tree.
    pub fn new() -> (r: KdTree<V>)
        ensures
            r.wf(),
            r@ == Map::<Point, V>::empty(),
            r.root_node().is_none(),
    {
        Self::default()
    }

    /// Whether the tree holds no point.
    pub fn is_empty(&self) -> (r: bool)
        requires
            self.wf(),
        ensures
            r == (self@.dom().len() == 0),
    {
        self.length == 0
    }

    /// The number of points in the tree.
    pub fn len(&self) -> (r: usize)
        requires
            self.wf(),
        ensures
            r == self@.dom().len(),
    {
        self.length
    }

    /// The root node, if the tree is not empty.
    pub fn root(&self) -> (r: Option<&Node<V>>)
        ensures
            r.is_some() == self.root_node().is_some(),
            r.is_some() ==> *r.unwrap() == self.root_node().unwrap(),
    {
        match &self.root {
            None => None,
            Some(n) => Some(n),
        }
    }

    /// Whether `point` is in the tree.
    pub fn contains_key(&self, point: Point) -> (r: bool)
        requires
            self.wf(),
        ensures
            r == self@.contains_key(point),
    {
        match &self.root {
            None => false,
            Some(n) => n.contains(point),
        }
    }

    /// Build a tree from a list of points with values. Each range of the list,
    /// taken from a queue that starts with the whole list on x, is partitioned
    /// around its element of rank `len / 2` by coordinate on the current axis,
    /// ties broken by the other coordinate; that element is added and the two
    /// sides are queued on the next axis. Repeated points take part in the
    /// selection like the others: a point is placed by the first of its pairs
    /// that is added, and keeps the value of its last pair in the list, as
    /// with repeated `add`. This gives a more balanced tree than adding the
    /// points one by one.
    #[verifier::rlimit(100)]
    pub fn from_vector(points: Vec<(Point, V)>) -> (r: KdTree<V>)
        ensures
            r.wf(),
            r@ == pairs_map(points@),
            points@.len() > 0 ==> r.root_node().is_some() && r.root_node().unwrap().axis == Axis::X
                && r@.contains_key(r.root_node().unwrap().median) && n_keyed(
                points@,
                point_key(r.root_node().unwrap().median, Axis::X),
                Axis::X,
                true,
            ) <= points@.len() / 2 && n_keyed(
                points@,
                point_key(r.root_node().unwrap().median, Axis::X),
                Axis::X,
                false,
            ) > points@.len() / 2,
            r@.dom() == Set::new(|p: Point| exists|i: int| 0 <= i < points@.len() && points@[i].0 == p),
            forall|i: int|
                0 <= i < points@.len() && is_last(points@, i) ==> r@[(#[trigger] points@[i]).0]
                    == points@[i].1,
    {
        broadcast use vstd::seq_lib::group_to_multiset_ensures;
        broadcast use vstd::multiset::group_multiset_axioms;

        let ghost src = points@;
        let ghost target = pairs_map(points@);
        let n = points.len();
        proof {
            lemma_pairs_map(src);
        }
        let tagged = tag_last_pairs(points);
        let ghost t0 = tagged@;
        proof {
            assert forall|e: (Point, (V, bool))| #[trigger] t0.to_multiset().count(e) > 0 implies target.contains_key(e.0) && (e.1.1 ==> target[e.0] == e.1.0) by {
                assert(t0.contains(e));
                let j = choose|j: int| 0 <= j < t0.len() && t0[j] == e;
                assert(t0[j] == (src[n - 1 - j].0, (src[n - 1 - j].1, is_last(src, n - 1 - j))));
            }
            assert forall|e: (Point, (V, bool))| #[trigger] t0.to_multiset().count(e) <= 1 || !e.1.1 by {
                if e.1.1 {
                    assert forall|a: int, b: int| 0 <= a < b < t0.len() implies !(t0[a] == e && t0[b] == e) by {
                        if t0[a] == e && t0[b] == e {
                            assert(t0[a] == (src[n - 1 - a].0, (src[n - 1 - a].1, is_last(src, n - 1 - a))));
                            assert(t0[b] == (src[n - 1 - b].0, (src[n - 1 - b].1, is_last(src, n - 1 - b))));
                            assert(is_last(src, n - 1 - b));
                            assert(src[n - 1 - a].0 == src[n - 1 - b].0);
                        }
                    }
                    lemma_count_unique(t0, e);
                }
            }
            assert forall|p: Point| #[trigger] target.contains_key(p) implies t0.to_multiset().count(
                (p, (target[p], true)),
            ) > 0 by {
                let i = choose|i: int| 0 <= i < src.len() && src[i].0 == p && is_last(src, i);
                let j = n - 1 - i;
                assert(t0[j] == (src[n - 1 - j].0, (src[n - 1 - j].1, is_last(src, n - 1 - j))));
                assert(target[src[i].0] == src[i].1);
                assert(t0.contains((p, (target[p], true))));
            }
            assert forall|i: int| 0 <= i < t0.len() implies (#[trigger] t0[i]).0 == src[t0.len() - 1 - i].0 by {
                assert(t0[i] == (src[n - 1 - i].0, (src[n - 1 - i].1, is_last(src, n - 1 - i))));
            }
        }
        let mut tree: KdTree<V> = KdTree::new();
        let mut ranges: std::collections::VecDeque<(Vec<(Point, (V, bool))>, Axis)> =
            std::collections::VecDeque::new();
        ranges.push_back((tagged, Axis::X));
        proof {
            assert(ranges@.drop_first() =~= Seq::<(Vec<(Point, (V, bool))>, Axis)>::empty());
            assert(queued(Seq::<(Vec<(Point, (V, bool))>, Axis)>::empty()) == Seq::<(Point, (V, bool))>::empty());
            assert(queued(ranges@) =~= t0);
        }
        while ranges.len() > 0
            invariant
                tree.wf(),
                n == src.len(),
                target == pairs_map(src),
                target.dom().finite(),
                target.dom().len() <= n,
                t0.len() == n,
                forall|i: int| 0 <= i < t0.len() ==> (#[trigger] t0[i]).0 == src[t0.len() - 1 - i].0,
                forall|p: Point| #[trigger] tree@.contains_key(p) ==> target.contains_key(p),
                forall|e: (Point, (V, bool))| #[trigger]
                    queued(ranges@).to_multiset().count(e) > 0 ==> target.contains_key(e.0) && (e.1.1
                        ==> target[e.0] == e.1.0),
                forall|e: (Point, (V, bool))| #[trigger]
                    queued(ranges@).to_multiset().count(e) <= 1 || !e.1.1,
                forall|p: Point| #[trigger]
                    target.contains_key(p) ==> queued(ranges@).to_multiset().count(
                        (p, (target[p], true)),
                    ) > 0 || (tree@.contains_key(p) && tree@[p] == target[p]),
                tree.root_node().is_none() ==> tree@.dom().len() == 0 && ((ranges@.len() == 0
                    && t0.len() == 0) || (ranges@.len() == 1 && ranges@[0].1 == Axis::X
                    && ranges@[0].0@ == t0)),
                tree.root_node().is_some() ==> tree.root_node().unwrap().axis == Axis::X
                    && target.contains_key(tree.root_node().unwrap().median) && n_keyed(
                    src,
                    point_key(tree.root_node().unwrap().median, Axis::X),
                    Axis::X,
                    true,
                ) <= n / 2 && n_keyed(
                    src,
                    point_key(tree.root_node().unwrap().median, Axis::X),
                    Axis::X,
                    false,
                ) > n / 2,
            decreases 2 * queued(ranges@).len() + ranges@.len(),
        {
            let ghost q0 = ranges@;
            let (mut pts, axis) = ranges.pop_front().unwrap();
            let ghost rest = ranges@;
            let ghost ms0 = queued(q0).to_multiset();
            proof {
                assert(q0.drop_first() == rest);
                assert(queued(q0) == pts@ + queued(rest));
                vstd::seq_lib::lemma_multiset_commutative(pts@, queued(rest));
            }
            if pts.len() > 0 {
                let mid = pts.len() / 2;
                let ghost orig = pts@;
                select_by_axis(&mut pts, mid, axis);
                let ghost sel = pts@;
                let ghost was_empty = tree.root_node().is_none();
                proof {
                    if was_empty {
                        assert(rest.len() == 0);
                        assert(orig == t0);
                        let kk = point_key(sel[mid as int].0, Axis::X);
                        lemma_selected_counts(sel, mid as int, axis);
                        lemma_n_keyed_perm(sel, t0, kk, Axis::X, true);
                        lemma_n_keyed_perm(sel, t0, kk, Axis::X, false);
                        lemma_n_keyed_reversed(t0, src, kk, Axis::X, true);
                        lemma_n_keyed_reversed(t0, src, kk, Axis::X, false);
                    }
                }
                let (left, elem, right) = split_element_at(pts, mid);
                let (p, tv) = elem.unwrap();
                let ghost e = (p, tv);
                let (val, last_pair) = tv;
                proof {
                    assert(sel =~= left@ + seq![e] + right@);
                    vstd::seq_lib::lemma_multiset_commutative(left@ + seq![e], right@);
                    assert(left@ + seq![e] =~= left@.push(e));
                    vstd::seq_lib::to_multiset_build(left@, e);
                    assert(ms0.count(e) > 0);
                    tree.lemma_finite();
                }
                let ghost old_tree = tree@;
                let ghost old_root = tree.root_node();
                let present = tree.contains_key(p);
                if last_pair || !present {
                    proof {
                        if !present {
                            vstd::set_lib::lemma_len_subset(tree@.dom(), target.dom().remove(p));
                        }
                    }
                    tree.add(p, val);
                    proof {
                        if let Some(r0) = old_root {
                            assert(inserted(r0, p, val).median == r0.median);
                            assert(inserted(r0, p, val).axis == r0.axis);
                        }
                    }
                }
                let next = axis.next();
                if left.len() > 0 {
                    proof {
                        lemma_queued_push(ranges@, (left, next));
                    }
                    ranges.push_back((left, next));
                }
                if right.len() > 0 {
                    proof {
                        lemma_queued_push(ranges@, (right, next));
                    }
                    ranges.push_back((right, next));
                }
                proof {
                    assert(queued(ranges@) =~= queued(rest) + left@ + right@);
                    vstd::seq_lib::lemma_multiset_commutative(queued(rest) + left@, right@);
                    vstd::seq_lib::lemma_multiset_commutative(queued(rest), left@);
                    let ms1 = queued(ranges@).to_multiset();
                    assert(ms1 =~= ms0.remove(e));
                    assert forall|x: Point| #[trigger] target.contains_key(x) implies ms1.count(
                        (x, (target[x], true)),
                    ) > 0 || (tree@.contains_key(x) && tree@[x] == target[x]) by {
                        let pend = (x, (target[x], true));
                        if x == p {
                            if !last_pair {
                                assert(pend != e);
                            }
                        } else {
                            assert(pend != e);
                            assert(old_tree.contains_key(x) ==> tree@[x] == old_tree[x]);
                        }
                    }
                    assert forall|e2: (Point, (V, bool))| #[trigger] ms1.count(e2) > 0 implies target.contains_key(
                        e2.0,
                    ) && (e2.1.1 ==> target[e2.0] == e2.1.0) by {
                        assert(ms0.count(e2) > 0);
                    }
                    assert forall|e2: (Point, (V, bool))| #[trigger] ms1.count(e2) <= 1 || !e2.1.1 by {
                        assert(ms0.count(e2) <= 1 || !e2.1.1);
                    }
                }
            } else {
                proof {
                    assert(queued(ranges@) =~= queued(q0));
                }
            }
        }
        proof {
            assert(queued(ranges@) =~= Seq::<(Point, (V, bool))>::empty());
            assert(tree@ =~= target);
            tree.lemma_finite();
            if src.len() > 0 {
                assert(target.contains_key(src[0].0));
                assert(tree@.dom().len() > 0);
            }
            assert(tree@.dom() =~= Set::new(
                |p: Point| exists|i: int| 0 <= i < points@.len() && points@[i].0 == p,
            ));
        }
        tree
    }

    /// Add a point with its value; where the point is already in the tree, its
    /// value is replaced and the old one returned, and no node moves.
    /// Otherwise the point becomes a leaf on the next axis at the empty slot
    /// that the descent reaches (left where its coordinate on a node's axis is
    /// at most the node's); an empty tree gets it as a root splitting on x.
    /// Repeated additions may leave the tree unbalanced.
    pub fn add(&mut self, point: Point, value: V) -> (r: Option<V>)
        requires
            old(self).wf(),
            !old(self)@.contains_key(point) ==> old(self)@.dom().len() < usize::MAX,
        ensures
            final(self).wf(),
            final(self).root_node() == match old(self).root_node() {
                None => Some(Node { axis: Axis::X, median: point, value, left: None, right: None }),
                Some(n) => Some(inserted(n, point, value)),
            },
            final(self)@ == old(self)@.insert(point, value),
            final(self)@.dom().len() == if old(self)@.contains_key(point) {
                old(self)@.dom().len()
            } else {
                old(self)@.dom().len() + 1
            },
            r == (if old(self)@.contains_key(point) {
                Some(old(self)@[point])
            } else {
                None
            }),
    {
        match self.root.take() {
            None => {
                self.root = Some(Node::new(point, value, Axis::X));
                self.length = 1;
                assert(self@.dom() =~= set![point]);
                None
            },
            Some(mut n) => {
                proof {
                    lemma_subtree_finite(Some(Box::new(n)));
                }
                let r = n.add(point, value);
                self.root = Some(n);
                if r.is_none() {
                    self.length = self.length + 1;
                }
                r
            },
        }
    }

    /// The point of the tree nearest to `point`, with its value; `None` when
    /// the tree is empty.
    pub fn nearest_neighbor(&self, point: Point) -> (r: Option<(&Point, &V)>)
        requires
            self.wf(),
        ensures
            is_k_nearest(
                self@,
                point,
                1,
                match r {
                    None => Seq::empty(),
                    Some(x) => seq![x],
                },
            ),
            r.is_none() == (self@.dom().len() == 0),
            r.is_some() ==> self@.contains_key(*r.unwrap().0) && self@[*r.unwrap().0]
                == *r.unwrap().1,
            r.is_some() ==> forall|p: Point| #[trigger]
                self@.contains_key(p) ==> sq_dist(p, point) >= sq_dist(*r.unwrap().0, point),
    {
        let found = self.nearest_neighbors(point, 1);
        if found.len() == 0 {
            assert(found@ =~= Seq::empty());
            None
        } else {
            assert(found@ =~= seq![found@[0]]);
            let first = found[0];
            proof {
                assert forall|p: Point| #[trigger] self@.contains_key(p) implies sq_dist(p, point)
                    >= sq_dist(*first.0, point) by {
                    if p != *first.0 {
                        assert(forall|j: int| 0 <= j < found@.len() ==> *found@[j].0 != p);
                    }
                }
            }
            Some(first)
        }
    }

    /// At most `k` points of the tree nearest to `point`, with their values, in
    /// ascending order of distance: `min(k, len)` of them, and no point left
    /// out is nearer than one returned. Points at equal distance may come in
    /// either order.
    #[verifier::rlimit(50)]
    pub fn nearest_neighbors(&self, point: Point, k: usize) -> (r: Vec<(&Point, &V)>)
        requires
            self.wf(),
        ensures
            is_k_nearest(self@, point, k as nat, r@),
    {
        let ghost m = self@;
        proof {
            self.lemma_finite();
        }
        if k == 0 {
            return Vec::new();
        }
        let root = match &self.root {
            None => {
                return Vec::new();
            },
            Some(n) => n,
        };
        let mut nodes: Vec<&Node<V>> = Vec::new();
        nodes.push(root);
        let mut kept: KSmallest<&Node<V>> = KSmallest::new(k);
        let ghost mut visited: Set<Point> = Set::empty();
        let ghost mut pruned: Set<Point> = Set::empty();
        proof {
            assert(nodes@.drop_last() =~= Seq::<&Node<V>>::empty());
            assert(stack_points(Seq::<&Node<V>>::empty()) == Set::<Point>::empty());
            assert(stack_disjoint(Seq::<&Node<V>>::empty()));
            assert(m == root.as_map());
            assert(stack_points(nodes@) =~= m.dom());
            assert(kept_points(kept@) =~= Set::<Point>::empty());
            assert(m.dom() =~= visited.union(pruned).union(stack_points(nodes@)));
        }
        while nodes.len() > 0
            invariant
                k > 0,
                m == self@,
                m.dom().finite(),
                forall|i: int| 0 <= i < nodes@.len() ==> within(*#[trigger] nodes@[i], m),
                stack_disjoint(nodes@),
                m.dom() == visited.union(pruned).union(stack_points(nodes@)),
                visited.disjoint(pruned),
                visited.disjoint(stack_points(nodes@)),
                pruned.disjoint(stack_points(nodes@)),
                kept.wf(),
                kept.capacity() == k,
                kept_inv(kept@, k as nat, point, m, visited, pruned),
            decreases m.dom().len() - visited.len(),
        {
            let ghost before = nodes@;
            let node = nodes.pop().unwrap();
            let ghost rest = nodes@;
            proof {
                assert(before.drop_last() == rest);
                assert(within(*before[before.len() - 1], m));
                assert(stack_disjoint(rest));
                assert(stack_points(rest).disjoint(node.as_map().dom()));
                lemma_node_parts(*node);
                vstd::set_lib::lemma_len_subset(visited, m.dom());
            }
            let d = node.median.squared_dist(&point);
            let ghost old_kept = kept@;
            let pos = kept.push(d, node);
            proof {
                lemma_push_candidate(
                    old_kept,
                    kept@,
                    pos as int,
                    node,
                    k as nat,
                    point,
                    m,
                    visited,
                    pruned,
                );
                visited = visited.insert(node.median);
            }
            let ord = node.cmp_to_point_value(point);
            let goes_right = match ord {
                core::cmp::Ordering::Greater => true,
                _ => false,
            };
            let near = if goes_right {
                &node.right
            } else {
                &node.left
            };
            let far = if goes_right {
                &node.left
            } else {
                &node.right
            };
            let ghost near_dom = subtree_map(*near).dom();
            let ghost far_dom = subtree_map(*far).dom();
            proof {
                assert(node.as_map().dom() == near_dom.union(far_dom).insert(node.median));
                assert(near_dom.disjoint(far_dom));
                assert forall|p: Point| #[trigger] subtree_map(*near).contains_key(p) implies m.contains_key(p)
                    && m[p] == subtree_map(*near)[p] by {
                    assert(node.as_map().contains_key(p));
                }
                assert forall|p: Point| #[trigger] subtree_map(*far).contains_key(p) implies m.contains_key(p)
                    && m[p] == subtree_map(*far)[p] by {
                    assert(node.as_map().contains_key(p));
                }
            }
            let a = point.axis_value(node.axis);
            let b = node.median.axis_value(node.axis);
            let gap: u128 = if a >= b {
                (a - b) as u128
            } else {
                (b - a) as u128
            };
            proof {
                assert(gap * gap == (a - b) * (a - b)) by (nonlinear_arith)
                    requires
                        gap == a - b || gap == b - a,
                ;
                assert(gap * gap <= 0xffff_ffffu128 * 0xffff_ffffu128) by (nonlinear_arith)
                    requires
                        gap <= 0xffff_ffffu128,
                ;
            }
            let gap2 = gap * gap;
            if let Some(f) = far {
                let reachable = if kept.is_full() {
                    match kept.peek_max() {
                        Some(worst) => gap2 <= worst,
                        None => true,
                    }
                } else {
                    true
                };
                if reachable {
                    nodes.push(&**f);
                    proof {
                        assert(nodes@.drop_last() == rest);
                        assert(within(**f, m));
                        assert(stack_points(rest).disjoint(far_dom));
                        assert(stack_disjoint(nodes@));
                    }
                } else {
                    proof {
                        assert forall|p: Point| #[trigger]
                            far_dom.contains(p) implies sq_dist(p, point) > kept@.last().0 by {
                            lemma_far_side(*node, point, p);
                        }
                        assert(kept@.len() == k);
                        assert forall|p: Point|
                            (visited.contains(p) || pruned.union(far_dom).contains(p))
                                && !kept_points(kept@).contains(p) implies kept@.len() == k
                            && sq_dist(p, point) >= kept@.last().0 by {
                            if !far_dom.contains(p) {
                                assert(visited.contains(p) || pruned.contains(p));
                            }
                        }
                        pruned = pruned.union(far_dom);
                    }
                }
            }
            let ghost mid = nodes@;
            proof {
                assert(stack_points(mid) == stack_points(rest) || stack_points(mid)
                    == stack_points(rest).union(far_dom));
                assert(stack_points(mid) == stack_points(rest) ==> pruned.union(stack_points(mid))
                    == pruned.union(stack_points(rest)).union(far_dom));
            }
            if let Some(nn) = near {
                nodes.push(&**nn);
                proof {
                    assert(nodes@.drop_last() == mid);
                    assert(within(**nn, m));
                    assert(stack_points(mid).disjoint(near_dom));
                    assert(stack_disjoint(nodes@));
                }
            }
            proof {
                assert(stack_points(nodes@) == stack_points(mid).union(near_dom));
                assert(m.dom() =~= visited.union(pruned).union(stack_points(nodes@)));
                vstd::set_lib::lemma_len_subset(visited, m.dom());
            }
        }
        let sorted = kept.into_sorted_vec();
        let mut r: Vec<(&Point, &V)> = Vec::new();
        let mut i: usize = 0;
        while i < sorted.len()
            invariant
                i <= sorted@.len(),
                r@.len() == i,
                forall|j: int|
                    0 <= j < i ==> *(#[trigger] r@[j]).0 == sorted@[j].1.median && *r@[j].1
                        == sorted@[j].1.value,
            decreases sorted@.len() - i,
        {
            let nd: &Node<V> = sorted[i].1;
            r.push((&nd.median, &nd.value));
            i = i + 1;
        }
        proof {
            let ks = sorted@;
            assert(stack_points(nodes@) == Set::<Point>::empty());
            assert(m.dom() =~= visited.union(pruned));
            lemma_kept_points_len(ks);
            assert forall|p: Point| kept_points(ks).contains(p) implies visited.contains(p) by {
                let j = choose|j: int| 0 <= j < ks.len() && ks[j].1.median == p;
                assert(ks[j].0 == sq_dist(ks[j].1.median, point));
            }
            if ks.len() < k {
                assert(m.dom() =~= kept_points(ks));
            } else {
                vstd::set_lib::lemma_len_subset(kept_points(ks), m.dom());
            }
            assert forall|j: int| 0 <= j < r@.len() implies m.contains_key(*(#[trigger] r@[j]).0)
                && m[*r@[j].0] == *r@[j].1 by {
                assert(ks[j].0 == sq_dist(ks[j].1.median, point));
            }
            assert forall|a: int, b: int| 0 <= a < b < r@.len() implies sq_dist(
                *(#[trigger] r@[a]).0,
                point,
            ) <= sq_dist(*(#[trigger] r@[b]).0, point) by {
                assert(ks[a].0 == sq_dist(ks[a].1.median, point));
                assert(ks[b].0 == sq_dist(ks[b].1.median, point));
                assert(ks[a].0 <= ks[b].0);
            }
            assert forall|p: Point, i: int|
                m.contains_key(p) && (forall|j: int| 0 <= j < r@.len() ==> *r@[j].0 != p) && 0 <= i
                    < r@.len() implies sq_dist(p, point) >= sq_dist(*r@[i].0, point) by {
                if kept_points(ks).contains(p) {
                    let j = choose|j: int| 0 <= j < ks.len() && ks[j].1.median == p;
                    assert(*r@[j].0 == p);
                }
                assert(visited.contains(p) || pruned.contains(p));
                assert(ks[i].0 == sq_dist(ks[i].1.median, point));
                assert(ks[i].0 <= ks.last().0);
            }
        }
        r
    }
}

} // verus!
