//! The successive subdivisions of a Sierpinski triangle.

use vstd::prelude::*;

use crate::point::Point;

verus! {

/// A triangle given by its top, left and right corners.
pub type SierpinskiTriangle = (Point, Point, Point);

/// The three corner triangles that a triangle is divided into: the top one,
/// the left one and the right one. Only the top and left corners are read:
/// the midpoints are placed symmetrically about the top corner.
pub open spec fn subdivide(t: SierpinskiTriangle) -> Seq<SierpinskiTriangle> {
    let (top, left, right) = t;
    let h = (top.x - left.x) / 2;
    let mid_left = Point { x: (top.x - h) as u32, y: (top.y + (left.y - top.y) / 2) as u32 };
    let mid_right = Point { x: (top.x + h) as u32, y: mid_left.y };
    let mid_bottom = Point { x: top.x, y: left.y };
    seq![(top, mid_left, mid_right), (mid_left, left, mid_bottom), (mid_right, mid_bottom, right)]
}

/// The subdivisions of all the triangles of `s`, in order.
pub open spec fn subdivide_all(s: Seq<SierpinskiTriangle>) -> Seq<SierpinskiTriangle>
    decreases s.len(),
{
    if s.len() == 0 {
        Seq::empty()
    } else {
        subdivide_all(s.drop_last()) + subdivide(s.last())
    }
}

/// Whether a triangle can be subdivided without leaving the range of `u32`:
/// its top is at or right of its left corner and at or above it, and mirroring
/// the left corner about the top stays in range.
pub open spec fn divisible(t: SierpinskiTriangle) -> bool {
    let (top, left, _right) = t;
    left.x <= top.x && top.y <= left.y && top.x + (top.x - left.x) <= u32::MAX
}

/// Iterator over the iterations of a Sierpinski triangle.
pub struct SierpinskiIter {
    triangles: Vec<SierpinskiTriangle>,
}

impl View for SierpinskiIter {
    type V = Seq<SierpinskiTriangle>;

    closed spec fn view(&self) -> Seq<SierpinskiTriangle> {
        self.triangles@
    }
}

impl SierpinskiIter {
    /// Every triangle can be subdivided.
    pub open spec fn wf(&self) -> bool {
        forall|i: int| 0 <= i < self@.len() ==> divisible(#[trigger] self@[i])
    }

    /// Start from the triangle with its top at the middle of the upper edge
    /// of a `width` by `height` box at the origin and its base on the lower
    /// edge.
    pub fn new(width: u32, height: u32) -> (r: SierpinskiIter)
        requires
            width > 0,
            height > 0,
        ensures
            r.wf(),
            r@ == seq![
                (
                    Point { x: width / 2, y: 0 },
                    Point { x: 0, y: (height - 1) as u32 },
                    Point { x: (width - 1) as u32, y: (height - 1) as u32 },
                ),
            ],
    {
        let initial: SierpinskiTriangle = (
            Point::new(width / 2, 0),
            Point::new(0, height - 1),
            Point::new(width - 1, height - 1),
        );
        let mut triangles = Vec::new();
        triangles.push(initial);
        let r = SierpinskiIter { triangles };
        assert(r@ =~= seq![initial]);
        r
    }

    /// The current iteration; the iterator moves on to the next one, where
    /// each triangle is replaced by its three corner triangles.
    pub fn next(&mut self) -> (r: Option<Vec<SierpinskiTriangle>>)
        requires
            old(self).wf(),
        ensures
            final(self).wf(),
            r.is_some(),
            r.unwrap()@ == old(self)@,
            final(self)@ == subdivide_all(old(self)@),
    {
        let mut next: Vec<SierpinskiTriangle> = Vec::new();
        let mut i: usize = 0;
        while i < self.triangles.len()
            invariant
                i <= self@.len(),
                self@ == old(self)@,
                self.wf(),
                next@ == subdivide_all(self@.take(i as int)),
                forall|j: int| 0 <= j < next@.len() ==> divisible(#[trigger] next@[j]),
            decreases self@.len() - i,
        {
            let (top, left, right) = self.triangles[i];
            proof {
                assert(divisible(self@[i as int]));
            }
            let h = (top.x - left.x) / 2;
            let mid_left = Point::new(top.x - h, top.y + (left.y - top.y) / 2);
            let mid_right = Point::new(top.x + h, mid_left.y);
            let mid_bottom = Point::new(top.x, left.y);
            let ghost before = next@;
            next.push((top, mid_left, mid_right));
            next.push((mid_left, left, mid_bottom));
            next.push((mid_right, mid_bottom, right));
            proof {
                let t = self@[i as int];
                assert(self@.take(i + 1).drop_last() =~= self@.take(i as int));
                assert(next@ =~= before + subdivide(t));
            }
            i = i + 1;
        }
        proof {
            assert(self@.take(i as int) =~= self@);
        }
        let mut out = next;
        core::mem::swap(&mut self.triangles, &mut out);
        Some(out)
    }
}

} // verus!
