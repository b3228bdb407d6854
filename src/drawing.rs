//! The points of a straight line between two pixels, by Bresenham's algorithm.

use vstd::prelude::*;

use crate::point::Point;

verus! {

/// The state of a line walk, as integers. The walk runs along the "long" axis
/// (x, or y for a steep line, whose coordinates are then swapped).
pub struct LineView {
    pub x: int,
    pub y: int,
    pub end: Point,
    pub is_steep: bool,
    pub d: int,
    pub dx: int,
    pub dy: int,
    pub xstep: int,
    pub ystep: int,
}

/// The state that the walk from `start` to `end` begins in.
pub open spec fn line_start(start: Point, end: Point) -> LineView {
    let adx = if end.x >= start.x { end.x - start.x } else { start.x - end.x };
    let ady = if end.y >= start.y { end.y - start.y } else { start.y - end.y };
    let steep = adx < ady;
    let (s, e) = if steep {
        (Point { x: start.y, y: start.x }, Point { x: end.y, y: end.x })
    } else {
        (start, end)
    };
    let (dx, dy) = if steep { (ady, adx) } else { (adx, ady) };
    LineView {
        x: s.x as int,
        y: s.y as int,
        end: e,
        is_steep: steep,
        d: 2 * dy - dx,
        dx: dx as int,
        dy: dy as int,
        xstep: if s.x > e.x { -1 } else { 1 },
        ystep: if s.y > e.y { -1 } else { 1 },
    }
}

/// Whether the walk has gone past its end, or off the non-negative quarter plane.
pub open spec fn line_done(v: LineView) -> bool {
    (v.x > v.end.x && v.xstep > 0) || (v.x < v.end.x && v.xstep < 0) || v.x < 0 || v.y < 0
}

/// The state after one step of the walk.
pub open spec fn line_step(v: LineView) -> LineView {
    let (y, d) = if v.d > 0 { (v.y + v.ystep, v.d - 2 * v.dx) } else { (v.y, v.d) };
    LineView { x: v.x + v.xstep, y, d: d + 2 * v.dy, ..v }
}

/// The point that the walk is at, with its coordinates swapped back for a
/// steep line.
pub open spec fn line_point(v: LineView) -> Point {
    if v.is_steep {
        Point { x: v.y as u32, y: v.x as u32 }
    } else {
        Point { x: v.x as u32, y: v.y as u32 }
    }
}

/// How many steps the walk can still take before it passes its end.
pub open spec fn line_measure(v: LineView) -> int {
    if v.xstep == 1 {
        v.end.x + 1 - v.x
    } else {
        v.x - v.end.x + 1
    }
}

/// The points that the walk visits from state `v` on, in order.
pub open spec fn line_walk(v: LineView) -> Seq<Point>
    decreases line_measure(v),
{
    if line_done(v) || (v.xstep != 1 && v.xstep != -1) {
        Seq::empty()
    } else {
        seq![line_point(v)] + line_walk(line_step(v))
    }
}

/// Iterator over the points of the line from a start to an end point, both
/// included, in order from the start.
pub struct BresenhamLineIter {
    start_x: i64,
    start_y: i64,
    end: Point,
    is_steep: bool,
    d: i64,
    dx: i64,
    dy: i64,
    xstep: i64,
    ystep: i64,
    x0: Ghost<int>,
    y0: Ghost<int>,
}

impl View for BresenhamLineIter {
    type V = LineView;

    closed spec fn view(&self) -> LineView {
        LineView {
            x: self.start_x as int,
            y: self.start_y as int,
            end: self.end,
            is_steep: self.is_steep,
            d: self.d as int,
            dx: self.dx as int,
            dy: self.dy as int,
            xstep: self.xstep as int,
            ystep: self.ystep as int,
        }
    }
}

impl BresenhamLineIter {
    /// The bounds that keep every step free of overflow: the error term stays
    /// within its range and the walk has not gone further than one step past
    /// its end.
    pub closed spec fn wf(&self) -> bool {
        let v = self@;
        let x0 = self.x0@;
        let y0 = self.y0@;
        &&& 0 <= v.dy <= v.dx <= 0xffff_ffff
        &&& v.xstep == 1 || v.xstep == -1
        &&& v.ystep == 1 || v.ystep == -1
        &&& 2 * v.dy - 2 * v.dx <= v.d <= 2 * v.dy
        &&& 0 <= x0 <= 0xffff_ffff
        &&& 0 <= y0 <= 0xffff_ffff
        &&& v.xstep == 1 ==> x0 <= v.x <= v.end.x + 1
        &&& v.xstep == -1 ==> v.end.x - 1 <= v.x <= x0
        &&& (if v.xstep == 1 { v.end.x - x0 } else { x0 - v.end.x }) <= v.dx
        &&& (if v.y >= y0 { v.y - y0 } else { y0 - v.y }) <= (if v.x >= x0 { v.x - x0 } else { x0 - v.x })
    }

    /// How many more steps the walk can take.
    pub closed spec fn remaining(&self) -> int {
        if self.xstep == 1 { self.end.x + 1 - self.start_x } else { self.start_x - self.end.x + 1 }
    }

    /// Creates a walk over all points between `start` and `end`, both included.
    pub fn new(start: Point, end: Point) -> (r: BresenhamLineIter)
        ensures
            r.wf(),
            r@ == line_start(start, end),
    {
        let adx: i64 = if end.x >= start.x { (end.x - start.x) as i64 } else { (start.x - end.x) as i64 };
        let ady: i64 = if end.y >= start.y { (end.y - start.y) as i64 } else { (start.y - end.y) as i64 };
        let is_steep = adx < ady;
        let (s, e, dx, dy) = if is_steep {
            (Point { x: start.y, y: start.x }, Point { x: end.y, y: end.x }, ady, adx)
        } else {
            (start, end, adx, ady)
        };
        let xstep: i64 = if s.x > e.x { -1 } else { 1 };
        let ystep: i64 = if s.y > e.y { -1 } else { 1 };
        BresenhamLineIter {
            start_x: s.x as i64,
            start_y: s.y as i64,
            end: e,
            is_steep,
            d: 2 * dy - dx,
            dx,
            dy,
            xstep,
            ystep,
            x0: Ghost(s.x as int),
            y0: Ghost(s.y as int),
        }
    }

    /// The point the walk is at, before it takes one step along the long
    /// axis; `None` once the walk has gone past its end.
    fn next_non_steep_point(&mut self) -> (r: Option<Point>)
        requires
            old(self).wf(),
        ensures
            final(self).wf(),
            line_done(old(self)@) ==> r.is_none() && final(self)@ == old(self)@,
            !line_done(old(self)@) ==> r == Some(Point { x: old(self)@.x as u32, y: old(self)@.y as u32 })
                && final(self)@ == line_step(old(self)@) && final(self).remaining() == old(self).remaining() - 1,
            final(self).remaining() >= 0,
    {
        if (self.start_x > self.end.x as i64 && self.xstep > 0) || (self.start_x
            < self.end.x as i64 && self.xstep < 0) {
            return None;
        }
        if self.start_x < 0 || self.start_y < 0 {
            return None;
        }
        let old = Point { x: self.start_x as u32, y: self.start_y as u32 };
        if self.d > 0 {
            self.start_y = self.start_y + self.ystep;
            self.d = self.d - 2 * self.dx;
        }
        self.d = self.d + 2 * self.dy;
        self.start_x = self.start_x + self.xstep;
        Some(old)
    }

    /// The next point of the line, `None` once its end has been passed.
    pub fn next(&mut self) -> (r: Option<Point>)
        requires
            old(self).wf(),
        ensures
            final(self).wf(),
            line_done(old(self)@) ==> r.is_none() && final(self)@ == old(self)@,
            !line_done(old(self)@) ==> r == Some(line_point(old(self)@)) && final(self)@ == line_step(
                old(self)@,
            ),
            r.is_some() ==> final(self).remaining() == old(self).remaining() - 1,
            final(self).remaining() >= 0,
    {
        match self.next_non_steep_point() {
            None => None,
            Some(p) => {
                if self.is_steep {
                    Some(Point { x: p.y, y: p.x })
                } else {
                    Some(p)
                }
            },
        }
    }

    /// All the remaining points of the line, in order.
    pub fn points(self) -> (r: Vec<Point>)
        requires
            self.wf(),
        ensures
            r@ == line_walk(self@),
    {
        let ghost whole = line_walk(self@);
        let mut it = self;
        let mut r: Vec<Point> = Vec::new();
        loop
            invariant
                it.wf(),
                it.remaining() >= 0,
                r@ + line_walk(it@) == whole,
                whole == line_walk(self@),
            decreases it.remaining(),
        {
            let ghost before = it@;
            match it.next() {
                None => {
                    assert(r@ + line_walk(before) =~= r@);
                    return r;
                },
                Some(p) => {
                    r.push(p);
                    assert(line_walk(before) == seq![p] + line_walk(it@));
                    assert(r@ + line_walk(it@) =~= whole);
                },
            }
        }
    }
}

} // verus!
