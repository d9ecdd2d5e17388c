//! Line segments between two points, over any point type.

use vstd::prelude::*;

use crate::exact::{point_equiv, point_sub_spec, ExactPoint3};

verus! {

/// A line segment defined by its start and end points.
pub struct LineSeg<P> {
    pub start: P,
    pub end: P,
}

impl<P: Copy> LineSeg<P> {
    /// The segment from `start` to `end`.
    pub fn new(start: P, end: P) -> (s: Self)
        ensures
            s.start == start,
            s.end == end,
    {
        LineSeg { start, end }
    }

    /// The same segment traversed the other way.
    pub fn reverse(&self) -> (r: Self)
        ensures
            r.start == self.end,
            r.end == self.start,
    {
        LineSeg::new(self.end, self.start)
    }
}

impl LineSeg<ExactPoint3> {
    /// The same exact segment traversed the other way.
    pub fn reverse(&self) -> (r: Self)
        ensures
            r.start.view() == self.end.view(),
            r.end.view() == self.start.view(),
            r.start.wf() == self.end.wf(),
            r.end.wf() == self.start.wf(),
    {
        LineSeg { start: self.end.copy(), end: self.start.copy() }
    }

    /// The vector from the start to the end, `end - start`.
    pub fn direction(&self) -> (d: ExactPoint3)
        requires
            self.start.wf(),
            self.end.wf(),
        ensures
            d.wf(),
            point_equiv(d.view(), point_sub_spec(self.end.view(), self.start.view())),
    {
        self.end.sub(&self.start)
    }
}

} // verus!
