//! Half-open address intervals.
use vstd::prelude::*;

verus! {

/// The interval `[start, start + len)`.
#[derive(Clone, Copy, Debug, Default, PartialEq, Eq, Structural)]
pub struct Range {
    pub start: u64,
    pub len: u64,
}

impl Range {
    /// One past the last address, as a mathematical integer.
    pub open spec fn end(self) -> int {
        self.start + self.len
    }

    /// The end of the interval fits in 64 bits.
    pub open spec fn wf(self) -> bool {
        self.start + self.len <= u64::MAX
    }

    pub open spec fn contains(self, x: int) -> bool {
        self.start <= x < self.end()
    }

    pub open spec fn overlaps(self, r: Range) -> bool {
        self.start < r.end() && r.start < self.end()
    }

    pub open spec fn is_superset_of(self, r: Range) -> bool {
        self.start <= r.start && r.end() <= self.end()
    }

    pub fn New(start: u64, len: u64) -> (r: Self)
        ensures
            r == (Range { start, len }),
    {
        Range { start, len }
    }

    pub fn Start(&self) -> (r: u64)
        ensures
            r == self.start,
    {
        self.start
    }

    pub fn Len(&self) -> (r: u64)
        ensures
            r == self.len,
    {
        self.len
    }

    pub fn End(&self) -> (r: u64)
        requires
            self.wf(),
        ensures
            r == self.end(),
    {
        self.start + self.len
    }

    pub fn Contains(&self, x: u64) -> (r: bool)
        requires
            self.wf(),
        ensures
            r == self.contains(x as int),
    {
        self.start <= x && x < self.start + self.len
    }

    pub fn Overlaps(&self, r: &Range) -> (b: bool)
        requires
            self.wf(),
            r.wf(),
        ensures
            b == self.overlaps(*r),
    {
        self.start < r.start + r.len && r.start < self.start + self.len
    }

    pub fn IsSupersetOf(&self, r: &Range) -> (b: bool)
        requires
            self.wf(),
            r.wf(),
        ensures
            b == self.is_superset_of(*r),
    {
        self.start <= r.start && r.start + r.len <= self.start + self.len
    }

    /// The common part of two intervals; empty, at the later start, when
    /// they do not meet.
    pub fn Intersect(&self, r: &Range) -> (res: Range)
        requires
            self.wf(),
            r.wf(),
        ensures
            res.wf(),
            forall|x: int| res.contains(x) <==> (self.contains(x) && r.contains(x)),
            res.start == if self.start >= r.start { self.start } else { r.start },
            res.len > 0 <==> (self.overlaps(*r) && self.len > 0 && r.len > 0),
    {
        let start = if self.start >= r.start { self.start } else { r.start };
        let e1 = self.start + self.len;
        let e2 = r.start + r.len;
        let end = if e1 <= e2 { e1 } else { e2 };
        if end <= start {
            Range { start, len: 0 }
        } else {
            Range { start, len: end - start }
        }
    }
}

} // verus!
