//! The set of virtual memory areas of one address space: disjoint
//! intervals kept in address order, each with its metadata.
use vstd::prelude::*;
use crate::range::Range;
use crate::vma::{AccessType, VMA};

verus! {

/// One segment of the set: an interval and the area that occupies it.
#[derive(Clone, Copy, Debug, PartialEq, Eq)]
pub struct AreaEntry {
    pub range: Range,
    pub vma: VMA,
}

impl AreaEntry {
    /// The interval is not empty and ends inside the address space, the
    /// area's rights do not exceed its largest rights, and a file mapping's
    /// last offset fits in 64 bits.
    pub open spec fn ok(self) -> bool {
        &&& self.range.len > 0
        &&& self.range.wf()
        &&& self.vma.perms_ok()
        &&& self.vma.mappable.is_some() ==> self.vma.offset + self.range.len <= u64::MAX
    }

    /// The part of the segment from `lo` to `hi`, with its file offset
    /// moved along.
    pub open spec fn part(self, lo: int, hi: int) -> AreaEntry {
        AreaEntry {
            range: Range { start: lo as u64, len: (hi - lo) as u64 },
            vma: self.vma.shifted(lo - self.range.start),
        }
    }

    /// Where an isolation by `r` starts the middle piece.
    pub open spec fn cut_lo(self, r: Range) -> int {
        if self.range.start < r.start && r.start < self.range.end() {
            r.start as int
        } else {
            self.range.start as int
        }
    }

    /// Where an isolation by `r` ends the middle piece.
    pub open spec fn cut_hi(self, r: Range) -> int {
        if self.cut_lo(r) < r.end() && r.end() < self.range.end() {
            r.end()
        } else {
            self.range.end()
        }
    }

    /// The pieces that an isolation by `r` leaves of the segment, in
    /// address order: what lies below `r`, the middle, what lies above.
    pub open spec fn pieces(self, r: Range) -> Seq<AreaEntry> {
        let lo = self.cut_lo(r);
        let hi = self.cut_hi(r);
        let left = if self.range.start < lo {
            seq![self.part(self.range.start as int, lo)]
        } else {
            Seq::<AreaEntry>::empty()
        };
        let right = if hi < self.range.end() {
            seq![self.part(hi, self.range.end())]
        } else {
            Seq::<AreaEntry>::empty()
        };
        left + seq![self.part(lo, hi)] + right
    }
}

/// A position at a segment of a set, or past its last segment.
#[derive(Clone, Copy, Debug, PartialEq, Eq)]
pub struct AreaSeg {
    pub ok: bool,
    pub index: usize,
    pub range: Range,
    pub value: VMA,
}

impl AreaSeg {
    pub fn IsOk(&self) -> (r: bool)
        ensures
            r == self.ok,
    {
        self.ok
    }

    pub fn IsTail(&self) -> (r: bool)
        ensures
            r == !self.ok,
    {
        !self.ok
    }

    pub fn Range(&self) -> (r: Range)
        ensures
            r == self.range,
    {
        self.range
    }

    pub fn Value(&self) -> (r: VMA)
        ensures
            r == self.value,
    {
        self.value
    }

    /// The segment as an entry of the set.
    pub open spec fn entry(self) -> AreaEntry {
        AreaEntry { range: self.range, vma: self.value }
    }
}

/// A position between two segments of a set.
#[derive(Clone, Copy, Debug, PartialEq, Eq)]
pub struct AreaGap {
    pub ok: bool,
    pub index: usize,
    pub range: Range,
}

impl AreaGap {
    pub fn IsOk(&self) -> (r: bool)
        ensures
            r == self.ok,
    {
        self.ok
    }

    pub fn Range(&self) -> (r: Range)
        ensures
            r == self.range,
    {
        self.range
    }
}

/// The length that a segment adds to the address-space usage: kernel areas
/// are not counted.
pub open spec fn user_len(e: AreaEntry) -> int {
    if e.vma.kernel {
        0
    } else {
        e.range.len as int
    }
}

/// The length that a segment maps of the backing object `m`.
pub open spec fn file_len(e: AreaEntry, m: u64) -> int {
    if e.vma.mappable == Some(m) {
        e.range.len as int
    } else {
        0
    }
}

/// The whole length of a segment.
pub open spec fn seg_len(e: AreaEntry) -> int {
    e.range.len as int
}

/// What a segment adds to the usage, as a function.
pub open spec fn user_weight() -> spec_fn(AreaEntry) -> int {
    |e: AreaEntry| user_len(e)
}

/// What a segment maps of the object `m`, as a function.
pub open spec fn file_weight(m: u64) -> spec_fn(AreaEntry) -> int {
    |e: AreaEntry| file_len(e, m)
}

/// The length of a segment, as a function.
pub open spec fn len_weight() -> spec_fn(AreaEntry) -> int {
    |e: AreaEntry| seg_len(e)
}

/// Sum of `f` over the segments.
pub open spec fn sum_by(segs: Seq<AreaEntry>, f: spec_fn(AreaEntry) -> int) -> int
    decreases segs.len(),
{
    if segs.len() == 0 {
        0
    } else {
        sum_by(segs.drop_last(), f) + f(segs.last())
    }
}

/// The sum over a concatenation is the sum of the sums.
pub proof fn lemma_sum_concat(a: Seq<AreaEntry>, b: Seq<AreaEntry>, f: spec_fn(AreaEntry) -> int)
    ensures
        sum_by(a + b, f) == sum_by(a, f) + sum_by(b, f),
    decreases b.len(),
{
    if b.len() == 0 {
        assert(a + b =~= a);
    } else {
        lemma_sum_concat(a, b.drop_last(), f);
        assert((a + b).drop_last() =~= a + b.drop_last());
        assert((a + b).last() == b.last());
    }
}

pub proof fn lemma_sum_one(e: AreaEntry, f: spec_fn(AreaEntry) -> int)
    ensures
        sum_by(seq![e], f) == f(e),
{
    assert(seq![e].drop_last() =~= Seq::<AreaEntry>::empty());
    assert(sum_by(seq![e].drop_last(), f) == 0);
    assert(seq![e].last() == e);
}

/// Inserting a segment adds its value to the sum.
pub proof fn lemma_sum_insert(
    segs: Seq<AreaEntry>,
    i: int,
    e: AreaEntry,
    f: spec_fn(AreaEntry) -> int,
)
    requires
        0 <= i <= segs.len(),
    ensures
        sum_by(segs.insert(i, e), f) == sum_by(segs, f) + f(e),
{
    let a = segs.take(i);
    let b = segs.skip(i);
    assert(segs =~= a + b);
    assert(segs.insert(i, e) =~= (a + seq![e]) + b);
    lemma_sum_concat(a, b, f);
    lemma_sum_concat(a + seq![e], b, f);
    lemma_sum_concat(a, seq![e], f);
    lemma_sum_one(e, f);
}

/// Removing a segment takes its value from the sum.
pub proof fn lemma_sum_remove(segs: Seq<AreaEntry>, i: int, f: spec_fn(AreaEntry) -> int)
    requires
        0 <= i < segs.len(),
    ensures
        sum_by(segs.remove(i), f) == sum_by(segs, f) - f(segs[i]),
{
    let r = segs.remove(i);
    assert(r.insert(i, segs[i]) =~= segs);
    lemma_sum_insert(r, i, segs[i], f);
}

/// Replacing one segment by a run of segments changes the sum by the
/// difference of their values.
pub proof fn lemma_sum_replace(
    segs: Seq<AreaEntry>,
    i: int,
    run: Seq<AreaEntry>,
    f: spec_fn(AreaEntry) -> int,
)
    requires
        0 <= i < segs.len(),
    ensures
        sum_by(segs.take(i) + run + segs.skip(i + 1), f) == sum_by(segs, f) - f(segs[i]) + sum_by(
            run,
            f,
        ),
{
    let a = segs.take(i);
    let b = segs.skip(i + 1);
    assert(segs.remove(i) =~= a + b);
    lemma_sum_remove(segs, i, f);
    lemma_sum_concat(a, b, f);
    lemma_sum_concat(a + run, b, f);
    lemma_sum_concat(a, run, f);
}

/// The segments lie in address order and none meets another.
pub open spec fn sorted(segs: Seq<AreaEntry>) -> bool {
    forall|i: int, j: int|
        #![trigger segs[i], segs[j]]
        0 <= i < j < segs.len() ==> segs[i].range.end() <= segs[j].range.start
}

/// The set of areas of one address space.
pub struct AreaSet {
    /// The addresses that the set ranges over.
    pub range: Range,
    pub segs: Vec<AreaEntry>,
}

impl AreaSet {
    /// The set's invariant: every segment is well formed and inside the
    /// domain, and the segments are disjoint and sorted.
    pub open spec fn wf(&self) -> bool {
        &&& self.range.wf()
        &&& forall|i: int|
            0 <= i < self.segs@.len() ==> {
                &&& (#[trigger] self.segs@[i]).ok()
                &&& self.range.is_superset_of(self.segs@[i].range)
            }
        &&& sorted(self.segs@)
    }

    /// Some segment holds `addr`.
    pub open spec fn covers(&self, addr: int) -> bool {
        exists|i: int| 0 <= i < self.segs@.len() && (#[trigger] self.segs@[i]).range.contains(addr)
    }

    /// The segment that holds `addr`, if there is one.
    pub open spec fn area_at(&self, addr: int) -> Option<AreaEntry> {
        if self.covers(addr) {
            Some(
                self.segs@[choose|i: int|
                    0 <= i < self.segs@.len() && (#[trigger] self.segs@[i]).range.contains(addr)],
            )
        } else {
            None
        }
    }

    /// At most one segment holds an address.
    pub proof fn lemma_area_at(&self, addr: int, i: int)
        requires
            self.wf(),
            0 <= i < self.segs@.len(),
            self.segs@[i].range.contains(addr),
        ensures
            self.area_at(addr) == Some(self.segs@[i]),
    {
        let k = choose|k: int|
            0 <= k < self.segs@.len() && (#[trigger] self.segs@[k]).range.contains(addr);
        if k < i {
            assert(self.segs@[k].range.end() <= self.segs@[i].range.start);
        }
        if i < k {
            assert(self.segs@[i].range.end() <= self.segs@[k].range.start);
        }
    }

    /// The position at segment `i`.
    pub open spec fn seg_at(&self, i: int) -> AreaSeg {
        AreaSeg { ok: true, index: i as usize, range: self.segs@[i].range, value: self.segs@[i].vma }
    }

    /// `seg` is a position at a segment of this set.
    pub open spec fn valid_seg(&self, seg: AreaSeg) -> bool {
        &&& seg.ok
        &&& seg.index < self.segs@.len()
        &&& seg == self.seg_at(seg.index as int)
    }

    /// The interval between segment `i - 1` (or the start of the domain)
    /// and segment `i` (or the end of the domain).
    pub open spec fn gap_range(&self, i: int) -> Range {
        let lo = if i == 0 {
            self.range.start as int
        } else {
            self.segs@[i - 1].range.end()
        };
        let hi = if i == self.segs@.len() {
            self.range.end()
        } else {
            self.segs@[i].range.start as int
        };
        Range { start: lo as u64, len: (hi - lo) as u64 }
    }

    /// `gap` is a position between two segments of this set.
    pub open spec fn valid_gap(&self, gap: AreaGap) -> bool {
        &&& gap.ok
        &&& gap.index <= self.segs@.len()
        &&& gap.range == self.gap_range(gap.index as int)
    }

    /// Address-space usage: the total length of the areas that are not the
    /// kernel's.
    pub open spec fn span(&self) -> int {
        sum_by(self.segs@, user_weight())
    }

    /// Total length of the areas backed by the object `m`.
    pub open spec fn file_span(&self, m: u64) -> int {
        sum_by(self.segs@, file_weight(m))
    }

    /// An empty set over `[start, start + len)`.
    pub fn New(start: u64, len: u64) -> (r: Self)
        ensures
            r.range == (Range { start, len }),
            r.segs@.len() == 0,
            r.range.wf() ==> r.wf(),
    {
        AreaSet { range: Range { start, len }, segs: Vec::new() }
    }

    /// Empties the set and gives it a new domain.
    pub fn Reset(&mut self, start: u64, len: u64)
        ensures
            final(self).range == (Range { start, len }),
            final(self).segs@.len() == 0,
            final(self).range.wf() ==> final(self).wf(),
    {
        self.range = Range { start, len };
        self.segs = Vec::new();
    }

    pub fn IsEmpty(&self) -> (r: bool)
        ensures
            r == (self.segs@.len() == 0),
    {
        self.segs.len() == 0
    }

    /// Number of segments.
    pub fn Count(&self) -> (r: usize)
        ensures
            r == self.segs@.len(),
    {
        self.segs.len()
    }

    /// The position past the last segment: it is at no segment, and stands
    /// for the empty interval at 0 with an anonymous area without rights.
    pub open spec fn tail_seg() -> AreaSeg {
        AreaSeg {
            ok: false,
            index: 0,
            range: Range { start: 0, len: 0 },
            value: VMA {
                mappable: None,
                offset: 0,
                fixed: false,
                realPerms: AccessType { read: false, write: false, execute: false },
                effectivePerms: AccessType { read: false, write: false, execute: false },
                maxPerms: AccessType { read: true, write: true, execute: true },
                private: true,
                growsDown: false,
                kernel: false,
                hint: "",
                id: None,
            },
        }
    }

    /// The position past the last segment.
    fn tail() -> (r: AreaSeg)
        ensures
            r == Self::tail_seg(),
            !r.ok,
    {
        AreaSeg {
            ok: false,
            index: 0,
            range: Range { start: 0, len: 0 },
            value: VMA::Anonymous(AccessType::NoAccess(), ""),
        }
    }

    /// The position at segment `i`, or past the end when there is none.
    pub fn SegAt(&self, i: usize) -> (r: AreaSeg)
        ensures
            i < self.segs@.len() ==> r == self.seg_at(i as int) && self.valid_seg(r),
            i >= self.segs@.len() ==> !r.ok,
    {
        if i < self.segs.len() {
            let e = self.segs[i];
            AreaSeg { ok: true, index: i, range: e.range, value: e.vma }
        } else {
            Self::tail()
        }
    }

    /// The position between segments `i - 1` and `i`.
    pub fn GapAt(&self, i: usize) -> (r: AreaGap)
        requires
            self.wf(),
        ensures
            i <= self.segs@.len() ==> self.valid_gap(r) && r.index == i,
            i > self.segs@.len() ==> !r.ok,
            r.range.wf(),
    {
        if i > self.segs.len() {
            return AreaGap { ok: false, index: i, range: Range { start: 0, len: 0 } };
        }
        let lo = if i == 0 {
            self.range.start
        } else {
            self.segs[i - 1].range.End()
        };
        let hi = if i == self.segs.len() {
            self.range.End()
        } else {
            self.segs[i].range.start
        };
        proof {
            if 0 < i && i < self.segs.len() {
                assert(self.segs@[i - 1].range.end() <= self.segs@[i as int].range.start);
            }
            if 0 < i {
                assert(self.segs@[i - 1].ok());
            }
            if i < self.segs.len() {
                assert(self.segs@[i as int].ok());
            }
        }
        AreaGap { ok: true, index: i, range: Range { start: lo, len: hi - lo } }
    }

    pub fn FirstSeg(&self) -> (r: AreaSeg)
        ensures
            self.segs@.len() > 0 ==> r == self.seg_at(0) && self.valid_seg(r),
            self.segs@.len() == 0 ==> !r.ok,
    {
        self.SegAt(0)
    }

    pub fn FirstGap(&self) -> (r: AreaGap)
        requires
            self.wf(),
        ensures
            self.valid_gap(r),
            r.index == 0,
    {
        self.GapAt(0)
    }

    /// The segment after `seg`, or the tail after the last one.
    pub fn NextSeg(&self, seg: &AreaSeg) -> (r: AreaSeg)
        requires
            self.valid_seg(*seg),
        ensures
            seg.index + 1 < self.segs@.len() ==> r == self.seg_at(seg.index + 1) && self.valid_seg(
                r,
            ),
            seg.index + 1 >= self.segs@.len() ==> !r.ok,
    {
        let n = self.segs.len();
        assert(seg.index < n);
        self.SegAt(seg.index + 1)
    }

    /// The gap after `seg`.
    pub fn NextGap(&self, seg: &AreaSeg) -> (r: AreaGap)
        requires
            self.wf(),
            self.valid_seg(*seg),
        ensures
            self.valid_gap(r),
            r.index == seg.index + 1,
    {
        let n = self.segs.len();
        assert(seg.index < n);
        self.GapAt(seg.index + 1)
    }

    /// The segment after `gap`, or the tail when the gap is the last one.
    pub fn GapNextSeg(&self, gap: &AreaGap) -> (r: AreaSeg)
        requires
            self.valid_gap(*gap),
        ensures
            gap.index < self.segs@.len() ==> r == self.seg_at(gap.index as int) && self.valid_seg(
                r,
            ),
            gap.index >= self.segs@.len() ==> !r.ok,
    {
        self.SegAt(gap.index)
    }

    /// Index of the first segment that ends above `addr`.
    fn locate(&self, addr: u64) -> (i: usize)
        requires
            self.wf(),
        ensures
            i <= self.segs@.len(),
            forall|j: int| 0 <= j < i ==> (#[trigger] self.segs@[j]).range.end() <= addr,
            i < self.segs@.len() ==> addr < self.segs@[i as int].range.end(),
    {
        let mut i: usize = 0;
        while i < self.segs.len()
            invariant
                self.wf(),
                i <= self.segs@.len(),
                forall|j: int| 0 <= j < i ==> (#[trigger] self.segs@[j]).range.end() <= addr,
            decreases self.segs@.len() - i,
        {
            assert(self.segs@[i as int].ok());
            if addr < self.segs[i].range.End() {
                return i;
            }
            i = i + 1;
        }
        i
    }

    /// When a segment ends above `addr` and none before it does, only that
    /// segment can hold `addr`.
    proof fn lemma_locate(&self, addr: u64, i: int)
        requires
            self.wf(),
            0 <= i <= self.segs@.len(),
            forall|j: int| 0 <= j < i ==> (#[trigger] self.segs@[j]).range.end() <= addr,
            i < self.segs@.len() ==> addr < self.segs@[i].range.end(),
        ensures
            self.covers(addr as int) <==> (i < self.segs@.len() && self.segs@[i].range.contains(
                addr as int,
            )),
    {
        if self.covers(addr as int) {
            let k = choose|k: int|
                0 <= k < self.segs@.len() && (#[trigger] self.segs@[k]).range.contains(addr as int);
            if k < i {
                assert(self.segs@[k].range.end() <= addr);
            }
            if k > i {
                assert(self.segs@[i].range.end() <= self.segs@[k].range.start);
            }
            assert(k == i);
        }
    }

    /// The segment that holds `addr`, or the tail when no segment does.
    pub fn FindSeg(&self, addr: u64) -> (r: AreaSeg)
        requires
            self.wf(),
        ensures
            r.ok == self.covers(addr as int),
            r.ok ==> self.valid_seg(r) && r.range.contains(addr as int),
            r.ok ==> self.area_at(addr as int) == Some(r.entry()),
            !r.ok ==> self.area_at(addr as int).is_none(),
    {
        let i = self.locate(addr);
        proof {
            self.lemma_locate(addr, i as int);
        }
        if i < self.segs.len() && self.segs[i].range.start <= addr {
            proof {
                self.lemma_area_at(addr as int, i as int);
            }
            self.SegAt(i)
        } else {
            Self::tail()
        }
    }

    /// The gap that holds `addr`; not valid when a segment holds it or it
    /// lies outside the domain.
    pub fn FindGap(&self, addr: u64) -> (r: AreaGap)
        requires
            self.wf(),
        ensures
            r.ok == (self.range.contains(addr as int) && !self.covers(addr as int)),
            r.ok ==> self.valid_gap(r) && r.range.contains(addr as int),
            r.range.wf(),
    {
        let none = AreaGap { ok: false, index: 0, range: Range { start: 0, len: 0 } };
        if !self.range.Contains(addr) {
            return none;
        }
        let i = self.locate(addr);
        proof {
            self.lemma_locate(addr, i as int);
        }
        if i < self.segs.len() && self.segs[i].range.start <= addr {
            none
        } else {
            proof {
                if i > 0 {
                    assert(self.segs@[i - 1].range.end() <= addr);
                }
            }
            self.GapAt(i)
        }
    }

    /// The segment and the gap at `addr`: exactly one of the two is valid
    /// for an address of the domain.
    pub fn Find(&self, addr: u64) -> (r: (AreaSeg, AreaGap))
        requires
            self.wf(),
        ensures
            r.0.ok == self.covers(addr as int),
            r.0.ok ==> self.valid_seg(r.0) && r.0.range.contains(addr as int),
            r.1.ok == (self.range.contains(addr as int) && !self.covers(addr as int)),
            r.1.ok ==> self.valid_gap(r.1) && r.1.range.contains(addr as int),
    {
        (self.FindSeg(addr), self.FindGap(addr))
    }

    /// Puts a new segment into a gap that has room for it.
    pub fn Insert(&mut self, gap: &AreaGap, r: &Range, vma: VMA) -> (seg: AreaSeg)
        requires
            old(self).wf(),
            old(self).valid_gap(*gap),
            gap.range.is_superset_of(*r),
            (AreaEntry { range: *r, vma }).ok(),
        ensures
            final(self).wf(),
            final(self).range == old(self).range,
            final(self).segs@ == old(self).segs@.insert(
                gap.index as int,
                AreaEntry { range: *r, vma },
            ),
            final(self).valid_seg(seg),
            seg.index == gap.index,
            seg.entry() == (AreaEntry { range: *r, vma }),
    {
        let e = AreaEntry { range: *r, vma };
        let ghost before = self.segs@;
        let ghost k = gap.index as int;
        self.segs.insert(gap.index, e);
        proof {
            let after = self.segs@;
            assert forall|i: int| 0 <= i < after.len() implies {
                &&& (#[trigger] after[i]).ok()
                &&& self.range.is_superset_of(after[i].range)
            } by {
                if i < k {
                    assert(after[i] == before[i]);
                } else if i > k {
                    assert(after[i] == before[i - 1]);
                }
            }
            assert forall|i: int, j: int|
                #![trigger after[i], after[j]]
                0 <= i < j < after.len() implies after[i].range.end() <= after[j].range.start by {
                let oi = if i < k { i } else { i - 1 };
                let oj = if j < k { j } else { j - 1 };
                if i != k && j != k {
                    assert(after[i] == before[oi]);
                    assert(after[j] == before[oj]);
                    assert(before[oi].range.end() <= before[oj].range.start);
                } else if i == k {
                    assert(after[j] == before[j - 1]);
                    if j - 1 > k {
                        assert(before[k].range.end() <= before[j - 1].range.start);
                    }
                } else {
                    assert(after[i] == before[i]);
                    if i < k - 1 {
                        assert(before[i].range.end() <= before[k - 1].range.start);
                    }
                    assert(before[k - 1].ok());
                }
            }
        }
        AreaSeg { ok: true, index: gap.index, range: *r, value: vma }
    }

    /// Takes a segment out of the set and gives the gap that it leaves.
    pub fn Remove(&mut self, seg: &AreaSeg) -> (gap: AreaGap)
        requires
            old(self).wf(),
            old(self).valid_seg(*seg),
        ensures
            final(self).wf(),
            final(self).range == old(self).range,
            final(self).segs@ == old(self).segs@.remove(seg.index as int),
            final(self).valid_gap(gap),
            gap.index == seg.index,
            gap.range.is_superset_of(seg.range),
    {
        let ghost before = self.segs@;
        let ghost k = seg.index as int;
        self.segs.remove(seg.index);
        proof {
            let after = self.segs@;
            assert forall|i: int| 0 <= i < after.len() implies {
                &&& (#[trigger] after[i]).ok()
                &&& self.range.is_superset_of(after[i].range)
            } by {
                if i < k {
                    assert(after[i] == before[i]);
                } else {
                    assert(after[i] == before[i + 1]);
                }
            }
            assert forall|i: int, j: int|
                #![trigger after[i], after[j]]
                0 <= i < j < after.len() implies after[i].range.end() <= after[j].range.start by {
                let oi = if i < k { i } else { i + 1 };
                let oj = if j < k { j } else { j + 1 };
                assert(after[i] == before[oi]);
                assert(after[j] == before[oj]);
                assert(before[oi].range.end() <= before[oj].range.start);
            }
            assert(before[k].ok());
            if k > 0 {
                assert(after[k - 1] == before[k - 1]);
                assert(before[k - 1].range.end() <= before[k].range.start);
            }
            if k < after.len() {
                assert(after[k] == before[k + 1]);
                assert(before[k].range.end() <= before[k + 1].range.start);
            }
        }
        self.GapAt(seg.index)
    }

    /// Splits the segment at the ends of `r` that fall inside it and gives
    /// the piece between them. When the segment meets `r`, that piece is
    /// their common part.
    #[verifier::rlimit(60)]
    pub fn Isolate(&mut self, seg: &AreaSeg, r: &Range) -> (mid: AreaSeg)
        requires
            old(self).wf(),
            old(self).valid_seg(*seg),
            r.wf(),
        ensures
            final(self).wf(),
            final(self).range == old(self).range,
            final(self).segs@ == old(self).segs@.take(seg.index as int) + seg.entry().pieces(*r)
                + old(self).segs@.skip(seg.index + 1),
            final(self).valid_seg(mid),
            mid.entry() == seg.entry().part(seg.entry().cut_lo(*r), seg.entry().cut_hi(*r)),
            mid.index == seg.index + (if seg.range.start < seg.entry().cut_lo(*r) {
                1int
            } else {
                0int
            }),
            seg.range.overlaps(*r) && r.len > 0 ==> r.is_superset_of(mid.range),
            seg.range.is_superset_of(mid.range),
    {
        let ghost before = self.segs@;
        let ghost k = seg.index as int;
        let ghost pre = before.take(k);
        let ghost post = before.skip(k + 1);
        let n = self.segs.len();
        assert(seg.index < n);
        let e = self.segs[seg.index];
        assert(e.ok());
        assert(e == seg.entry());
        let s = e.range.start;
        let end = e.range.End();
        let lo = if s < r.start && r.start < end { r.start } else { s };
        let rend = r.End();
        let hi = if lo < rend && rend < end { rend } else { end };
        let halves = e.vma.Split(s, lo);
        let mid_entry = AreaEntry { range: Range { start: lo, len: hi - lo }, vma: halves.1 };
        let mut at = seg.index;
        let ghost mut run: Seq<AreaEntry>;
        if s < lo {
            let left = AreaEntry { range: Range { start: s, len: lo - s }, vma: halves.0 };
            self.segs.set(at, left);
            at = at + 1;
            self.segs.insert(at, mid_entry);
            proof {
                run = seq![left, mid_entry];
                assert(self.segs@ =~= pre + run + post);
            }
        } else {
            self.segs.set(at, mid_entry);
            proof {
                run = seq![mid_entry];
                assert(self.segs@ =~= pre + run + post);
            }
        }
        if hi < end {
            let tails = e.vma.Split(s, hi);
            let right = AreaEntry { range: Range { start: hi, len: end - hi }, vma: tails.1 };
            let m = self.segs.len();
            assert(at < m);
            self.segs.insert(at + 1, right);
            proof {
                let ghost run0 = run;
                run = run0.push(right);
                assert(self.segs@ =~= pre + run + post);
            }
        }
        proof {
            assert(run =~= e.pieces(*r));
            lemma_pieces_ok(e, *r);
            lemma_replace_wf(before, k, run, self.range);
        }
        AreaSeg { ok: true, index: at, range: mid_entry.range, value: mid_entry.vma }
    }
}

/// A part of a well-formed segment is well formed and lies inside it.
pub proof fn lemma_part_ok(e: AreaEntry, lo: int, hi: int)
    requires
        e.ok(),
        e.range.start <= lo < hi <= e.range.end(),
    ensures
        e.part(lo, hi).ok(),
        e.range.is_superset_of(e.part(lo, hi).range),
        e.part(lo, hi).range.start == lo,
        e.part(lo, hi).range.end() == hi,
        e.part(lo, hi).vma.kernel == e.vma.kernel,
        e.part(lo, hi).vma.mappable == e.vma.mappable,
{
}

/// The pieces of an isolated segment are well formed, lie inside it, and
/// follow one another.
pub proof fn lemma_pieces_ok(e: AreaEntry, r: Range)
    requires
        e.ok(),
        r.wf(),
    ensures
        sorted(e.pieces(r)),
        forall|i: int|
            0 <= i < e.pieces(r).len() ==> (#[trigger] e.pieces(r)[i]).ok()
                && e.range.is_superset_of(e.pieces(r)[i].range),
{
    let lo = e.cut_lo(r);
    let hi = e.cut_hi(r);
    let s = e.range.start as int;
    let end = e.range.end();
    lemma_part_ok(e, lo, hi);
    if s < lo {
        lemma_part_ok(e, s, lo);
    }
    if hi < end {
        lemma_part_ok(e, hi, end);
    }
    let ps = e.pieces(r);
    assert forall|i: int| 0 <= i < ps.len() implies (#[trigger] ps[i]).ok()
        && e.range.is_superset_of(ps[i].range) by {
        if s < lo {
            if i == 0 {
                assert(ps[i] == e.part(s, lo));
            } else if i == 1 {
                assert(ps[i] == e.part(lo, hi));
            } else {
                assert(ps[i] == e.part(hi, end));
            }
        } else {
            if i == 0 {
                assert(ps[i] == e.part(lo, hi));
            } else {
                assert(ps[i] == e.part(hi, end));
            }
        }
    }
    assert forall|i: int, j: int| #![trigger ps[i], ps[j]] 0 <= i < j < ps.len() implies ps[i].range.end()
        <= ps[j].range.start by {
        if s < lo {
            assert(ps[0] == e.part(s, lo));
            assert(ps[1] == e.part(lo, hi));
            if ps.len() > 2 {
                assert(ps[2] == e.part(hi, end));
            }
        } else {
            assert(ps[0] == e.part(lo, hi));
            assert(ps[1] == e.part(hi, end));
        }
    }
}

/// Every segment is well formed and inside `domain`, and the segments are
/// disjoint and sorted.
pub open spec fn segs_wf(segs: Seq<AreaEntry>, domain: Range) -> bool {
    &&& forall|i: int|
        0 <= i < segs.len() ==> {
            &&& (#[trigger] segs[i]).ok()
            &&& domain.is_superset_of(segs[i].range)
        }
    &&& sorted(segs)
}

/// Replacing one segment by a sorted run of well-formed pieces that lie
/// inside it keeps the set well formed.
pub proof fn lemma_replace_wf(before: Seq<AreaEntry>, k: int, run: Seq<AreaEntry>, domain: Range)
    requires
        segs_wf(before, domain),
        0 <= k < before.len(),
        sorted(run),
        forall|i: int|
            0 <= i < run.len() ==> (#[trigger] run[i]).ok() && before[k].range.is_superset_of(
                run[i].range,
            ),
    ensures
        segs_wf(before.take(k) + run + before.skip(k + 1), domain),
{
    let after = before.take(k) + run + before.skip(k + 1);
    let n = run.len() as int;
    assert forall|i: int| 0 <= i < after.len() implies {
        &&& (#[trigger] after[i]).ok()
        &&& domain.is_superset_of(after[i].range)
    } by {
        if i < k {
            assert(after[i] == before[i]);
        } else if i < k + n {
            assert(after[i] == run[i - k]);
            assert(before[k].ok());
        } else {
            assert(after[i] == before[i - n + 1]);
        }
    }
    assert forall|i: int, j: int|
        #![trigger after[i], after[j]]
        0 <= i < j < after.len() implies after[i].range.end() <= after[j].range.start by {
        let oi = if i < k { i } else if i < k + n { k } else { i - n + 1 };
        let oj = if j < k { j } else if j < k + n { k } else { j - n + 1 };
        if i >= k && i < k + n {
            assert(after[i] == run[i - k]);
        } else {
            assert(after[i] == before[oi]);
        }
        if j >= k && j < k + n {
            assert(after[j] == run[j - k]);
        } else {
            assert(after[j] == before[oj]);
        }
        if oi < oj {
            assert(before[oi].range.end() <= before[oj].range.start);
        } else {
            assert(run[i - k].range.end() <= run[j - k].range.start);
        }
    }
}

/// In a well-formed set no two segments share an address, and a segment
/// with a lower index lies wholly below one with a higher index.
pub proof fn law_disjoint_sorted(set: &AreaSet, i: int, j: int)
    requires
        set.wf(),
        0 <= i < j < set.segs@.len(),
    ensures
        set.segs@[i].range.start < set.segs@[i].range.end(),
        set.segs@[i].range.end() <= set.segs@[j].range.start,
        set.segs@[j].range.start < set.segs@[j].range.end(),
        !set.segs@[i].range.overlaps(set.segs@[j].range),
{
    assert(set.segs@[i].ok());
    assert(set.segs@[j].ok());
}

} // verus!
