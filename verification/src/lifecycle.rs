//! Areas come and go: mapping a new area, removing the areas of a range,
//! and clearing an address space for a new program.
use vstd::prelude::*;
use crate::areaset::{
    file_len, file_weight, lemma_sum_concat, lemma_sum_insert, lemma_sum_one, lemma_sum_remove,
    lemma_sum_replace, len_weight, seg_len, sorted, sum_by, user_len, user_weight, AreaEntry,
    AreaSeg, AreaSet,
};
use crate::linux_def::{Error, MemoryDef, SysErr};
use crate::mappable::MappableTable;
use crate::mm::{MemoryManager, MemoryManagerInternal};
use crate::pagemgr::{PageMgr, PmView};
use crate::pagetable::{release_all, within, without, Cpu, PageEntry, PageTables};
use crate::range::Range;
use crate::vma::VMA;

verus! {

/// The areas of the kernel among `segs`, in order.
pub open spec fn kernel_only(segs: Seq<AreaEntry>) -> Seq<AreaEntry>
    decreases segs.len(),
{
    if segs.len() == 0 {
        Seq::<AreaEntry>::empty()
    } else if segs.last().vma.kernel {
        kernel_only(segs.drop_last()).push(segs.last())
    } else {
        kernel_only(segs.drop_last())
    }
}

/// The areas among `segs` that are not the kernel's, in order.
pub open spec fn user_only(segs: Seq<AreaEntry>) -> Seq<AreaEntry>
    decreases segs.len(),
{
    if segs.len() == 0 {
        Seq::<AreaEntry>::empty()
    } else if segs.last().vma.kernel {
        user_only(segs.drop_last())
    } else {
        user_only(segs.drop_last()).push(segs.last())
    }
}

/// The page table and the pool after the pages of each area of `run` were
/// unmapped, in order.
pub open spec fn unmap_areas(es: Seq<PageEntry>, pm: PmView, run: Seq<AreaEntry>) -> (
    Seq<PageEntry>,
    PmView,
)
    decreases run.len(),
{
    if run.len() == 0 {
        (es, pm)
    } else {
        let p = unmap_areas(es, pm, run.drop_last());
        let r = run.last().range;
        (
            without(p.0, r.start as int, r.end()),
            release_all(p.1, within(p.0, r.start as int, r.end())),
        )
    }
}

/// The segment `e` holds an address of `ar`.
pub open spec fn meets(e: AreaEntry, ar: Range) -> bool {
    ar.len > 0 && e.range.overlaps(ar)
}

/// What is left of the segment `e` when the addresses of `ar` are taken
/// out: the segment itself when it does not meet `ar`, else its part below
/// `ar` and its part above, as far as there are any.
pub open spec fn outside(e: AreaEntry, ar: Range) -> Seq<AreaEntry> {
    if !meets(e, ar) {
        seq![e]
    } else {
        let left = if e.range.start < ar.start {
            seq![e.part(e.range.start as int, ar.start as int)]
        } else {
            Seq::<AreaEntry>::empty()
        };
        let right = if ar.end() < e.range.end() {
            seq![e.part(ar.end(), e.range.end())]
        } else {
            Seq::<AreaEntry>::empty()
        };
        left + right
    }
}

/// The part of the segment `e` that lies in `ar`, if the two meet.
pub open spec fn inside(e: AreaEntry, ar: Range) -> Seq<AreaEntry> {
    if !meets(e, ar) {
        Seq::<AreaEntry>::empty()
    } else {
        seq![e.part(e.cut_lo(ar), e.cut_hi(ar))]
    }
}

/// The segments without the addresses of `ar`.
pub open spec fn cut(segs: Seq<AreaEntry>, ar: Range) -> Seq<AreaEntry>
    decreases segs.len(),
{
    if segs.len() == 0 {
        Seq::<AreaEntry>::empty()
    } else {
        cut(segs.drop_last(), ar) + outside(segs.last(), ar)
    }
}

/// The parts of the segments that lie in `ar`, in order.
pub open spec fn taken(segs: Seq<AreaEntry>, ar: Range) -> Seq<AreaEntry>
    decreases segs.len(),
{
    if segs.len() == 0 {
        Seq::<AreaEntry>::empty()
    } else {
        taken(segs.drop_last(), ar) + inside(segs.last(), ar)
    }
}

/// `cut` and `taken` go through a concatenation.
pub proof fn lemma_cut_concat(a: Seq<AreaEntry>, b: Seq<AreaEntry>, ar: Range)
    ensures
        cut(a + b, ar) == cut(a, ar) + cut(b, ar),
        taken(a + b, ar) == taken(a, ar) + taken(b, ar),
    decreases b.len(),
{
    if b.len() == 0 {
        assert(a + b =~= a);
        assert(cut(a, ar) + cut(b, ar) =~= cut(a, ar));
        assert(taken(a, ar) + taken(b, ar) =~= taken(a, ar));
    } else {
        lemma_cut_concat(a, b.drop_last(), ar);
        assert((a + b).drop_last() =~= a + b.drop_last());
        assert((a + b).last() == b.last());
        assert(cut(a + b, ar) =~= cut(a, ar) + cut(b, ar));
        assert(taken(a + b, ar) =~= taken(a, ar) + taken(b, ar));
    }
}

/// Segments that do not meet `ar` are left whole, and nothing is taken
/// from them.
pub proof fn lemma_cut_none(segs: Seq<AreaEntry>, ar: Range)
    requires
        forall|i: int| 0 <= i < segs.len() ==> !meets(#[trigger] segs[i], ar),
    ensures
        cut(segs, ar) == segs,
        taken(segs, ar) == Seq::<AreaEntry>::empty(),
    decreases segs.len(),
{
    if segs.len() > 0 {
        let d = segs.drop_last();
        assert forall|i: int| 0 <= i < d.len() implies !meets(#[trigger] d[i], ar) by {
            assert(d[i] == segs[i]);
        }
        lemma_cut_none(d, ar);
        assert(!meets(segs[segs.len() - 1], ar));
        assert(cut(segs, ar) =~= segs);
        assert(taken(segs, ar) =~= Seq::<AreaEntry>::empty());
    } else {
        assert(cut(segs, ar) =~= segs);
    }
}

/// The pieces of an isolated segment are well formed, lie inside it in
/// order, and add up to it: in length, in what counts as usage, and in what
/// they map of any object.
pub proof fn lemma_pieces(e: AreaEntry, ar: Range)
    requires
        e.ok(),
        ar.wf(),
    ensures
        sorted(e.pieces(ar)),
        forall|i: int|
            0 <= i < e.pieces(ar).len() ==> (#[trigger] e.pieces(ar)[i]).ok()
                && e.range.is_superset_of(e.pieces(ar)[i].range),
        sum_by(e.pieces(ar), user_weight()) == user_len(e),
        sum_by(e.pieces(ar), len_weight()) == seg_len(e),
        forall|m: u64| #[trigger] sum_by(e.pieces(ar), file_weight(m)) == file_len(e, m),
{
    let lo = e.cut_lo(ar);
    let hi = e.cut_hi(ar);
    let s = e.range.start as int;
    let end = e.range.end();
    let mid = e.part(lo, hi);
    let left = if s < lo {
        seq![e.part(s, lo)]
    } else {
        Seq::<AreaEntry>::empty()
    };
    let right = if hi < end {
        seq![e.part(hi, end)]
    } else {
        Seq::<AreaEntry>::empty()
    };
    let ps = e.pieces(ar);
    crate::areaset::lemma_pieces_ok(e, ar);
    assert(ps == left + seq![mid] + right);
    lemma_sum_parts(e, left, mid, right, user_weight());
    lemma_sum_parts(e, left, mid, right, len_weight());
    assert forall|m: u64| #[trigger]
        sum_by(e.pieces(ar), file_weight(m)) == file_len(e, m) by {
        lemma_sum_parts(e, left, mid, right, file_weight(m));
    }
}

/// The sum over at most three parts, spelled out.
pub proof fn lemma_sum_parts(
    e: AreaEntry,
    left: Seq<AreaEntry>,
    mid: AreaEntry,
    right: Seq<AreaEntry>,
    f: spec_fn(AreaEntry) -> int,
)
    requires
        left.len() <= 1,
        right.len() <= 1,
    ensures
        sum_by(left + seq![mid] + right, f) == (if left.len() == 1 {
            f(left[0])
        } else {
            0
        }) + f(mid) + (if right.len() == 1 {
            f(right[0])
        } else {
            0
        }),
{
    lemma_sum_concat(left + seq![mid], right, f);
    lemma_sum_concat(left, seq![mid], f);
    lemma_sum_one(mid, f);
    if left.len() == 1 {
        assert(left =~= seq![left[0]]);
        lemma_sum_one(left[0], f);
    }
    if right.len() == 1 {
        assert(right =~= seq![right[0]]);
        lemma_sum_one(right[0], f);
    }
}

/// A sum of lengths is at least each of its terms, and never negative.
pub proof fn lemma_sum_ge(segs: Seq<AreaEntry>, i: int, m: u64)
    requires
        0 <= i < segs.len(),
    ensures
        sum_by(segs, file_weight(m)) >= file_len(segs[i], m),
        sum_by(segs, user_weight()) >= user_len(segs[i]),
{
    lemma_sum_remove(segs, i, file_weight(m));
    lemma_sum_nonneg(segs.remove(i), m);
    lemma_sum_remove(segs, i, user_weight());
}

pub proof fn lemma_sum_nonneg(segs: Seq<AreaEntry>, m: u64)
    ensures
        sum_by(segs, file_weight(m)) >= 0,
        sum_by(segs, user_weight()) >= 0,
        sum_by(segs, len_weight()) >= 0,
    decreases segs.len(),
{
    if segs.len() > 0 {
        lemma_sum_nonneg(segs.drop_last(), m);
    }
}

impl MemoryManagerInternal {
    /// The address space and the table of backing objects agree: every
    /// area's object is in the table, and the table counts for this address
    /// space exactly what its areas map of each object.
    pub open spec fn files_ok(&self, uid: u64, files: &MappableTable) -> bool {
        &&& forall|i: int|
            0 <= i < self.vmas.segs@.len() ==> ((
            #[trigger] self.vmas.segs@[i]).vma.mappable.is_some() ==> files.has(
                self.vmas.segs@[i].vma.mappable.unwrap(),
            ))
        &&& forall|m: u64|
            files.has(m) ==> #[trigger] files.mapped_by(m, uid) == self.vmas.file_span(m)
    }

    /// Everything but the areas, the leaves and the accounting is as in
    /// `o`, and the list of pages to invalidate has followed the change of
    /// the leaves.
    pub open spec fn same_setup(&self, o: &Self) -> bool {
        &&& self.pt.tlb_step(&o.pt)
        &&& self.inited == o.inited
        &&& self.brkInfo == o.brkInfo
        &&& self.layout == o.layout
        &&& self.maxRSS == o.maxRSS
        &&& self.sharedLoadsOffset == o.sharedLoadsOffset
        &&& self.auxv == o.auxv
        &&& self.argv == o.argv
        &&& self.envv == o.envv
        &&& self.executable == o.executable
        &&& self.dumpability == o.dumpability
        &&& self.pt.root == o.pt.root
        &&& self.vmas.range == o.vmas.range
    }

    /// No area holds an address of `ar`, and `ar` lies in the domain.
    pub open spec fn free_range(&self, ar: Range) -> bool {
        &&& self.vmas.range.is_superset_of(ar)
        &&& forall|i: int|
            0 <= i < self.vmas.segs@.len() ==> !(#[trigger] self.vmas.segs@[i]).range.overlaps(
                ar,
            )
    }

    /// Maps a new area over `ar`. Fails, changing nothing: with `EINVAL`
    /// when `ar` is empty, is not made of whole pages, does not end inside
    /// 64 bits, the rights of the area exceed its largest rights, or the
    /// mapped part of a backing object does not end inside 64 bits; with
    /// `ENOMEM` when `ar` is not free or the usage cannot grow by its
    /// length; and as `MappableTable::AddMapping` does for a file mapping.
    pub fn AddVMA(&mut self, uid: u64, files: &mut MappableTable, ar: &Range, vma: VMA) -> (r:
        Result<(), Error>)
        requires
            old(self).wf(),
            old(self).files_ok(uid, old(files)),
            old(files).wf(),
        ensures
            final(self).wf(),
            final(files).wf(),
            final(self).files_ok(uid, final(files)),
            final(self).same_setup(old(self)),
            final(self).pt == old(self).pt,
            final(self).curRSS == old(self).curRSS,
            final(files).same_objects(old(files)),
            r == (if ar.len == 0 || !ar.wf() || ar.start % 4096 != 0 || ar.len % 4096 != 0
                || !vma.perms_ok() || (vma.mappable.is_some() && vma.offset + ar.len > u64::MAX) {
                Err::<(), Error>(Error::SysError(SysErr::EINVAL))
            } else {
                old(self).insert_result(uid, old(files), *ar, vma)
            }),
            r.is_err() ==> final(self).vmas.segs@ == old(self).vmas.segs@ && final(self).usageAS
                == old(self).usageAS && forall|f: u64, u: u64| #[trigger]
                final(files).mapped_by(f, u) == old(files).mapped_by(f, u),
            r.is_ok() ==> {
                &&& final(self).vmas.segs@ == old(self).vmas.segs@.insert(
                    old(self).place_of(*ar),
                    AreaEntry { range: *ar, vma },
                )
                &&& final(self).usageAS == old(self).usageAS + user_len(
                    AreaEntry { range: *ar, vma },
                )
                &&& forall|f: u64, u: u64| #[trigger]
                    final(files).mapped_by(f, u) == old(files).mapped_by(f, u) + (if Some(f)
                        == vma.mappable && u == uid {
                        ar.len as int
                    } else {
                        0
                    })
            },
    {
        if ar.len == 0 || ar.len > u64::MAX - ar.start || ar.start % MemoryDef::PAGE_SIZE != 0
            || ar.len % MemoryDef::PAGE_SIZE != 0 {
            return Err(Error::SysError(SysErr::EINVAL));
        }
        if !vma.PermsOk() || (vma.mappable.is_some() && ar.len > u64::MAX - vma.offset) {
            return Err(Error::SysError(SysErr::EINVAL));
        }
        self.InsertArea(uid, files, ar, vma)
    }

    /// What putting a well-formed area over `ar` gives: `ENOMEM` when `ar`
    /// is not free or the usage cannot grow by its length, `EFAULT` when the
    /// area's backing object is not in the table, `ENOMEM` when that
    /// object's count cannot grow, and success otherwise.
    pub open spec fn insert_result(&self, uid: u64, files: &MappableTable, ar: Range, vma: VMA)
        -> Result<(), Error> {
        if !self.free_range(ar) || (!vma.kernel && self.usageAS + ar.len > u64::MAX) {
            Err(Error::SysError(SysErr::ENOMEM))
        } else if vma.mappable.is_some() && !files.has(vma.mappable.unwrap()) {
            Err(Error::SysError(SysErr::EFAULT))
        } else if vma.mappable.is_some() && files.mapped_by(vma.mappable.unwrap(), uid) + ar.len
            > u64::MAX {
            Err(Error::SysError(SysErr::ENOMEM))
        } else {
            Ok(())
        }
    }

    /// The position that a new area over `ar` gets: behind every area that
    /// ends at or below its start.
    pub open spec fn place_of(&self, ar: Range) -> int {
        choose|i: int| self.is_place(ar, i)
    }

    /// Position `i` lies behind every area that ends at or below the start
    /// of `ar`, and before every other.
    pub open spec fn is_place(&self, ar: Range, i: int) -> bool {
        &&& 0 <= i <= self.vmas.segs@.len()
        &&& forall|k: int| 0 <= k < i ==> (#[trigger] self.vmas.segs@[k]).range.end() <= ar.start
        &&& forall|k: int|
            i <= k < self.vmas.segs@.len() ==> ar.start < (
            #[trigger] self.vmas.segs@[k]).range.end()
    }

    /// The position behind every area that ends at or below the start of
    /// `ar` is the position `place_of`.
    pub proof fn lemma_place_of(&self, ar: Range, i: int)
        requires
            self.vmas.wf(),
            0 <= i <= self.vmas.segs@.len(),
            forall|k: int| 0 <= k < i ==> (#[trigger] self.vmas.segs@[k]).range.end() <= ar.start,
            forall|k: int|
                i <= k < self.vmas.segs@.len() ==> ar.start < (
                #[trigger] self.vmas.segs@[k]).range.end(),
        ensures
            self.place_of(ar) == i,
    {
        assert(self.is_place(ar, i));
        let p = self.place_of(ar);
        assert(self.is_place(ar, p));
        if p < i {
            assert(self.vmas.segs@[p].range.end() <= ar.start);
        }
        if i < p {
            assert(self.vmas.segs@[i].range.end() <= ar.start);
        }
    }

    /// Puts a well-formed area over `ar`: its backing object is told, its
    /// length joins the usage unless it is the kernel's, and its segment
    /// takes its place. Fails, changing nothing, as `insert_result` says.
    pub fn InsertArea(&mut self, uid: u64, files: &mut MappableTable, ar: &Range, vma: VMA) -> (r:
        Result<(), Error>)
        requires
            old(self).wf(),
            old(self).files_ok(uid, old(files)),
            old(files).wf(),
            (AreaEntry { range: *ar, vma }).ok(),
        ensures
            final(self).wf(),
            final(files).wf(),
            final(self).files_ok(uid, final(files)),
            final(self).same_setup(old(self)),
            final(self).pt == old(self).pt,
            final(self).curRSS == old(self).curRSS,
            final(files).same_objects(old(files)),
            r == old(self).insert_result(uid, old(files), *ar, vma),
            r.is_err() ==> final(self).vmas.segs@ == old(self).vmas.segs@ && final(self).usageAS
                == old(self).usageAS && forall|f: u64, u: u64| #[trigger]
                final(files).mapped_by(f, u) == old(files).mapped_by(f, u),
            r.is_ok() ==> {
                &&& final(self).vmas.segs@ == old(self).vmas.segs@.insert(
                    old(self).place_of(*ar),
                    AreaEntry { range: *ar, vma },
                )
                &&& final(self).usageAS == old(self).usageAS + user_len(
                    AreaEntry { range: *ar, vma },
                )
                &&& forall|f: u64, u: u64| #[trigger]
                    final(files).mapped_by(f, u) == old(files).mapped_by(f, u) + (if Some(f)
                        == vma.mappable && u == uid {
                        ar.len as int
                    } else {
                        0
                    })
            },
    {
        let gap = self.vmas.FindGap(ar.start);
        proof {
            self.lemma_free_range(*ar, gap);
        }
        if !gap.IsOk() || !gap.range.IsSupersetOf(ar) {
            return Err(Error::SysError(SysErr::ENOMEM));
        }
        if !vma.kernel && ar.len > u64::MAX - self.usageAS {
            return Err(Error::SysError(SysErr::ENOMEM));
        }
        match vma.mappable {
            Some(m) => {
                files.AddMapping(m, uid, ar, vma.offset, vma.CanWriteMappableLocked())?;
            },
            None => {},
        }
        let ghost before = self.vmas.segs@;
        let ghost e = AreaEntry { range: *ar, vma };
        proof {
            let g = gap.index as int;
            assert forall|k: int| 0 <= k < g implies (#[trigger] before[k]).range.end()
                <= ar.start by {
                if k < g - 1 {
                    assert(before[k].range.end() <= before[g - 1].range.start);
                    assert(before[g - 1].ok());
                }
            }
            assert forall|k: int| g <= k < before.len() implies ar.start < (
            #[trigger] before[k]).range.end() by {
                assert(before[k].ok());
                if k > g {
                    assert(before[g].range.end() <= before[k].range.start);
                    assert(before[g].ok());
                }
            }
            self.lemma_place_of(*ar, g);
        }
        self.vmas.Insert(&gap, ar, vma);
        if !vma.kernel {
            self.usageAS = self.usageAS + ar.len;
        }
        proof {
            let i = gap.index as int;
            lemma_sum_insert(before, i, e, user_weight());
            assert forall|m: u64| files.has(m) implies #[trigger] files.mapped_by(m, uid)
                == self.vmas.file_span(m) by {
                lemma_sum_insert(before, i, e, file_weight(m));
                assert(old(files).mapped_by(m, uid) == old(self).vmas.file_span(m));
            }
            assert forall|k: int|
                0 <= k < self.vmas.segs@.len() && (
                #[trigger] self.vmas.segs@[k]).vma.mappable.is_some() implies files.has(
                self.vmas.segs@[k].vma.mappable.unwrap(),
            ) by {
                if k < i {
                    assert(self.vmas.segs@[k] == before[k]);
                } else if k > i {
                    assert(self.vmas.segs@[k] == before[k - 1]);
                }
            }
        }
        Ok(())
    }

    /// A gap that holds the start of `ar` has room for `ar` exactly when
    /// `ar` is free.
    pub proof fn lemma_free_range(&self, ar: Range, gap: crate::areaset::AreaGap)
        requires
            self.vmas.wf(),
            ar.wf(),
            ar.len > 0,
            gap.ok == (self.vmas.range.contains(ar.start as int) && !self.vmas.covers(
                ar.start as int,
            )),
            gap.ok ==> self.vmas.valid_gap(gap) && gap.range.contains(ar.start as int),
        ensures
            (gap.ok && gap.range.is_superset_of(ar)) <==> self.free_range(ar),
    {
        let segs = self.vmas.segs@;
        if gap.ok && gap.range.is_superset_of(ar) {
            let g = gap.index as int;
            assert forall|i: int| 0 <= i < segs.len() implies !(#[trigger] segs[i]).range.overlaps(
                ar,
            ) by {
                assert(segs[i].ok());
                if i < g {
                    if i < g - 1 {
                        assert(segs[i].range.end() <= segs[g - 1].range.start);
                        assert(segs[g - 1].ok());
                    }
                } else {
                    if i > g {
                        assert(segs[g].range.end() <= segs[i].range.start);
                        assert(segs[g].ok());
                    }
                }
            }
        }
        if self.free_range(ar) {
            if self.vmas.covers(ar.start as int) {
                let k = choose|k: int|
                    0 <= k < segs.len() && (#[trigger] segs[k]).range.contains(ar.start as int);
                assert(segs[k].range.overlaps(ar));
            }
            assert(gap.ok);
            let g = gap.index as int;
            if g < segs.len() {
                assert(!segs[g].range.overlaps(ar));
                assert(segs[g].ok());
            }
        }
    }

    /// Removes the area at `seg`: its backing object is told, its length
    /// leaves the usage unless it is the kernel's and, if `rss` is set, the
    /// resident size, its pages are unmapped, and the segment goes.
    pub fn RemoveSeg(
        &mut self,
        uid: u64,
        files: &mut MappableTable,
        pm: &mut PageMgr,
        seg: &AreaSeg,
        rss: bool,
    ) -> (gap: crate::areaset::AreaGap)
        requires
            old(self).wf(),
            old(self).files_ok(uid, old(files)),
            old(files).wf(),
            old(pm).wf(),
            old(self).vmas.valid_seg(*seg),
        ensures
            final(self).wf(),
            final(files).wf(),
            final(pm).wf(),
            final(self).files_ok(uid, final(files)),
            final(self).same_setup(old(self)),
            final(files).same_objects(old(files)),
            final(self).vmas.segs@ == old(self).vmas.segs@.remove(seg.index as int),
            final(self).vmas.valid_gap(gap),
            gap.index == seg.index,
            final(self).pt.entries@ == without(
                old(self).pt.entries@,
                seg.range.start as int,
                seg.range.end(),
            ),
            final(pm)@ == release_all(
                old(pm)@,
                within(old(self).pt.entries@, seg.range.start as int, seg.range.end()),
            ),
            final(self).usageAS == old(self).usageAS - user_len(seg.entry()),
            final(self).curRSS == if !rss {
                old(self).curRSS
            } else if old(self).curRSS >= seg.range.len {
                (old(self).curRSS - seg.range.len) as u64
            } else {
                0
            },
            forall|f: u64, u: u64| #[trigger]
                final(files).mapped_by(f, u) == old(files).mapped_by(f, u) - (if u == uid {
                    file_len(seg.entry(), f)
                } else {
                    0
                }),
    {
        let r = seg.Range();
        let vma = seg.Value();
        let ghost before = self.vmas.segs@;
        let ghost k = seg.index as int;
        assert(before[k] == seg.entry());
        assert(before[k].ok());
        match vma.mappable {
            Some(m) => {
                proof {
                    lemma_sum_ge(before, k, m);
                }
                let _ = files.RemoveMapping(
                    m,
                    uid,
                    &r,
                    vma.offset,
                    vma.CanWriteMappableLocked(),
                );
            },
            None => {},
        }
        proof {
            lemma_sum_ge(before, k, 0);
        }
        if !vma.kernel {
            self.usageAS = self.usageAS - r.Len();
        }
        if rss {
            self.RemoveRssLock(&r);
        }
        let _ = self.pt.MUnmap(r.Start(), r.Len(), pm);
        let gap = self.vmas.Remove(seg);
        proof {
            lemma_sum_remove(before, k, user_weight());
            assert forall|m: u64| files.has(m) implies #[trigger] files.mapped_by(m, uid)
                == self.vmas.file_span(m) by {
                lemma_sum_remove(before, k, file_weight(m));
                assert(old(files).mapped_by(m, uid) == old(self).vmas.file_span(m));
            }
            assert forall|i: int|
                0 <= i < self.vmas.segs@.len() && (
                #[trigger] self.vmas.segs@[i]).vma.mappable.is_some() implies files.has(
                self.vmas.segs@[i].vma.mappable.unwrap(),
            ) by {
                if i < k {
                    assert(self.vmas.segs@[i] == before[i]);
                } else {
                    assert(self.vmas.segs@[i] == before[i + 1]);
                }
            }
        }
        gap
    }

    /// Removes from the area at position `i`, which meets `ar`, the part
    /// that lies in `ar`: the area is split at the ends of `ar`, and the
    /// part in between is removed with its accounting and its pages.
    /// Returns the position behind what is left of the area.
    #[verifier::rlimit(80)]
    pub fn RemovePart(
        &mut self,
        uid: u64,
        files: &mut MappableTable,
        pm: &mut PageMgr,
        i: usize,
        ar: &Range,
    ) -> (next: usize)
        requires
            old(self).wf(),
            old(self).files_ok(uid, old(files)),
            old(files).wf(),
            old(pm).wf(),
            ar.wf(),
            i < old(self).vmas.segs@.len(),
            meets(old(self).vmas.segs@[i as int], *ar),
        ensures
            final(self).wf(),
            final(files).wf(),
            final(pm).wf(),
            final(self).files_ok(uid, final(files)),
            final(self).same_setup(old(self)),
            final(files).same_objects(old(files)),
            final(self).vmas.segs@ == old(self).vmas.segs@.take(i as int) + outside(
                old(self).vmas.segs@[i as int],
                *ar,
            ) + old(self).vmas.segs@.skip(i + 1),
            next == i + outside(old(self).vmas.segs@[i as int], *ar).len(),
            inside(old(self).vmas.segs@[i as int], *ar).len() == 1,
            ({
                let mid = inside(old(self).vmas.segs@[i as int], *ar)[0];
                &&& final(self).pt.entries@ == without(
                    old(self).pt.entries@,
                    mid.range.start as int,
                    mid.range.end(),
                )
                &&& final(pm)@ == release_all(
                    old(pm)@,
                    within(old(self).pt.entries@, mid.range.start as int, mid.range.end()),
                )
                &&& final(self).usageAS == old(self).usageAS - user_len(mid)
                &&& final(self).curRSS == if old(self).curRSS >= mid.range.len {
                    (old(self).curRSS - mid.range.len) as u64
                } else {
                    0
                }
                &&& forall|f: u64, u: u64| #[trigger]
                    final(files).mapped_by(f, u) == old(files).mapped_by(f, u) - (if u == uid {
                        file_len(mid, f)
                    } else {
                        0
                    })
            }),
    {
        let ghost cur = self.vmas.segs@;
        let ghost e = cur[i as int];
        assert(e.ok());
        let seg = self.vmas.SegAt(i);
        let has_right = ar.End() < seg.range.End();
        let mid = self.IsolateSeg(uid, files, &seg, ar);
        let total = self.vmas.segs.len();
        assert(mid.index < total);
        let next = if has_right {
            mid.index + 1
        } else {
            mid.index
        };
        proof {
            lemma_remove_mid(cur, i as int, *ar);
        }
        let _ = self.RemoveSeg(uid, files, pm, &mid, true);
        next
    }

    /// Splits the area at `seg` at the ends of `ar` that fall inside it, as
    /// `AreaSet::Isolate` does; the accounting is not touched.
    pub fn IsolateSeg(&mut self, uid: u64, files: &MappableTable, seg: &AreaSeg, ar: &Range) -> (mid:
        AreaSeg)
        requires
            old(self).wf(),
            old(self).files_ok(uid, files),
            old(self).vmas.valid_seg(*seg),
            ar.wf(),
        ensures
            final(self).wf(),
            final(self).files_ok(uid, files),
            *final(self) == (MemoryManagerInternal { vmas: final(self).vmas, ..*old(self) }),
            final(self).vmas.range == old(self).vmas.range,
            final(self).vmas.segs@ == old(self).vmas.segs@.take(seg.index as int)
                + seg.entry().pieces(*ar) + old(self).vmas.segs@.skip(seg.index + 1),
            final(self).vmas.valid_seg(mid),
            mid.entry() == seg.entry().part(seg.entry().cut_lo(*ar), seg.entry().cut_hi(*ar)),
            mid.index == seg.index + (if seg.range.start < seg.entry().cut_lo(*ar) {
                1int
            } else {
                0int
            }),
    {
        let ghost cur = self.vmas.segs@;
        let ghost i = seg.index as int;
        let ghost e = cur[i];
        assert(e.ok());
        proof {
            lemma_pieces(e, *ar);
            lemma_sum_replace(cur, i, e.pieces(*ar), user_weight());
            assert forall|m: u64| #[trigger]
                sum_by(cur.take(i) + e.pieces(*ar) + cur.skip(i + 1), file_weight(m)) == sum_by(
                    cur,
                    file_weight(m),
                ) by {
                lemma_sum_replace(cur, i, e.pieces(*ar), file_weight(m));
            }
        }
        let mid = self.vmas.Isolate(seg, ar);
        proof {
            let now = self.vmas.segs@;
            assert forall|k: int|
                0 <= k < now.len() && (#[trigger] now[k]).vma.mappable.is_some() implies files.has(
                now[k].vma.mappable.unwrap(),
            ) by {
                let np = e.pieces(*ar).len() as int;
                if k < i {
                    assert(now[k] == cur[k]);
                } else if k < i + np {
                    assert(now[k] == e.pieces(*ar)[k - i]);
                    assert(now[k].vma.mappable == e.vma.mappable);
                    assert(cur[i].vma.mappable.is_some());
                } else {
                    assert(now[k] == cur[k - np + 1]);
                }
            }
        }
        mid
    }

    /// Removes what the areas hold of the addresses of `ar`: an area that
    /// reaches out of `ar` is split and keeps its parts outside; the part
    /// inside is taken from its backing object's count, from the usage
    /// unless it is the kernel's, and from the resident size, and its pages
    /// are unmapped.
    #[verifier::rlimit(80)]
    pub fn RemoveVMAsLocked(
        &mut self,
        uid: u64,
        files: &mut MappableTable,
        pm: &mut PageMgr,
        ar: &Range,
    ) -> (r: Result<(), Error>)
        requires
            old(self).wf(),
            old(self).files_ok(uid, old(files)),
            old(files).wf(),
            old(pm).wf(),
            ar.wf(),
        ensures
            r == Ok::<(), Error>(()),
            final(self).wf(),
            final(files).wf(),
            final(pm).wf(),
            final(self).files_ok(uid, final(files)),
            final(self).same_setup(old(self)),
            final(files).same_objects(old(files)),
            final(self).vmas.segs@ == cut(old(self).vmas.segs@, *ar),
            (final(self).pt.entries@, final(pm)@) == unmap_areas(
                old(self).pt.entries@,
                old(pm)@,
                taken(old(self).vmas.segs@, *ar),
            ),
            final(self).usageAS == old(self).usageAS - sum_by(
                taken(old(self).vmas.segs@, *ar),
                user_weight(),
            ),
            final(self).curRSS == if old(self).curRSS >= sum_by(
                taken(old(self).vmas.segs@, *ar),
                len_weight(),
            ) {
                old(self).curRSS - sum_by(taken(old(self).vmas.segs@, *ar), len_weight())
            } else {
                0
            },
            forall|f: u64, u: u64| #[trigger]
                final(files).mapped_by(f, u) == old(files).mapped_by(f, u) - (if u == uid {
                    sum_by(taken(old(self).vmas.segs@, *ar), file_weight(f))
                } else {
                    0
                }),
    {
        let ghost S = self.vmas.segs@;
        let ghost es0 = self.pt.entries@;
        let ghost pm0 = pm@;
        let end = ar.End();
        let n0 = self.vmas.segs.len();
        let mut i: usize = 0;
        while i < n0 && self.vmas.segs[i].range.End() <= ar.start
            invariant
                self.wf(),
                n0 == self.vmas.segs@.len(),
                S == self.vmas.segs@,
                i <= n0,
                forall|k: int| 0 <= k < i ==> !meets(#[trigger] S[k], *ar),
            decreases n0 - i,
        {
            assert(S[i as int].ok());
            i = i + 1;
        }
        let ghost mut j: int = i as int;
        proof {
            assert forall|k: int| 0 <= k < S.take(j).len() implies !meets(
                #[trigger] S.take(j)[k],
                *ar,
            ) by {
                assert(S.take(j)[k] == S[k]);
            }
            lemma_cut_none(S.take(j), *ar);
            assert(self.vmas.segs@ =~= cut(S.take(j), *ar) + S.skip(j));
            lemma_sum_nonneg(Seq::<AreaEntry>::empty(), 0);
        }
        while i < self.vmas.segs.len() && self.vmas.segs[i].range.start < end && ar.len > 0
            invariant
                self.wf(),
                files.wf(),
                pm.wf(),
                self.files_ok(uid, files),
                self.same_setup(old(self)),
                files.same_objects(old(files)),
                S == old(self).vmas.segs@,
                es0 == old(self).pt.entries@,
                pm0 == old(pm)@,
                ar.wf(),
                end == ar.end(),
                crate::areaset::segs_wf(S, self.vmas.range),
                0 <= j <= S.len(),
                self.vmas.segs@ == cut(S.take(j), *ar) + S.skip(j),
                i == cut(S.take(j), *ar).len(),
                j < S.len() ==> S[j].range.end() > ar.start,
                (self.pt.entries@, pm@) == unmap_areas(es0, pm0, taken(S.take(j), *ar)),
                self.usageAS == old(self).usageAS - sum_by(taken(S.take(j), *ar), user_weight()),
                self.curRSS == if old(self).curRSS >= sum_by(taken(S.take(j), *ar), len_weight()) {
                    old(self).curRSS - sum_by(taken(S.take(j), *ar), len_weight())
                } else {
                    0
                },
                sum_by(taken(S.take(j), *ar), len_weight()) >= 0,
                forall|f: u64, u: u64| #[trigger]
                    files.mapped_by(f, u) == old(files).mapped_by(f, u) - (if u == uid {
                        sum_by(taken(S.take(j), *ar), file_weight(f))
                    } else {
                        0
                    }),
            decreases S.len() - j,
        {
            let ghost e = S[j];
            assert(self.vmas.segs@[i as int] == e);
            assert(e.ok());
            i = self.RemovePart(uid, files, pm, i, ar);
            proof {
                lemma_taken_step(S, j, *ar);
                lemma_sum_nonneg(taken(S.take(j + 1), *ar), 0);
                assert(self.vmas.segs@ =~= cut(S.take(j + 1), *ar) + S.skip(j + 1));
                if j + 1 < S.len() {
                    assert(S[j].range.end() <= S[j + 1].range.start);
                    assert(S[j + 1].ok());
                }
                j = j + 1;
            }
        }
        proof {
            assert forall|k: int| 0 <= k < S.skip(j).len() implies !meets(
                #[trigger] S.skip(j)[k],
                *ar,
            ) by {
                assert(S.skip(j)[k] == S[j + k]);
                assert(S[j + k].ok());
                if ar.len > 0 {
                    assert(self.vmas.segs@[i as int] == S[j]);
                    if k > 0 {
                        assert(S[j].range.end() <= S[j + k].range.start);
                        assert(S[j].ok());
                    }
                }
            }
            lemma_cut_none(S.skip(j), *ar);
            lemma_cut_concat(S.take(j), S.skip(j), *ar);
            assert(S.take(j) + S.skip(j) =~= S);
            assert(cut(S, *ar) =~= cut(S.take(j), *ar) + S.skip(j));
            assert(taken(S, *ar) =~= taken(S.take(j), *ar));
        }
        Ok(())
    }

    /// Removes every area that is not the kernel's: each is taken from its
    /// backing object's count and from the usage, and its pages are
    /// unmapped. The resident size stays.
    pub fn RemoveUserVMAs(&mut self, uid: u64, files: &mut MappableTable, pm: &mut PageMgr)
        requires
            old(self).wf(),
            old(self).files_ok(uid, old(files)),
            old(files).wf(),
            old(pm).wf(),
        ensures
            final(self).wf(),
            final(files).wf(),
            final(pm).wf(),
            final(self).files_ok(uid, final(files)),
            final(self).same_setup(old(self)),
            final(files).same_objects(old(files)),
            final(self).vmas.segs@ == kernel_only(old(self).vmas.segs@),
            (final(self).pt.entries@, final(pm)@) == unmap_areas(
                old(self).pt.entries@,
                old(pm)@,
                user_only(old(self).vmas.segs@),
            ),
            final(self).usageAS == 0,
            final(self).curRSS == old(self).curRSS,
            forall|f: u64, u: u64| #[trigger]
                final(files).mapped_by(f, u) == old(files).mapped_by(f, u) - (if u == uid {
                    sum_by(user_only(old(self).vmas.segs@), file_weight(f))
                } else {
                    0
                }),
    {
        let ghost S = self.vmas.segs@;
        let ghost es0 = self.pt.entries@;
        let ghost pm0 = pm@;
        let ghost mut j: int = 0;
        let mut i: usize = 0;
        proof {
            assert(self.vmas.segs@ =~= kernel_only(S.take(0)) + S.skip(0));
        }
        while i < self.vmas.segs.len()
            invariant
                self.wf(),
                files.wf(),
                pm.wf(),
                self.files_ok(uid, files),
                self.same_setup(old(self)),
                files.same_objects(old(files)),
                S == old(self).vmas.segs@,
                es0 == old(self).pt.entries@,
                pm0 == old(pm)@,
                0 <= j <= S.len(),
                self.vmas.segs@ == kernel_only(S.take(j)) + S.skip(j),
                i == kernel_only(S.take(j)).len(),
                (self.pt.entries@, pm@) == unmap_areas(es0, pm0, user_only(S.take(j))),
                self.curRSS == old(self).curRSS,
                forall|f: u64, u: u64| #[trigger]
                    files.mapped_by(f, u) == old(files).mapped_by(f, u) - (if u == uid {
                        sum_by(user_only(S.take(j)), file_weight(f))
                    } else {
                        0
                    }),
            decreases S.len() - j,
        {
            let ghost e = S[j];
            assert(self.vmas.segs@[i as int] == e);
            let seg = self.vmas.SegAt(i);
            proof {
                assert(S.take(j + 1).drop_last() =~= S.take(j));
                assert(S.take(j + 1).last() == e);
            }
            if seg.value.kernel {
                proof {
                    assert(self.vmas.segs@ =~= kernel_only(S.take(j + 1)) + S.skip(j + 1));
                }
                i = i + 1;
            } else {
                let _ = self.RemoveSeg(uid, files, pm, &seg, false);
                proof {
                    let U2 = user_only(S.take(j + 1));
                    assert(U2.drop_last() =~= user_only(S.take(j)));
                    assert(U2.last() == e);
                    assert(self.vmas.segs@ =~= kernel_only(S.take(j + 1)) + S.skip(j + 1));
                }
            }
            proof {
                j = j + 1;
            }
        }
        proof {
            assert(S.take(j) =~= S);
            assert(self.vmas.segs@ =~= kernel_only(S));
            lemma_kernel_only(S);
        }
    }
}

/// Taking the middle piece out of an isolated segment leaves what is
/// outside of `ar`.
pub proof fn lemma_remove_mid(cur: Seq<AreaEntry>, i: int, ar: Range)
    requires
        0 <= i < cur.len(),
        cur[i].ok(),
        ar.wf(),
        meets(cur[i], ar),
    ensures
        inside(cur[i], ar) == seq![cur[i].part(cur[i].cut_lo(ar), cur[i].cut_hi(ar))],
        (cur.take(i) + cur[i].pieces(ar) + cur.skip(i + 1)).remove(
            i + (if cur[i].range.start < cur[i].cut_lo(ar) {
                1int
            } else {
                0int
            }),
        ) == cur.take(i) + outside(cur[i], ar) + cur.skip(i + 1),
        outside(cur[i], ar).len() == (if cur[i].range.start < cur[i].cut_lo(ar) {
            1int
        } else {
            0int
        }) + (if ar.end() < cur[i].range.end() {
            1int
        } else {
            0int
        }),
{
    let e = cur[i];
    let k = i + (if e.range.start < e.cut_lo(ar) {
        1int
    } else {
        0int
    });
    let whole = cur.take(i) + e.pieces(ar) + cur.skip(i + 1);
    assert(whole.remove(k) =~= cur.take(i) + outside(e, ar) + cur.skip(i + 1));
}

/// One more segment that meets `ar`: what is cut and what is taken grow
/// by what is outside and what is inside of it.
pub proof fn lemma_taken_step(S: Seq<AreaEntry>, j: int, ar: Range)
    requires
        0 <= j < S.len(),
        meets(S[j], ar),
    ensures
        cut(S.take(j + 1), ar) == cut(S.take(j), ar) + outside(S[j], ar),
        taken(S.take(j + 1), ar) == taken(S.take(j), ar).push(inside(S[j], ar)[0]),
        taken(S.take(j + 1), ar).drop_last() == taken(S.take(j), ar),
        taken(S.take(j + 1), ar).last() == inside(S[j], ar)[0],
{
    assert(S.take(j + 1).drop_last() =~= S.take(j));
    assert(S.take(j + 1).last() == S[j]);
    assert(taken(S.take(j + 1), ar) =~= taken(S.take(j), ar).push(inside(S[j], ar)[0]));
    assert(taken(S.take(j + 1), ar).drop_last() =~= taken(S.take(j), ar));
}

/// The kernel's areas are the kernel's, and they add nothing to the
/// usage.
pub proof fn lemma_kernel_only(segs: Seq<AreaEntry>)
    ensures
        forall|i: int| 0 <= i < kernel_only(segs).len() ==> (#[trigger] kernel_only(segs)[i]).vma.kernel,
        sum_by(kernel_only(segs), user_weight()) == 0,
    decreases segs.len(),
{
    if segs.len() > 0 {
        lemma_kernel_only(segs.drop_last());
        let k = kernel_only(segs);
        if segs.last().vma.kernel {
            assert(k.drop_last() =~= kernel_only(segs.drop_last()));
            assert forall|i: int| 0 <= i < k.len() implies (#[trigger] k[i]).vma.kernel by {
                if i < k.len() - 1 {
                    assert(k[i] == kernel_only(segs.drop_last())[i]);
                }
            }
        }
    }
}

impl MemoryManager {
    /// The address space and the table of backing objects agree: see
    /// `MemoryManagerInternal::files_ok`.
    pub open spec fn files_ok(&self, files: &MappableTable) -> bool {
        self.data.files_ok(self.uid, files)
    }

    /// Maps a new area over `ar`: see `MemoryManagerInternal::AddVMA`.
    pub fn AddVMA(&mut self, files: &mut MappableTable, ar: &Range, vma: VMA) -> (r: Result<
        (),
        Error,
    >)
        requires
            old(self).wf(),
            old(self).files_ok(old(files)),
            old(files).wf(),
        ensures
            final(self).wf(),
            final(files).wf(),
            final(self).files_ok(final(files)),
            final(self).uid == old(self).uid,
            final(self).data.same_setup(&old(self).data),
            final(self).data.pt == old(self).data.pt,
            final(self).data.curRSS == old(self).data.curRSS,
            final(files).same_objects(old(files)),
            r == (if ar.len == 0 || !ar.wf() || ar.start % 4096 != 0 || ar.len % 4096 != 0
                || !vma.perms_ok() || (vma.mappable.is_some() && vma.offset + ar.len > u64::MAX) {
                Err::<(), Error>(Error::SysError(SysErr::EINVAL))
            } else {
                old(self).data.insert_result(old(self).uid, old(files), *ar, vma)
            }),
            r.is_err() ==> final(self).data.vmas.segs@ == old(self).data.vmas.segs@ && final(self).data.usageAS == old(self).data.usageAS && forall|f: u64, u: u64| #[trigger]
                final(files).mapped_by(f, u) == old(files).mapped_by(f, u),
            r.is_ok() ==> {
                &&& final(self).data.vmas.segs@ == old(self).data.vmas.segs@.insert(
                    old(self).data.place_of(*ar),
                    AreaEntry { range: *ar, vma },
                )
                &&& final(self).data.usageAS == old(self).data.usageAS + user_len(
                    AreaEntry { range: *ar, vma },
                )
                &&& forall|f: u64, u: u64| #[trigger]
                    final(files).mapped_by(f, u) == old(files).mapped_by(f, u) + (if Some(f)
                        == vma.mappable && u == old(self).uid {
                        ar.len as int
                    } else {
                        0
                    })
            },
    {
        self.data.AddVMA(self.uid, files, ar, vma)
    }

    /// Clears the address space for a new program. If its page table is the
    /// one that is loaded, the kernel's is loaded first. Then every area
    /// that is not the kernel's is removed: taken from its backing object's
    /// count and from the usage, and its pages unmapped.
    pub fn Clear(
        &mut self,
        cpu: &mut Cpu,
        kernel: &PageTables,
        files: &mut MappableTable,
        pm: &mut PageMgr,
    ) -> (r: Result<(), Error>)
        requires
            old(self).wf(),
            old(self).files_ok(old(files)),
            old(files).wf(),
            old(pm).wf(),
        ensures
            r == Ok::<(), Error>(()),
            final(self).wf(),
            final(files).wf(),
            final(pm).wf(),
            final(self).files_ok(final(files)),
            final(self).uid == old(self).uid,
            final(self).data.same_setup(&old(self).data),
            final(files).same_objects(old(files)),
            final(cpu).cr3 == if old(cpu).cr3 == old(self).data.pt.root {
                kernel.root
            } else {
                old(cpu).cr3
            },
            final(self).data.vmas.segs@ == kernel_only(old(self).data.vmas.segs@),
            (final(self).leaves(), final(pm)@) == unmap_areas(
                old(self).leaves(),
                old(pm)@,
                user_only(old(self).data.vmas.segs@),
            ),
            final(self).data.usageAS == 0,
            final(self).data.curRSS == old(self).data.curRSS,
            forall|f: u64, u: u64| #[trigger]
                final(files).mapped_by(f, u) == old(files).mapped_by(f, u) - (if u == old(self).uid {
                    sum_by(user_only(old(self).data.vmas.segs@), file_weight(f))
                } else {
                    0
                }),
    {
        let isCurrent = self.data.pt.IsActivePagetable(cpu);
        if isCurrent {
            kernel.SwitchTo(cpu);
        }
        self.data.RemoveUserVMAs(self.uid, files, pm);
        Ok(())
    }
}

} // verus!
