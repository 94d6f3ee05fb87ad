//! Forking an address space: the child gets the parent's areas, and the
//! pages of both become copy-on-write.
use vstd::prelude::*;
use crate::addr::frame_ok;
use crate::areaset::{file_len, file_weight, lemma_sum_concat, sum_by, user_weight, AreaEntry};
use crate::lifecycle::{lemma_sum_nonneg, meets, taken, unmap_areas};
use crate::linux_def::{Error, SysErr};
use crate::mappable::MappableTable;
use crate::mm::{lemma_allocate, MemoryManager};
use crate::pagemgr::{PageMgr, PmView};
use crate::pageopts::{pte_user, pte_writable};
use crate::pagetable::{
    below, copy_all, cow_run, install_all, lemma_below, lemma_below_mono, lemma_cow_run,
    lemma_install, pt_wf, put, release_all, retain_all, within, PageEntry,
};
use crate::range::Range;
use crate::uid::UidService;

verus! {

/// No leaf of the table is a user leaf that can be written.
pub open spec fn no_user_write(es: Seq<PageEntry>) -> bool {
    forall|i: int|
        0 <= i < es.len() ==> !(pte_user((#[trigger] es[i]).flags) && pte_writable(es[i].flags))
}

/// What a fork does for the pages of one area: nothing for the kernel's, a
/// copy-on-write share for a private area, copies of the child's own for a
/// shared one. Gives the child's table, the pool, and whether every frame
/// that was needed could be had.
pub open spec fn fork_area(src: Seq<PageEntry>, dst: Seq<PageEntry>, pm: PmView, e: AreaEntry) -> (
    Seq<PageEntry>,
    PmView,
    bool,
) {
    let run = within(src, e.range.start as int, e.range.end());
    if e.vma.kernel {
        (dst, pm, true)
    } else if e.vma.private {
        let p = install_all(dst, pm, cow_run(run));
        (p.0, p.1, true)
    } else {
        copy_all(dst, pm, run)
    }
}

/// What a fork does for the pages of the areas `segs`, one area after the
/// other, up to the first area for which a frame is missing.
pub open spec fn fork_areas(
    src: Seq<PageEntry>,
    dst: Seq<PageEntry>,
    pm: PmView,
    segs: Seq<AreaEntry>,
) -> (Seq<PageEntry>, PmView, bool)
    decreases segs.len(),
{
    if segs.len() == 0 {
        (dst, pm, true)
    } else {
        let p = fork_areas(src, dst, pm, segs.drop_last());
        if p.2 {
            fork_area(src, p.0, p.1, segs.last())
        } else {
            p
        }
    }
}

/// Once an area could not be forked, the areas after it change nothing.
pub proof fn lemma_fork_areas_stops(
    src: Seq<PageEntry>,
    dst: Seq<PageEntry>,
    pm: PmView,
    segs: Seq<AreaEntry>,
    n: int,
)
    requires
        0 <= n <= segs.len(),
        !fork_areas(src, dst, pm, segs.take(n)).2,
    ensures
        fork_areas(src, dst, pm, segs) == fork_areas(src, dst, pm, segs.take(n)),
    decreases segs.len() - n,
{
    if n == segs.len() {
        assert(segs.take(n) =~= segs);
    } else {
        assert(segs.take(n + 1).drop_last() =~= segs.take(n));
        lemma_fork_areas_stops(src, dst, pm, segs, n + 1);
    }
}

/// The number of areas that a fork has taken up when it ends: all of
/// them, or those up to the first for which a frame is missing, that one
/// included.
pub open spec fn forked(src: Seq<PageEntry>, dst: Seq<PageEntry>, pm: PmView, segs: Seq<AreaEntry>)
    -> int
    decreases segs.len(),
{
    if segs.len() == 0 {
        0
    } else if fork_areas(src, dst, pm, segs.drop_last()).2 {
        segs.len() as int
    } else {
        forked(src, dst, pm, segs.drop_last())
    }
}

/// A fork that goes through for the first `n` areas and not for the next
/// has taken up `n + 1` areas.
pub proof fn lemma_forked(
    src: Seq<PageEntry>,
    dst: Seq<PageEntry>,
    pm: PmView,
    segs: Seq<AreaEntry>,
    n: int,
)
    requires
        0 <= n < segs.len(),
        fork_areas(src, dst, pm, segs.take(n)).2,
        !fork_areas(src, dst, pm, segs.take(n + 1)).2,
    ensures
        forked(src, dst, pm, segs) == n + 1,
    decreases segs.len(),
{
    if n + 1 == segs.len() {
        assert(segs.drop_last() =~= segs.take(n));
    } else {
        let d = segs.drop_last();
        assert(d.take(n) =~= segs.take(n));
        assert(d.take(n + 1) =~= segs.take(n + 1));
        lemma_forked(src, dst, pm, d, n);
        lemma_fork_areas_stops(src, dst, pm, d, n + 1);
    }
}

/// A table without writable user leaves is as a fork leaves it.
pub proof fn lemma_cow_id(es: Seq<PageEntry>)
    requires
        no_user_write(es),
    ensures
        cow_run(es) == es,
{
    assert(cow_run(es) =~= es);
}

/// The leaves of a range of pages are leaves of the table.
pub proof fn lemma_within(es: Seq<PageEntry>, lo: int, hi: int)
    requires
        pt_wf(es),
        lo <= hi,
    ensures
        0 <= below(es, lo) <= below(es, hi) <= es.len(),
        forall|i: int|
            0 <= i < within(es, lo, hi).len() ==> #[trigger] within(es, lo, hi)[i] == es[below(
                es,
                lo,
            ) + i],
        no_user_write(es) ==> no_user_write(within(es, lo, hi)),
        forall|i: int|
            0 <= i < within(es, lo, hi).len() ==> (#[trigger] within(es, lo, hi)[i]).vaddr % 4096
                == 0 && frame_ok(within(es, lo, hi)[i].paddr as int),
{
    lemma_below(es, lo);
    lemma_below(es, hi);
    lemma_below_mono(es, lo, hi);
    let w = within(es, lo, hi);
    let b = below(es, lo);
    assert forall|i: int| 0 <= i < w.len() implies (#[trigger] w[i]).vaddr % 4096 == 0 && frame_ok(
        w[i].paddr as int,
    ) by {
        assert(w[i] == es[b + i]);
    }
    if no_user_write(es) {
        assert forall|i: int| 0 <= i < w.len() implies !(pte_user((#[trigger] w[i]).flags)
            && pte_writable(w[i].flags)) by {
            assert(w[i] == es[b + i]);
        }
    }
}

/// Putting in a leaf that is no writable user leaf keeps a table free of
/// writable user leaves.
pub proof fn lemma_put_nuw(es: Seq<PageEntry>, e: PageEntry)
    requires
        pt_wf(es),
        no_user_write(es),
        !(pte_user(e.flags) && pte_writable(e.flags)),
    ensures
        no_user_write(put(es, e)),
{
    lemma_below(es, e.vaddr as int);
    let b = below(es, e.vaddr as int);
    let n = put(es, e);
    assert forall|i: int| 0 <= i < n.len() implies !(pte_user((#[trigger] n[i]).flags)
        && pte_writable(n[i].flags)) by {
        if b < es.len() && es[b].vaddr == e.vaddr {
            if i != b {
                assert(n[i] == es[i]);
            }
        } else {
            if i < b {
                assert(n[i] == es[i]);
            } else if i > b {
                assert(n[i] == es[i - 1]);
            }
        }
    }
}

/// Installing leaves that are no writable user leaves keeps the table and
/// the pool well formed and the table free of writable user leaves.
pub proof fn lemma_install_all(es: Seq<PageEntry>, pm: PmView, run: Seq<PageEntry>)
    requires
        pt_wf(es),
        pm.wf(),
        forall|i: int|
            0 <= i < run.len() ==> (#[trigger] run[i]).vaddr % 4096 == 0 && frame_ok(
                run[i].paddr as int,
            ),
    ensures
        pt_wf(install_all(es, pm, run).0),
        install_all(es, pm, run).1.wf(),
        install_all(es, pm, run).1.base == pm.base,
        install_all(es, pm, run).1.frames() == pm.frames(),
        no_user_write(es) && no_user_write(run) ==> no_user_write(install_all(es, pm, run).0),
    decreases run.len(),
{
    if run.len() > 0 {
        let d = run.drop_last();
        assert forall|i: int| 0 <= i < d.len() implies (#[trigger] d[i]).vaddr % 4096 == 0
            && frame_ok(d[i].paddr as int) by {
            assert(d[i] == run[i]);
        }
        lemma_install_all(es, pm, d);
        let p = install_all(es, pm, d);
        lemma_install(p.0, p.1, run.last());
        if no_user_write(es) && no_user_write(run) {
            assert forall|i: int| 0 <= i < d.len() implies !(pte_user((#[trigger] d[i]).flags)
                && pte_writable(d[i].flags)) by {
                assert(d[i] == run[i]);
            }
            lemma_put_nuw(p.0, run.last());
        }
    }
}

/// A deep copy keeps the table and the pool well formed, and a table free
/// of writable user leaves stays so when the copied leaves are.
pub proof fn lemma_copy_all(es: Seq<PageEntry>, pm: PmView, run: Seq<PageEntry>)
    requires
        pt_wf(es),
        pm.wf(),
        forall|i: int|
            0 <= i < run.len() ==> (#[trigger] run[i]).vaddr % 4096 == 0 && frame_ok(
                run[i].paddr as int,
            ),
    ensures
        pt_wf(copy_all(es, pm, run).0),
        copy_all(es, pm, run).1.wf(),
        copy_all(es, pm, run).1.base == pm.base,
        copy_all(es, pm, run).1.frames() == pm.frames(),
        no_user_write(es) && no_user_write(run) ==> no_user_write(copy_all(es, pm, run).0),
    decreases run.len(),
{
    if run.len() > 0 {
        let d = run.drop_last();
        assert forall|i: int| 0 <= i < d.len() implies (#[trigger] d[i]).vaddr % 4096 == 0
            && frame_ok(d[i].paddr as int) by {
            assert(d[i] == run[i]);
        }
        lemma_copy_all(es, pm, d);
        let p = copy_all(es, pm, d);
        let e = run.last();
        if no_user_write(es) && no_user_write(run) {
            assert forall|i: int| 0 <= i < d.len() implies !(pte_user((#[trigger] d[i]).flags)
                && pte_writable(d[i].flags)) by {
                assert(d[i] == run[i]);
            }
        }
        if p.2 {
            if p.1.is_live(e.paddr as int) {
                if p.1.has_free() {
                    let fresh = p.1.addr_of(p.1.lowest_free());
                    lemma_allocate(p.1, false);
                    let pm1 = p.1.allocate(false).copy_page(e.paddr as int, fresh);
                    let n = PageEntry { paddr: fresh as u64, ..e };
                    lemma_install(p.0, pm1, n);
                    if no_user_write(es) && no_user_write(run) {
                        lemma_put_nuw(p.0, n);
                    }
                }
            } else {
                lemma_install(p.0, p.1, e);
                if no_user_write(es) && no_user_write(run) {
                    lemma_put_nuw(p.0, e);
                }
            }
        }
    }
}

/// The sum over a prefix is at most the whole sum, for the lengths that
/// the accounting adds up.
pub proof fn lemma_prefix_le(segs: Seq<AreaEntry>, k: int, m: u64)
    requires
        0 <= k <= segs.len(),
    ensures
        sum_by(segs.take(k), user_weight()) <= sum_by(segs, user_weight()),
        sum_by(segs.take(k), file_weight(m)) <= sum_by(segs, file_weight(m)),
{
    assert(segs.take(k) + segs.skip(k) =~= segs);
    lemma_sum_concat(segs.take(k), segs.skip(k), user_weight());
    lemma_sum_concat(segs.take(k), segs.skip(k), file_weight(m));
    lemma_sum_nonneg(segs.skip(k), m);
}

/// The sum over one segment more.
pub proof fn lemma_sum_take(segs: Seq<AreaEntry>, k: int, f: spec_fn(AreaEntry) -> int)
    requires
        0 <= k < segs.len(),
    ensures
        sum_by(segs.take(k + 1), f) == sum_by(segs.take(k), f) + f(segs[k]),
{
    assert(segs.take(k + 1).drop_last() =~= segs.take(k));
}

/// Segments that lie wholly in `ar` are taken whole.
pub proof fn lemma_taken_all(segs: Seq<AreaEntry>, ar: Range)
    requires
        forall|i: int|
            0 <= i < segs.len() ==> (#[trigger] segs[i]).ok() && ar.is_superset_of(segs[i].range),
    ensures
        taken(segs, ar) == segs,
    decreases segs.len(),
{
    if segs.len() > 0 {
        let d = segs.drop_last();
        assert forall|i: int| 0 <= i < d.len() implies (#[trigger] d[i]).ok() && ar.is_superset_of(
            d[i].range,
        ) by {
            assert(d[i] == segs[i]);
        }
        lemma_taken_all(d, ar);
        let e = segs.last();
        assert(e == segs[segs.len() - 1]);
        assert(e.ok());
        assert(meets(e, ar));
        assert(e.part(e.cut_lo(ar), e.cut_hi(ar)) == e);
        assert(taken(segs, ar) =~= segs);
    } else {
        assert(taken(segs, ar) =~= segs);
    }
}

impl MemoryManager {
    /// Forks the address space. The child has a new identifier, the
    /// parent's areas and the parent's accounting. The leaves of the parent
    /// are write-protected where user code could write, and the child gets:
    /// the same leaves; for each private area, a copy-on-write share of its
    /// pages; for each shared area, copies of its own of the pages. Each
    /// backing object counts what the child maps. A page outside the shared
    /// areas whose frame is allocated has the same leaf in both afterwards,
    /// and the frame has the bytes that it had and a reference more for each
    /// leaf of the child that points to it.
    ///
    /// Fails with `ENOMEM` when no frame is free for the root of the child's
    /// page table, in which case nothing but the source of identifiers has
    /// changed, or when a frame is missing for a copy, in which case the
    /// parent's leaves stay write-protected and everything that the child
    /// had got is given back: the pages of the areas that it had taken up
    /// are unmapped, then every leaf that is left and the root drop their
    /// references.
    #[verifier::rlimit(80)]
    pub fn Fork(&mut self, uids: &mut UidService, files: &mut MappableTable, pm: &mut PageMgr) -> (r:
        Result<MemoryManager, Error>)
        requires
            old(self).wf(),
            old(self).files_ok(old(files)),
            old(files).wf(),
            old(pm).wf(),
            old(self).uid < old(uids).next < u64::MAX,
            forall|f: u64| #[trigger] old(files).mapped_by(f, old(uids).next) == 0,
        ensures
            final(self).wf(),
            final(files).wf(),
            final(pm).wf(),
            final(self).files_ok(final(files)),
            final(self).same_but_pt(old(self)),
            final(files).same_objects(old(files)),
            final(uids).next == old(uids).next + 1,
            !old(pm)@.has_free() ==> r == Err::<MemoryManager, Error>(
                Error::SysError(SysErr::ENOMEM),
            ) && final(self).leaves() == old(self).leaves() && final(pm)@ == old(pm)@,
            old(pm)@.has_free() ==> {
                let root = old(pm)@.addr_of(old(pm)@.lowest_free());
                let both = cow_run(old(self).leaves());
                let res = fork_areas(
                    both,
                    both,
                    retain_all(old(pm)@.allocate(true).retain(root), old(self).leaves()),
                    old(self).data.vmas.segs@,
                );
                &&& final(self).leaves() == both
                &&& no_user_write(final(self).leaves())
                &&& r.is_ok() == res.2
                &&& !res.2 ==> {
                    let given = unmap_areas(
                        res.0,
                        res.1,
                        old(self).data.vmas.segs@.take(
                            forked(
                                both,
                                both,
                                retain_all(
                                    old(pm)@.allocate(true).retain(root),
                                    old(self).leaves(),
                                ),
                                old(self).data.vmas.segs@,
                            ),
                        ),
                    );
                    final(pm)@ == release_all(given.1, given.0).release(root)
                }
                &&& r.is_ok() ==> {
                    let c = r.unwrap();
                    &&& c.wf()
                    &&& c.files_ok(final(files))
                    &&& c.uid == old(uids).next
                    &&& c.data.inited
                    &&& c.data.pt.root == root
                    &&& c.leaves() == res.0
                    &&& final(pm)@ == res.1
                    &&& no_user_write(c.leaves())
                    &&& c.data.vmas.segs@ == old(self).data.vmas.segs@
                    &&& c.data.vmas.range == old(self).data.vmas.range
                    &&& c.data.brkInfo == old(self).data.brkInfo
                    &&& c.data.usageAS == old(self).data.usageAS
                    &&& c.data.layout == old(self).data.layout
                    &&& c.data.curRSS == old(self).data.curRSS
                    &&& c.data.maxRSS == old(self).data.maxRSS
                    &&& c.data.sharedLoadsOffset == old(self).data.sharedLoadsOffset
                    &&& c.data.auxv@ == old(self).data.auxv@
                    &&& c.data.argv == old(self).data.argv
                    &&& c.data.envv == old(self).data.envv
                    &&& c.data.executable == old(self).data.executable
                    &&& c.data.dumpability == crate::mm::Dumpability::NOT_DUMPABLE
                    &&& forall|va: int|
                        (#[trigger] crate::pagetable::lookup(old(self).leaves(), va)).is_some()
                            && !crate::sharing::in_shared(old(self).data.vmas.segs@, va) && old(
                            pm,
                        )@.is_live(
                            crate::pagetable::lookup(old(self).leaves(), va).unwrap().paddr as int,
                        ) ==> {
                            let l = crate::pagetable::lookup(old(self).leaves(), va).unwrap();
                            &&& c.data.pt.leaf(va) == Some(crate::pagetable::cow(l))
                            &&& final(self).data.pt.leaf(va) == Some(crate::pagetable::cow(l))
                            &&& final(pm)@.is_live(l.paddr as int)
                            &&& final(pm)@.bytes(l.paddr as int, 4096) == old(pm)@.bytes(
                                l.paddr as int,
                                4096,
                            )
                            &&& crate::afterfork::far_from_full(old(pm)@.ref_of(l.paddr as int))
                                ==> final(pm)@.ref_of(l.paddr as int) == old(pm)@.ref_of(
                                l.paddr as int,
                            ) + crate::laws::leaves_to(c.leaves(), l.paddr as int)
                        }
                    &&& forall|f: u64, u: u64| #[trigger]
                        final(files).mapped_by(f, u) == old(files).mapped_by(f, u) + (if u
                            == old(uids).next {
                            old(self).data.vmas.file_span(f)
                        } else {
                            0
                        })
                }
            },
            r.is_err() ==> r == Err::<MemoryManager, Error>(Error::SysError(SysErr::ENOMEM))
                && forall|f: u64, u: u64| #[trigger]
                final(files).mapped_by(f, u) == old(files).mapped_by(f, u),
    {
        let mut mm2 = MemoryManager::Empty(uids);
        let uid2 = mm2.uid;
        let pt2 = match self.data.pt.Fork(pm) {
            Err(e) => {
                return Err(e);
            },
            Ok(p) => p,
        };
        let ghost S = self.data.vmas.segs@;
        let ghost P = self.data.pt.entries@;
        let ghost pm1 = pm@;
        proof {
            lemma_cow_run(old(self).leaves());
            assert(no_user_write(P));
        }
        mm2.data.inited = true;
        mm2.data.brkInfo = self.data.brkInfo;
        mm2.data.layout = self.data.layout;
        mm2.data.curRSS = self.data.curRSS;
        mm2.data.maxRSS = self.data.maxRSS;
        mm2.data.sharedLoadsOffset = self.data.sharedLoadsOffset;
        mm2.data.argv = self.data.argv;
        mm2.data.envv = self.data.envv;
        mm2.data.executable = self.data.executable;
        let range = self.data.vmas.range;
        mm2.data.vmas.Reset(range.Start(), range.Len());
        mm2.data.pt = pt2;
        let na = self.data.auxv.len();
        let mut a: usize = 0;
        while a < na
            invariant
                a <= na,
                na == self.data.auxv@.len(),
                mm2.data.auxv@ == self.data.auxv@.take(a as int),
                mm2.uid == uid2,
                mm2.data.inited,
                mm2.data.brkInfo == self.data.brkInfo,
                mm2.data.layout == self.data.layout,
                mm2.data.curRSS == self.data.curRSS,
                mm2.data.maxRSS == self.data.maxRSS,
                mm2.data.sharedLoadsOffset == self.data.sharedLoadsOffset,
                mm2.data.argv == self.data.argv,
                mm2.data.envv == self.data.envv,
                mm2.data.executable == self.data.executable,
                mm2.data.dumpability == crate::mm::Dumpability::NOT_DUMPABLE,
                mm2.data.usageAS == 0,
                mm2.data.vmas.range == self.data.vmas.range,
                mm2.data.vmas.segs@.len() == 0,
                mm2.data.pt == pt2,
            decreases na - a,
        {
            mm2.data.auxv.push(self.data.auxv[a]);
            assert(self.data.auxv@.take(a + 1) =~= self.data.auxv@.take(a as int).push(
                self.data.auxv@[a as int],
            ));
            a = a + 1;
        }
        proof {
            assert(self.data.auxv@.take(na as int) =~= self.data.auxv@);
            assert(mm2.data.vmas.segs@ =~= S.take(0));
            assert(mm2.data.vmas.wf());
            assert(sum_by(S.take(0), user_weight()) == 0);
            assert forall|m: u64| #[trigger] sum_by(S.take(0), file_weight(m)) == 0 by {}
        }
        let n = self.data.vmas.segs.len();
        let mut k: usize = 0;
        while k < n
            invariant
                k <= n,
                n == S.len(),
                S == self.data.vmas.segs@,
                S == old(self).data.vmas.segs@,
                self.wf(),
                self.files_ok(files),
                self.same_but_pt(old(self)),
                self.leaves() == P,
                P == cow_run(old(self).leaves()),
                no_user_write(P),
                pm1 == retain_all(
                    old(pm)@.allocate(true).retain(
                        old(pm)@.addr_of(old(pm)@.lowest_free()),
                    ),
                    old(self).leaves(),
                ),
                files.wf(),
                pm.wf(),
                files.same_objects(old(files)),
                old(self).files_ok(old(files)),
                old(self).uid < uid2,
                uid2 == old(uids).next,
                uids.next == old(uids).next + 1,
                old(pm)@.has_free(),
                forall|f: u64| #[trigger] old(files).mapped_by(f, uid2) == 0,
                mm2.wf(),
                mm2.files_ok(files),
                mm2.uid == uid2,
                mm2.data.inited,
                mm2.data.pt.root == old(pm)@.addr_of(old(pm)@.lowest_free()),
                mm2.data.brkInfo == self.data.brkInfo,
                mm2.data.layout == self.data.layout,
                mm2.data.curRSS == self.data.curRSS,
                mm2.data.maxRSS == self.data.maxRSS,
                mm2.data.sharedLoadsOffset == self.data.sharedLoadsOffset,
                mm2.data.auxv@ == self.data.auxv@,
                mm2.data.argv == self.data.argv,
                mm2.data.envv == self.data.envv,
                mm2.data.executable == self.data.executable,
                mm2.data.dumpability == crate::mm::Dumpability::NOT_DUMPABLE,
                mm2.data.vmas.range == self.data.vmas.range,
                mm2.data.vmas.segs@ == S.take(k as int),
                no_user_write(mm2.leaves()),
                (mm2.leaves(), pm@, true) == fork_areas(P, P, pm1, S.take(k as int)),
                forall|f: u64, u: u64| #[trigger]
                    files.mapped_by(f, u) == old(files).mapped_by(f, u) + (if u == uid2 {
                        sum_by(S.take(k as int), file_weight(f))
                    } else {
                        0
                    }),
            decreases n - k,
        {
            let e = self.data.vmas.segs[k];
            proof {
                self.lemma_child_fits(&mm2, files, old(files), k as int);
                lemma_sum_take(S, k as int, user_weight());
                assert forall|m: u64| #[trigger]
                    sum_by(S.take(k + 1), file_weight(m)) == sum_by(S.take(k as int), file_weight(m))
                        + file_len(S[k as int], m) by {
                    lemma_sum_take(S, k as int, file_weight(m));
                }
                mm2.data.lemma_place_of(e.range, k as int);
            }
            match mm2.data.InsertArea(uid2, files, &e.range, e.vma) {
                Err(err) => {
                    return Err(err);
                },
                Ok(_) => {},
            }
            proof {
                assert(mm2.data.vmas.segs@ =~= S.take(k + 1));
                assert(S.take(k + 1).drop_last() =~= S.take(k as int));
                assert(S.take(k + 1).last() == e);
                assert(e.ok());
                lemma_within(P, e.range.start as int, e.range.end());
                assert forall|i: int|
                    0 <= i < self.data.vmas.segs@.len() && (
                    #[trigger] self.data.vmas.segs@[i]).vma.mappable.is_some() implies files.has(
                    self.data.vmas.segs@[i].vma.mappable.unwrap(),
                ) by {}
            }
            if !e.vma.kernel {
                let ghost run = within(P, e.range.start as int, e.range.end());
                if e.vma.private {
                    proof {
                        lemma_cow_id(run);
                        lemma_install_all(mm2.leaves(), pm@, run);
                        let i = below(P, e.range.start as int);
                        let j = below(P, e.range.end());
                        assert(P.take(i) + run + P.skip(j) =~= P);
                    }
                    let _ = self.data.pt.ForkRange(
                        &mut mm2.data.pt,
                        e.range.start,
                        e.range.len,
                        pm,
                    );
                } else {
                    proof {
                        lemma_copy_all(mm2.leaves(), pm@, run);
                    }
                    match self.data.pt.CopyRange(&mut mm2.data.pt, e.range.start, e.range.len, pm) {
                        Err(err) => {
                            proof {
                                lemma_fork_areas_stops(P, P, pm1, S, k + 1);
                                lemma_forked(P, P, pm1, S, k as int);
                                lemma_taken_all(mm2.data.vmas.segs@, mm2.data.vmas.range);
                            }
                            let ghost reached = (mm2.leaves(), pm@);
                            let whole = mm2.data.vmas.range;
                            let _ = mm2.data.RemoveVMAsLocked(uid2, files, pm, &whole);
                            let ghost given = (mm2.leaves(), pm@);
                            mm2.data.pt.Release(pm);
                            proof {
                                assert(given == unmap_areas(reached.0, reached.1, S.take(k + 1)));
                                assert(pm@ == release_all(given.1, given.0).release(
                                    old(pm)@.addr_of(old(pm)@.lowest_free()),
                                ));
                            }
                            return Err(Error::SysError(SysErr::ENOMEM));
                        },
                        Ok(_) => {},
                    }
                }
            }
            k = k + 1;
        }
        proof {
            assert(S.take(n as int) =~= S);
            assert forall|va: int|
                (#[trigger] crate::pagetable::lookup(old(self).leaves(), va)).is_some()
                    && !crate::sharing::in_shared(S, va) && old(pm)@.is_live(
                    crate::pagetable::lookup(old(self).leaves(), va).unwrap().paddr as int,
                ) implies {
                let l = crate::pagetable::lookup(old(self).leaves(), va).unwrap();
                &&& mm2.data.pt.leaf(va) == Some(crate::pagetable::cow(l))
                &&& self.data.pt.leaf(va) == Some(crate::pagetable::cow(l))
                &&& pm@.is_live(l.paddr as int)
                &&& pm@.bytes(l.paddr as int, 4096) == old(pm)@.bytes(l.paddr as int, 4096)
                &&& crate::afterfork::far_from_full(old(pm)@.ref_of(l.paddr as int)) ==> pm@.ref_of(
                    l.paddr as int,
                ) == old(pm)@.ref_of(l.paddr as int) + crate::laws::leaves_to(
                    mm2.leaves(),
                    l.paddr as int,
                )
            } by {
                crate::afterfork::law_fork_private_page(old(self).leaves(), old(pm)@, S, va, 0);
            }
        }
        Ok(mm2)
    }

    /// The next area of the parent fits into the child: its interval is
    /// free there, and neither the usage nor the count of its backing object
    /// can overflow.
    pub proof fn lemma_child_fits(
        &self,
        child: &MemoryManager,
        files: &MappableTable,
        files0: &MappableTable,
        k: int,
    )
        requires
            self.wf(),
            child.wf(),
            self.files_ok(files0),
            files.same_objects(files0),
            0 <= k < self.data.vmas.segs@.len(),
            child.data.vmas.segs@ == self.data.vmas.segs@.take(k),
            child.data.vmas.range == self.data.vmas.range,
            forall|f: u64| #[trigger]
                files.mapped_by(f, child.uid) == sum_by(
                    self.data.vmas.segs@.take(k),
                    file_weight(f),
                ),
        ensures
            (AreaEntry {
                range: self.data.vmas.segs@[k].range,
                vma: self.data.vmas.segs@[k].vma,
            }).ok(),
            child.data.insert_result(
                child.uid,
                files,
                self.data.vmas.segs@[k].range,
                self.data.vmas.segs@[k].vma,
            ) == Ok::<(), Error>(()),
            child.data.is_place(self.data.vmas.segs@[k].range, k),
    {
        let S = self.data.vmas.segs@;
        let e = S[k];
        assert(e.ok());
        let C = child.data.vmas.segs@;
        assert forall|i: int| 0 <= i < C.len() implies !(#[trigger] C[i]).range.overlaps(
            e.range,
        ) && C[i].range.end() <= e.range.start by {
            assert(C[i] == S[i]);
            assert(S[i].range.end() <= S[k].range.start);
        }
        lemma_prefix_le(S, k + 1, 0);
        lemma_sum_take(S, k, user_weight());
        if e.vma.mappable.is_some() {
            let m = e.vma.mappable.unwrap();
            lemma_prefix_le(S, k + 1, m);
            lemma_sum_take(S, k, file_weight(m));
            assert(files0.has(m));
            assert(files0.mapped_by(m, self.uid) == self.data.vmas.file_span(m));
        }
    }
}

} // verus!
