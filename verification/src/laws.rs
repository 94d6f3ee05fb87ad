//! What holds of the memory manager as a whole: laws that relate several
//! of its operations.
use vstd::prelude::*;
use crate::addr::page_down;
use crate::areaset::{AreaEntry, AreaSet};
use crate::blocks::{coalesce, lemma_coalesce, runs_ok};
use crate::fork::{fork_areas, lemma_copy_all, lemma_install_all, lemma_within, no_user_write};
use crate::lifecycle::kernel_only;
use crate::linux_def::IoVec;
use crate::mappable::MappableTable;
use crate::mm::{cow_page, lemma_allocate, lemma_cow_page, pages_of};
use crate::pagemgr::PmView;
use crate::pageopts::{pte_user, pte_writable, user_rw_bits};
use crate::pagetable::{
    addresses, all_mapped, copy_all, cow_run, install, install_all, lemma_cow_run, lemma_lookup,
    lemma_put, lookup, pt_wf, PageEntry,
};
use crate::translate::{blocks_of, lemma_v2p, v2p_step};

verus! {

/// After an address space was cleared, no area holds an address that no
/// area of the kernel held before.
pub proof fn law_clear_leaves_kernel(set: &AreaSet, before: Seq<AreaEntry>, addr: int)
    requires
        set.segs@ == kernel_only(before),
        forall|i: int|
            0 <= i < before.len() && (#[trigger] before[i]).vma.kernel ==> !before[i].range.contains(
                addr,
            ),
    ensures
        set.area_at(addr).is_none(),
        !set.covers(addr),
{
    lemma_kernel_from(before);
    if set.covers(addr) {
        let k = choose|k: int|
            0 <= k < set.segs@.len() && (#[trigger] set.segs@[k]).range.contains(addr);
        let e = set.segs@[k];
        let i = choose|i: int| 0 <= i < before.len() && #[trigger] before[i] == e;
        assert(before[i].vma.kernel);
    }
}

/// After the pages of areas were unmapped, no page of these areas has a
/// leaf.
pub proof fn law_unmapped_areas(es: Seq<PageEntry>, pm: PmView, run: Seq<AreaEntry>, k: int, va: int)
    requires
        pt_wf(es),
        pm.wf(),
        forall|i: int| 0 <= i < run.len() ==> (#[trigger] run[i]).range.wf(),
        0 <= k < run.len(),
        run[k].range.contains(va),
    ensures
        pt_wf(crate::lifecycle::unmap_areas(es, pm, run).0),
        lookup(crate::lifecycle::unmap_areas(es, pm, run).0, va).is_none(),
    decreases run.len(),
{
    lemma_unmap_areas(es, pm, run, va);
    let d = run.drop_last();
    assert forall|i: int| 0 <= i < d.len() implies (#[trigger] d[i]).range.wf() by {
        assert(d[i] == run[i]);
    }
    lemma_unmap_areas(es, pm, d, va);
    let p = crate::lifecycle::unmap_areas(es, pm, d);
    let r = run.last().range;
    assert(run.last() == run[run.len() - 1]);
    crate::pagetable::lemma_without(p.0, r.start as int, r.end());
    if k < run.len() - 1 {
        assert(d[k] == run[k]);
        law_unmapped_areas(es, pm, d, k, va);
    }
}

/// Unmapping the pages of areas keeps the table well formed and gives no
/// page a leaf that had none.
pub proof fn lemma_unmap_areas(es: Seq<PageEntry>, pm: PmView, run: Seq<AreaEntry>, va: int)
    requires
        pt_wf(es),
        pm.wf(),
        forall|i: int| 0 <= i < run.len() ==> (#[trigger] run[i]).range.wf(),
    ensures
        pt_wf(crate::lifecycle::unmap_areas(es, pm, run).0),
        lookup(es, va).is_none() ==> lookup(crate::lifecycle::unmap_areas(es, pm, run).0, va).is_none(),
    decreases run.len(),
{
    if run.len() > 0 {
        let d = run.drop_last();
        assert forall|i: int| 0 <= i < d.len() implies (#[trigger] d[i]).range.wf() by {
            assert(d[i] == run[i]);
        }
        lemma_unmap_areas(es, pm, d, va);
        let p = crate::lifecycle::unmap_areas(es, pm, d);
        let r = run.last().range;
        assert(run.last() == run[run.len() - 1]);
        crate::pagetable::lemma_without(p.0, r.start as int, r.end());
    }
}

/// Each of the kernel's areas among `segs` is one of `segs`, and the
/// kernel's.
pub proof fn lemma_kernel_from(segs: Seq<AreaEntry>)
    ensures
        forall|k: int|
            0 <= k < kernel_only(segs).len() ==> (#[trigger] kernel_only(segs)[k]).vma.kernel
                && exists|i: int| 0 <= i < segs.len() && #[trigger] segs[i] == kernel_only(segs)[k],
    decreases segs.len(),
{
    if segs.len() > 0 {
        let d = segs.drop_last();
        lemma_kernel_from(d);
        let ko = kernel_only(segs);
        assert forall|k: int| 0 <= k < ko.len() implies (#[trigger] ko[k]).vma.kernel && exists|
            i: int,
        |
            0 <= i < segs.len() && #[trigger] segs[i] == ko[k] by {
            if segs.last().vma.kernel && k == ko.len() - 1 {
                assert(ko[k] == segs[segs.len() - 1]);
            } else {
                assert(ko[k] == kernel_only(d)[k]);
                let i = choose|i: int| 0 <= i < d.len() && #[trigger] d[i] == kernel_only(d)[k];
                assert(segs[i] == d[i]);
            }
        }
    }
}

/// A run installs, for the page at `va`, nothing but leaves with the flag
/// bits `f`.
pub open spec fn run_flags(run: Seq<PageEntry>, va: int, f: u64) -> bool {
    forall|i: int| 0 <= i < run.len() && (#[trigger] run[i]).vaddr == va ==> run[i].flags == f
}

/// A table that gets leaves installed keeps a leaf for every page that had
/// one, with the same flag bits where the run brings no others.
pub proof fn lemma_install_all_keeps(
    es: Seq<PageEntry>,
    pm: PmView,
    run: Seq<PageEntry>,
    va: int,
    f: u64,
)
    requires
        pt_wf(es),
        pm.wf(),
        forall|i: int|
            0 <= i < run.len() ==> (#[trigger] run[i]).vaddr % 4096 == 0 && crate::addr::frame_ok(
                run[i].paddr as int,
            ),
        lookup(es, va).is_some(),
        lookup(es, va).unwrap().flags == f,
        run_flags(run, va, f),
    ensures
        lookup(install_all(es, pm, run).0, va).is_some(),
        lookup(install_all(es, pm, run).0, va).unwrap().flags == f,
    decreases run.len(),
{
    if run.len() > 0 {
        let d = run.drop_last();
        assert forall|i: int| 0 <= i < d.len() implies (#[trigger] d[i]).vaddr % 4096 == 0
            && crate::addr::frame_ok(d[i].paddr as int) by {
            assert(d[i] == run[i]);
        }
        assert forall|i: int| 0 <= i < d.len() && (#[trigger] d[i]).vaddr == va implies d[i].flags
            == f by {
            assert(d[i] == run[i]);
        }
        lemma_install_all_keeps(es, pm, d, va, f);
        lemma_install_all(es, pm, d);
        let p = install_all(es, pm, d);
        assert(run.last() == run[run.len() - 1]);
        lemma_put(p.0, run.last());
    }
}

/// A table that gets deep copies keeps a leaf for every page that had one,
/// with the same flag bits where the run brings no others.
pub proof fn lemma_copy_all_keeps(
    es: Seq<PageEntry>,
    pm: PmView,
    run: Seq<PageEntry>,
    va: int,
    f: u64,
)
    requires
        pt_wf(es),
        pm.wf(),
        forall|i: int|
            0 <= i < run.len() ==> (#[trigger] run[i]).vaddr % 4096 == 0 && crate::addr::frame_ok(
                run[i].paddr as int,
            ),
        lookup(es, va).is_some(),
        lookup(es, va).unwrap().flags == f,
        run_flags(run, va, f),
    ensures
        lookup(copy_all(es, pm, run).0, va).is_some(),
        lookup(copy_all(es, pm, run).0, va).unwrap().flags == f,
    decreases run.len(),
{
    if run.len() > 0 {
        let d = run.drop_last();
        assert forall|i: int| 0 <= i < d.len() implies (#[trigger] d[i]).vaddr % 4096 == 0
            && crate::addr::frame_ok(d[i].paddr as int) by {
            assert(d[i] == run[i]);
        }
        assert forall|i: int| 0 <= i < d.len() && (#[trigger] d[i]).vaddr == va implies d[i].flags
            == f by {
            assert(d[i] == run[i]);
        }
        lemma_copy_all_keeps(es, pm, d, va, f);
        lemma_copy_all(es, pm, d);
        let p = copy_all(es, pm, d);
        let e = run.last();
        assert(e == run[run.len() - 1]);
        if p.2 {
            if p.1.is_live(e.paddr as int) {
                if p.1.has_free() {
                    let fresh = p.1.addr_of(p.1.lowest_free());
                    lemma_allocate(p.1, false);
                    lemma_put(p.0, PageEntry { paddr: fresh as u64, ..e });
                }
            } else {
                lemma_put(p.0, e);
            }
        }
    }
}

/// The leaves of a range of pages bring, for a page that has a leaf in the
/// table, nothing but the flag bits of that leaf.
pub proof fn lemma_within_flags(es: Seq<PageEntry>, lo: int, hi: int, va: int)
    requires
        pt_wf(es),
        lo <= hi,
        lookup(es, va).is_some(),
    ensures
        run_flags(crate::pagetable::within(es, lo, hi), va, lookup(es, va).unwrap().flags),
{
    let w = crate::pagetable::within(es, lo, hi);
    lemma_within(es, lo, hi);
    lemma_lookup(es, va);
    assert forall|i: int| 0 <= i < w.len() && (#[trigger] w[i]).vaddr == va implies w[i].flags
        == lookup(es, va).unwrap().flags by {
        let k = crate::pagetable::below(es, lo) + i;
        assert(w[i] == es[k]);
    }
}

/// What a fork does for the pages of areas keeps the child's table well
/// formed and free of writable user leaves, and keeps, for a page that has
/// the same flag bits in both tables, a leaf with those bits.
pub proof fn lemma_fork_areas(
    src: Seq<PageEntry>,
    dst: Seq<PageEntry>,
    pm: PmView,
    segs: Seq<AreaEntry>,
    va: int,
)
    requires
        pt_wf(src),
        pt_wf(dst),
        pm.wf(),
        no_user_write(src),
        no_user_write(dst),
        forall|i: int| 0 <= i < segs.len() ==> (#[trigger] segs[i]).range.wf(),
        lookup(src, va).is_some(),
        lookup(dst, va).is_some(),
        lookup(dst, va).unwrap().flags == lookup(src, va).unwrap().flags,
    ensures
        pt_wf(fork_areas(src, dst, pm, segs).0),
        fork_areas(src, dst, pm, segs).1.wf(),
        no_user_write(fork_areas(src, dst, pm, segs).0),
        lookup(fork_areas(src, dst, pm, segs).0, va).is_some(),
        lookup(fork_areas(src, dst, pm, segs).0, va).unwrap().flags == lookup(
            src,
            va,
        ).unwrap().flags,
    decreases segs.len(),
{
    if segs.len() > 0 {
        let d = segs.drop_last();
        assert forall|i: int| 0 <= i < d.len() implies (#[trigger] d[i]).range.wf() by {
            assert(d[i] == segs[i]);
        }
        lemma_fork_areas(src, dst, pm, d, va);
        let p = fork_areas(src, dst, pm, d);
        let e = segs.last();
        assert(e == segs[segs.len() - 1]);
        let f = lookup(src, va).unwrap().flags;
        if p.2 && !e.vma.kernel {
            let run = crate::pagetable::within(src, e.range.start as int, e.range.end());
            lemma_within(src, e.range.start as int, e.range.end());
            lemma_within_flags(src, e.range.start as int, e.range.end(), va);
            if e.vma.private {
                crate::fork::lemma_cow_id(run);
                lemma_install_all(p.0, p.1, run);
                lemma_install_all_keeps(p.0, p.1, run, va, f);
            } else {
                lemma_copy_all(p.0, p.1, run);
                lemma_copy_all_keeps(p.0, p.1, run, va, f);
            }
        }
    }
}

/// A fork shares every page copy-on-write: a user leaf of the parent that
/// could be written is read-only in the parent afterwards, with the same
/// frame, and the child has a read-only leaf for the page.
pub proof fn law_fork_write_protects(
    before: Seq<PageEntry>,
    pm: PmView,
    segs: Seq<AreaEntry>,
    va: int,
)
    requires
        pt_wf(before),
        pm.wf(),
        forall|i: int| 0 <= i < segs.len() ==> (#[trigger] segs[i]).range.wf(),
        lookup(before, va).is_some(),
        pte_user(lookup(before, va).unwrap().flags),
    ensures
        ({
            let parent = cow_run(before);
            let child = fork_areas(parent, parent, pm, segs).0;
            &&& lookup(parent, va).is_some()
            &&& lookup(parent, va).unwrap().paddr == lookup(before, va).unwrap().paddr
            &&& !pte_writable(lookup(parent, va).unwrap().flags)
            &&& lookup(child, va).is_some()
            &&& !pte_writable(lookup(child, va).unwrap().flags)
        }),
{
    let parent = cow_run(before);
    lemma_cow_run(before);
    crate::pageopts::lemma_write_bit(lookup(before, va).unwrap().flags);
    lemma_fork_areas(parent, parent, pm, segs, va);
}

/// Number of leaves of the table that point to the frame at `pa`.
pub open spec fn leaves_to(es: Seq<PageEntry>, pa: int) -> int
    decreases es.len(),
{
    if es.len() == 0 {
        0
    } else {
        leaves_to(es.drop_last(), pa) + if es.last().paddr == pa {
            1int
        } else {
            0int
        }
    }
}

/// A table with a leaf to a frame has at least one leaf to it.
pub proof fn lemma_leaves_to(es: Seq<PageEntry>, pa: int, k: int)
    requires
        0 <= k < es.len(),
        es[k].paddr == pa,
    ensures
        leaves_to(es, pa) >= 1,
    decreases es.len(),
{
    lemma_leaves_nonneg(es.drop_last(), pa);
    if k < es.len() - 1 {
        lemma_leaves_to(es.drop_last(), pa, k);
    }
}

pub proof fn lemma_leaves_nonneg(es: Seq<PageEntry>, pa: int)
    ensures
        leaves_to(es, pa) >= 0,
    decreases es.len(),
{
    if es.len() > 0 {
        lemma_leaves_nonneg(es.drop_last(), pa);
    }
}

/// After a write fault was resolved by copy-on-write, the page can be
/// written in the faulting address space, and its frame is that address
/// space's own: no leaf of another table `other` points to it, so every
/// table that shared the old frame still has it, read-only as before.
///
/// This holds where the pool counts the leaves of both tables: see
/// `counted`.
pub proof fn law_cow_owner(
    es: Seq<PageEntry>,
    other: Seq<PageEntry>,
    pm: PmView,
    page: u64,
    vma: crate::vma::VMA,
)
    requires
        pt_wf(es),
        pm.wf(),
        page % 4096 == 0,
        lookup(es, page as int).is_some(),
        !pte_writable(lookup(es, page as int).unwrap().flags),
        cow_page(es, pm, page, vma).2.is_none(),
        counted(pm, es, other),
    ensures
        ({
            let after = cow_page(es, pm, page, vma).0;
            let leaf = lookup(after, page as int);
            &&& leaf.is_some()
            &&& pte_writable(leaf.unwrap().flags)
            &&& forall|k: int| 0 <= k < other.len() ==> (#[trigger] other[k]).paddr != leaf.unwrap().paddr
        }),
{
    lemma_cow_page(es, pm, page, vma);
    let e = lookup(es, page as int).unwrap();
    let after = cow_page(es, pm, page, vma).0;
    let leaf = lookup(after, page as int).unwrap();
    assert(page_down(page as int) == page);
    lemma_lookup(es, page as int);
    let at = choose|k: int| 0 <= k < es.len() && (#[trigger] es[k]).vaddr == page;
    lemma_leaves_to(es, e.paddr as int, at);
    assert(pm.is_frame(e.paddr as int));
    assert(pm.ref_of(e.paddr as int) >= leaves_to(es, e.paddr as int) + leaves_to(
        other,
        e.paddr as int,
    ));
    if pm.ref_of(e.paddr as int) == 1 && vma.mappable.is_none() {
        let n = PageEntry { flags: user_rw_bits(), ..e };
        lemma_put(es, n);
        assert(leaf == n);
        assert forall|k: int| 0 <= k < other.len() implies (#[trigger] other[k]).paddr
            != leaf.paddr by {
            if other[k].paddr == e.paddr {
                lemma_leaves_to(other, e.paddr as int, k);
            }
        }
    } else {
        let fresh = pm.addr_of(pm.lowest_free());
        lemma_allocate(pm, false);
        let n = PageEntry { vaddr: e.vaddr, paddr: fresh as u64, flags: user_rw_bits() };
        lemma_put(es, n);
        assert(leaf == n);
        assert(!pm.is_live(fresh));
    }
}

/// Handing out a frame, and writing to the pool, keep the pool counting
/// the leaves.
pub proof fn lemma_allocate_counts(pm: PmView, es: Seq<PageEntry>, other: Seq<PageEntry>, zeroed: bool)
    requires
        pm.wf(),
        pm.has_free(),
        counted(pm, es, other),
    ensures
        counted(pm.allocate(zeroed), es, other),
        forall|src: int, dst: int| #[trigger]
            counted(pm.allocate(zeroed).copy_page(src, dst), es, other),
{
    lemma_allocate(pm, zeroed);
    let p = pm.allocate(zeroed);
    assert forall|f: int| p.is_frame(f) implies p.ref_of(f) >= #[trigger] leaves_to(es, f)
        + leaves_to(other, f) by {
        assert(pm.ref_of(f) >= leaves_to(es, f) + leaves_to(other, f));
    }
    assert forall|k: int|
        0 <= k < es.len() && p.is_frame((#[trigger] es[k]).paddr as int) implies p.is_live(
        es[k].paddr as int,
    ) by {
        assert(pm.is_live(es[k].paddr as int));
    }
    assert forall|k: int|
        0 <= k < other.len() && p.is_frame((#[trigger] other[k]).paddr as int) implies p.is_live(
        other[k].paddr as int,
    ) by {
        assert(pm.is_live(other[k].paddr as int));
    }
    assert forall|src: int, dst: int| #[trigger]
        counted(p.copy_page(src, dst), es, other) by {
        let q = p.copy_page(src, dst);
        assert forall|f: int| q.is_frame(f) implies q.ref_of(f) >= #[trigger] leaves_to(es, f)
            + leaves_to(other, f) by {
            assert(p.ref_of(f) >= leaves_to(es, f) + leaves_to(other, f));
        }
        assert forall|k: int|
            0 <= k < es.len() && q.is_frame((#[trigger] es[k]).paddr as int) implies q.is_live(
            es[k].paddr as int,
        ) by {
            assert(p.is_live(es[k].paddr as int));
        }
        assert forall|k: int|
            0 <= k < other.len() && q.is_frame((#[trigger] other[k]).paddr as int)
                implies q.is_live(other[k].paddr as int) by {
            assert(p.is_live(other[k].paddr as int));
        }
    }
}

/// Resolving a write fault keeps the pool counting the leaves of both
/// tables.
pub proof fn law_cow_counts(
    es: Seq<PageEntry>,
    other: Seq<PageEntry>,
    pm: PmView,
    page: u64,
    vma: crate::vma::VMA,
)
    requires
        pt_wf(es),
        pm.wf(),
        counted(pm, es, other),
    ensures
        counted(cow_page(es, pm, page, vma).1, cow_page(es, pm, page, vma).0, other),
{
    let pg = page_down(page as int);
    match lookup(es, pg) {
        None => {},
        Some(e) => {
            lemma_lookup(es, pg);
            if !pte_writable(e.flags) && pm.is_live(e.paddr as int) {
                if pm.ref_of(e.paddr as int) == 1 && vma.mappable.is_none() {
                    let n = PageEntry { flags: user_rw_bits(), ..e };
                    lemma_put(es, n);
                    let after = crate::pagetable::put(es, n);
                    assert forall|f: int|
                        pm.is_frame(f) implies pm.ref_of(f) >= #[trigger] leaves_to(after, f)
                        + leaves_to(other, f) by {
                        lemma_leaves_put(es, n, f);
                        assert(pm.ref_of(f) >= leaves_to(es, f) + leaves_to(other, f));
                    }
                    assert forall|k: int|
                        0 <= k < after.len() && pm.is_frame((#[trigger] after[k]).paddr as int)
                            implies pm.is_live(after[k].paddr as int) by {
                        let x = after[k];
                        lemma_lookup(after, x.vaddr as int);
                        assert(lookup(after, x.vaddr as int) == Some(x));
                        if x.vaddr != n.vaddr {
                            lemma_lookup(es, x.vaddr as int);
                            let j = choose|j: int|
                                0 <= j < es.len() && (#[trigger] es[j]).vaddr == x.vaddr;
                            assert(es[j] == x);
                        }
                    }
                } else if pm.has_free() {
                    let fresh = pm.addr_of(pm.lowest_free());
                    lemma_allocate(pm, false);
                    lemma_allocate_counts(pm, es, other, false);
                    let pm1 = pm.allocate(false).copy_page(e.paddr as int, fresh);
                    assert(counted(pm1, es, other));
                    let n = PageEntry { vaddr: e.vaddr, paddr: fresh as u64, flags: user_rw_bits() };
                    law_install_counts(es, other, pm1, n);
                }
            }
        },
    }
}

/// Serving a fault on anonymous memory keeps the pool counting the leaves
/// of both tables; so does serving a fault on a file mapping whose frame is
/// allocated and has a count below the largest.
pub proof fn law_fault_counts(
    es: Seq<PageEntry>,
    other: Seq<PageEntry>,
    pm: PmView,
    vma: crate::vma::VMA,
    range: crate::range::Range,
    page: u64,
    files: &MappableTable,
)
    requires
        pt_wf(es),
        pm.wf(),
        files.wf(),
        counted(pm, es, other),
        crate::mm::backing(vma, range, page, files) matches Ok(Some(pa)) ==> (pm.is_frame(pa as int)
            ==> pm.is_live(pa as int) && pm.ref_of(pa as int) < u64::MAX),
    ensures
        counted(
            crate::mm::fault_in(es, pm, vma, range, page, files).1,
            crate::mm::fault_in(es, pm, vma, range, page, files).0,
            other,
        ),
{
    if page % 4096 == 0 && lookup(es, page as int).is_none() {
        match crate::mm::backing(vma, range, page, files) {
            Err(e) => {},
            Ok(Some(pa)) => {
                let m = vma.mappable.unwrap();
                assert(files.files@[m as int].wf());
                law_install_counts(
                    es,
                    other,
                    pm,
                    PageEntry { vaddr: page, paddr: pa, flags: crate::mm::leaf_bits(vma) },
                );
            },
            Ok(None) => {
                if pm.has_free() {
                    let fresh = pm.addr_of(pm.lowest_free()) as u64;
                    lemma_allocate(pm, false);
                    lemma_allocate_counts(pm, es, other, false);
                    law_install_counts(
                        es,
                        other,
                        pm.allocate(false),
                        PageEntry { vaddr: page, paddr: fresh, flags: crate::mm::leaf_bits(vma) },
                    );
                }
            },
        }
    }
}

/// The runs behind a range cover exactly the bytes of the range: a
/// transfer that succeeds moves as many bytes as were asked for.
pub proof fn law_transfer_length(
    es: Seq<PageEntry>,
    pm: PmView,
    vmas: &AreaSet,
    files: &MappableTable,
    start: u64,
    len: u64,
    writable: bool,
)
    requires
        pt_wf(es),
        pm.wf(),
        files.wf(),
        v2p_step(es, pm, vmas, files, start, len, writable).2.is_ok(),
    ensures
        IoVec::total(v2p_step(es, pm, vmas, files, start, len, writable).2.unwrap()) == len,
{
    reveal(v2p_step);
    crate::mm::lemma_fix_pages(
        es,
        pm,
        vmas,
        files,
        page_down(start as int) as u64,
        pages_of(start as int, len as int) as nat,
        writable,
    );
    let p = crate::mm::fix_pages(
        es,
        pm,
        vmas,
        files,
        page_down(start as int) as u64,
        pages_of(start as int, len as int) as nat,
        writable,
    );
    crate::mm::lemma_fix_pages_count(
        es,
        pm,
        vmas,
        files,
        page_down(start as int) as u64,
        pages_of(start as int, len as int) as nat,
        writable,
    );
    lemma_v2p(p.0, start as int, len as int);
}

/// Replacing one run changes the total by the difference of the lengths.
pub proof fn lemma_total_update(v: Seq<IoVec>, i: int, x: IoVec)
    requires
        0 <= i < v.len(),
    ensures
        IoVec::total(v.update(i, x)) == IoVec::total(v) - v[i].len + x.len,
    decreases v.len(),
{
    let u = v.update(i, x);
    if i == v.len() - 1 {
        assert(u.drop_last() =~= v.drop_last());
    } else {
        lemma_total_update(v.drop_last(), i, x);
        assert(u.drop_last() =~= v.drop_last().update(i, x));
    }
}

/// The frames behind pages that all have a leaf leave room for a page
/// each.
pub proof fn lemma_addresses_fit(es: Seq<PageEntry>, first: int, n: int)
    requires
        pt_wf(es),
        0 <= n,
        4096 * n <= usize::MAX,
        all_mapped(es, first, n),
    ensures
        addresses(es, first, n).len() == n,
        crate::blocks::pages_fit(addresses(es, first, n)),
{
    let addrs = addresses(es, first, n);
    assert forall|i: int| 0 <= i < addrs.len() implies #[trigger] addrs[i] + 4096 <= u64::MAX by {
        let va = first + 4096 * i;
        assert(lookup(es, va).is_some());
        lemma_lookup(es, va);
        assert(addrs[i] == lookup(es, va).unwrap().paddr);
    }
}

/// A range that is not empty lies in at least one page; it starts less
/// than a page behind the first page boundary at or below it, and ends
/// less than a page before the first boundary at or above its end.
pub proof fn lemma_page_span(start: int, len: int)
    requires
        0 <= start,
        0 < len,
    ensures
        ({
            let first = page_down(start);
            let end = crate::addr::page_up(start + len);
            let n = (end - first) / 4096;
            &&& 0 <= start - first < 4096
            &&& 0 <= end - (start + len) < 4096
            &&& 1 <= n
            &&& 4096 * n == end - first
        }),
{
    let first = page_down(start);
    let end = crate::addr::page_up(start + len);
    assert(first % 4096 == 0 && end % 4096 == 0 && first < end && 0 <= start - first < 4096 && 0
        <= end - (start + len) < 4096) by (nonlinear_arith)
        requires
            0 <= start,
            0 < len,
            first == start - start % 4096,
            end == if (start + len) % 4096 == 0 {
                start + len
            } else {
                start + len - (start + len) % 4096 + 4096
            },
    ;
    assert(4096 * ((end - first) / 4096) == end - first && (end - first) / 4096 >= 1)
        by (nonlinear_arith)
        requires
            first % 4096 == 0,
            end % 4096 == 0,
            first < end,
    ;
}

/// Runs of whole pages without the first `head` bytes and the last `tail`
/// bytes are shorter by that many bytes.
pub proof fn lemma_trim_total(whole: Seq<IoVec>, head: int, tail: int)
    requires
        whole.len() > 0,
        0 <= head < 4096,
        0 <= tail < 4096,
        forall|i: int| 0 <= i < whole.len() ==> (#[trigger] whole[i]).len >= 4096,
        whole.len() == 1 ==> head + tail < whole[0].len,
    ensures
        IoVec::total(crate::translate::trim(whole, head, tail)) == IoVec::total(whole) - head
            - tail,
{
    let x = IoVec { start: (whole[0].start + head) as u64, len: (whole[0].len - head) as usize };
    let a = whole.update(0, x);
    lemma_total_update(whole, 0, x);
    assert(x.len == whole[0].len - head);
    assert(IoVec::total(a) == IoVec::total(whole) - head);
    let l = a.len() - 1;
    let y = IoVec { start: a[l].start, len: (a[l].len - tail) as usize };
    assert(a[l].len >= tail) by {
        if l == 0 {
            assert(a[l] == x);
        } else {
            assert(a[l] == whole[l]);
        }
    }
    assert(y.len == a[l].len - tail);
    lemma_total_update(a, l, y);
    assert(crate::translate::trim(whole, head, tail) == a.update(l, y));
}

/// The physical runs behind a range whose pages all have a leaf are made
/// of whole pages that follow one another, and cover exactly the bytes of
/// the range.
pub proof fn law_blocks_cover(es: Seq<PageEntry>, start: int, len: int)
    requires
        pt_wf(es),
        0 <= start,
        0 < len,
        crate::addr::page_up(start + len) <= u64::MAX,
        crate::addr::page_up(start + len) - page_down(start) <= usize::MAX,
        all_mapped(es, page_down(start), (crate::addr::page_up(start + len) - page_down(start)) / 4096),
    ensures
        ({
            let first = page_down(start);
            let n = (crate::addr::page_up(start + len) - first) / 4096;
            let whole = coalesce(addresses(es, first, n));
            &&& runs_ok(whole, n)
            &&& crate::blocks::expand(whole) == addresses(es, first, n)
            &&& IoVec::total(whole) == 4096 * n
            &&& IoVec::total(blocks_of(es, start, len)) == len
        }),
{
    let first = page_down(start);
    let end = crate::addr::page_up(start + len);
    let n = (end - first) / 4096;
    let head = start - first;
    let tail = end - (start + len);
    lemma_page_span(start, len);
    lemma_addresses_fit(es, first, n);
    let addrs = addresses(es, first, n);
    lemma_coalesce(addrs);
    let whole = coalesce(addrs);
    assert(IoVec::total(whole) == end - first);
    if whole.len() == 1 {
        assert(whole.drop_last() =~= Seq::<IoVec>::empty());
        assert(IoVec::total(whole.drop_last()) == 0);
        assert(whole.last() == whole[0]);
        assert(whole[0].len == end - first);
    }
    lemma_trim_total(whole, head, tail);
    assert(blocks_of(es, start, len) == crate::translate::trim(whole, head, tail));
}

/// The pool counts the leaves of two tables: each frame of the pool has at
/// least as many references as leaves of the tables point to it, and a
/// frame of the pool that a leaf points to is allocated.
pub open spec fn counted(pm: PmView, es: Seq<PageEntry>, other: Seq<PageEntry>) -> bool {
    &&& forall|f: int|
        pm.is_frame(f) ==> pm.ref_of(f) >= #[trigger] leaves_to(es, f) + leaves_to(other, f)
    &&& forall|k: int|
        0 <= k < es.len() && pm.is_frame((#[trigger] es[k]).paddr as int) ==> pm.is_live(
            es[k].paddr as int,
        )
    &&& forall|k: int|
        0 <= k < other.len() && pm.is_frame((#[trigger] other[k]).paddr as int) ==> pm.is_live(
            other[k].paddr as int,
        )
}

/// The leaves to a frame, counted over two parts of a table.
pub proof fn lemma_leaves_concat(a: Seq<PageEntry>, b: Seq<PageEntry>, f: int)
    ensures
        leaves_to(a + b, f) == leaves_to(a, f) + leaves_to(b, f),
    decreases b.len(),
{
    if b.len() == 0 {
        assert(a + b =~= a);
    } else {
        lemma_leaves_concat(a, b.drop_last(), f);
        assert((a + b).drop_last() =~= a + b.drop_last());
        assert((a + b).last() == b.last());
    }
}

/// The leaves to a frame of a table of one leaf.
pub proof fn lemma_leaves_one(e: PageEntry, f: int)
    ensures
        leaves_to(seq![e], f) == if e.paddr == f {
            1int
        } else {
            0int
        },
{
    assert(seq![e].drop_last() =~= Seq::<PageEntry>::empty());
    assert(leaves_to(seq![e].drop_last(), f) == 0);
    assert(seq![e].last() == e);
}

/// Putting a leaf into a table adds a leaf to its frame and takes one from
/// the frame of the leaf that it replaces.
pub proof fn lemma_leaves_put(es: Seq<PageEntry>, e: PageEntry, f: int)
    requires
        pt_wf(es),
    ensures
        leaves_to(crate::pagetable::put(es, e), f) == leaves_to(es, f) + (if e.paddr == f {
            1int
        } else {
            0int
        }) - (match lookup(es, e.vaddr as int) {
            Some(o) => if o.paddr == f {
                1int
            } else {
                0int
            },
            None => 0int,
        }),
{
    crate::pagetable::lemma_below(es, e.vaddr as int);
    let b = crate::pagetable::below(es, e.vaddr as int);
    let left = es.take(b);
    lemma_leaves_one(e, f);
    if b < es.len() && es[b].vaddr == e.vaddr {
        let right = es.skip(b + 1);
        assert(es =~= left + seq![es[b]] + right);
        assert(crate::pagetable::put(es, e) =~= left + seq![e] + right);
        lemma_leaves_one(es[b], f);
        lemma_leaves_concat(left, seq![es[b]], f);
        lemma_leaves_concat(left + seq![es[b]], right, f);
        lemma_leaves_concat(left, seq![e], f);
        lemma_leaves_concat(left + seq![e], right, f);
    } else {
        let right = es.skip(b);
        assert(es =~= left + right);
        assert(crate::pagetable::put(es, e) =~= left + seq![e] + right);
        lemma_leaves_concat(left, right, f);
        lemma_leaves_concat(left, seq![e], f);
        lemma_leaves_concat(left + seq![e], right, f);
    }
}

/// Installing a leaf keeps the pool counting the leaves: the new frame
/// gains the reference that the new leaf needs, and the frame of a leaf
/// that is replaced loses no more than that leaf's own.
///
/// This holds for a leaf whose frame, if it is the pool's, is allocated
/// and has a count below the largest, where counts stay.
pub proof fn law_install_counts(
    es: Seq<PageEntry>,
    other: Seq<PageEntry>,
    pm: PmView,
    e: PageEntry,
)
    requires
        pt_wf(es),
        pm.wf(),
        e.vaddr % 4096 == 0,
        crate::addr::frame_ok(e.paddr as int),
        counted(pm, es, other),
        pm.is_frame(e.paddr as int) ==> pm.is_live(e.paddr as int) && pm.ref_of(e.paddr as int)
            < u64::MAX,
    ensures
        counted(install(es, pm, e).1, install(es, pm, e).0, other),
{
    let after = install(es, pm, e);
    let old_leaf = lookup(es, e.vaddr as int);
    lemma_put(es, e);
    lemma_lookup(es, e.vaddr as int);
    let pm1 = pm.retain(e.paddr as int);
    assert forall|f: int| after.1.is_frame(f) implies after.1.ref_of(f) >= #[trigger] leaves_to(
        after.0,
        f,
    ) + leaves_to(other, f) by {
        lemma_leaves_put(es, e, f);
        lemma_leaves_nonneg(other, f);
        lemma_leaves_nonneg(es, f);
        assert(pm.ref_of(f) >= leaves_to(es, f) + leaves_to(other, f));
        lemma_frame_index(pm, f, e.paddr as int);
        if old_leaf.is_some() {
            lemma_frame_index(pm, f, old_leaf.unwrap().paddr as int);
            lemma_frame_index(pm1, f, old_leaf.unwrap().paddr as int);
            let k = choose|k: int| 0 <= k < es.len() && (#[trigger] es[k]).vaddr == e.vaddr;
            lemma_leaves_to(es, old_leaf.unwrap().paddr as int, k);
        }
    }
    assert forall|k: int|
        0 <= k < after.0.len() && after.1.is_frame((#[trigger] after.0[k]).paddr as int)
            implies after.1.is_live(after.0[k].paddr as int) by {
        let x = after.0[k];
        lemma_lookup(after.0, x.vaddr as int);
        assert(lookup(after.0, x.vaddr as int) == Some(x));
        lemma_frame_index(pm, x.paddr as int, e.paddr as int);
        if x.vaddr != e.vaddr {
            lemma_lookup(es, x.vaddr as int);
            let j = choose|j: int| 0 <= j < es.len() && (#[trigger] es[j]).vaddr == x.vaddr;
            assert(es[j] == x);
            assert(pm.is_live(x.paddr as int));
        }
        if old_leaf.is_some() {
            let o = old_leaf.unwrap().paddr as int;
            lemma_frame_index(pm, x.paddr as int, o);
            lemma_frame_index(pm1, x.paddr as int, o);
            if x.paddr == o {
                lemma_leaves_to(after.0, o, k);
                lemma_leaves_nonneg(other, o);
                assert(after.1.ref_of(o) >= leaves_to(after.0, o) + leaves_to(other, o));
            }
        }
    }
    assert forall|k: int|
        0 <= k < other.len() && after.1.is_frame((#[trigger] other[k]).paddr as int)
            implies after.1.is_live(other[k].paddr as int) by {
        let x = other[k].paddr as int;
        assert(pm.is_live(x));
        lemma_frame_index(pm, x, e.paddr as int);
        if old_leaf.is_some() {
            let o = old_leaf.unwrap().paddr as int;
            lemma_frame_index(pm, x, o);
            lemma_frame_index(pm1, x, o);
            if x == o {
                lemma_leaves_to(other, o, k);
                lemma_leaves_nonneg(after.0, o);
                assert(after.1.ref_of(o) >= leaves_to(after.0, o) + leaves_to(other, o));
            }
        }
    }
}

/// Dropping the references of a run of leaves keeps the pool counting the
/// leaves that stay.
pub proof fn lemma_release_counts(
    kept: Seq<PageEntry>,
    run: Seq<PageEntry>,
    other: Seq<PageEntry>,
    pm: PmView,
)
    requires
        pm.wf(),
        counted(pm, kept + run, other),
    ensures
        crate::pagetable::release_all(pm, run).wf(),
        counted(crate::pagetable::release_all(pm, run), kept, other),
    decreases run.len(),
{
    if run.len() == 0 {
        assert(kept + run =~= kept);
    } else {
        let d = run.drop_last();
        let last = run.last();
        let kept2 = kept + seq![last];
        assert(kept2 + d =~= kept + seq![last] + d);
        assert forall|f: int|
            pm.is_frame(f) implies pm.ref_of(f) >= #[trigger] leaves_to(kept2 + d, f) + leaves_to(
            other,
            f,
        ) by {
            assert(pm.ref_of(f) >= leaves_to(kept + run, f) + leaves_to(other, f));
            lemma_leaves_concat(kept, run, f);
            lemma_leaves_concat(kept2, d, f);
            lemma_leaves_concat(kept, seq![last], f);
            lemma_leaves_one(last, f);
            assert(run.drop_last() == d);
        }
        assert forall|k: int|
            0 <= k < (kept2 + d).len() && pm.is_frame((#[trigger] (kept2 + d)[k]).paddr as int)
                implies pm.is_live((kept2 + d)[k].paddr as int) by {
            let x = (kept2 + d)[k];
            if k < kept.len() {
                assert((kept + run)[k] == x);
            } else if k == kept.len() {
                assert((kept + run)[kept.len() + run.len() - 1] == x);
            } else {
                assert((kept + run)[k - 1] == x);
            }
        }
        lemma_release_counts(kept2, d, other, pm);
        let pm1 = crate::pagetable::release_all(pm, d);
        let pm2 = pm1.release(last.paddr as int);
        crate::pagetable::lemma_pm_step(pm1, last.paddr as int);
        assert(kept2[kept.len() as int] == last);
        assert forall|f: int| pm2.is_frame(f) implies pm2.ref_of(f) >= #[trigger] leaves_to(kept, f)
            + leaves_to(other, f) by {
            assert(pm1.ref_of(f) >= leaves_to(kept2, f) + leaves_to(other, f));
            lemma_leaves_concat(kept, seq![last], f);
            lemma_leaves_one(last, f);
            lemma_frame_index(pm1, f, last.paddr as int);
            lemma_leaves_nonneg(kept, f);
            lemma_leaves_nonneg(other, f);
        }
        assert forall|k: int|
            0 <= k < kept.len() && pm2.is_frame((#[trigger] kept[k]).paddr as int)
                implies pm2.is_live(kept[k].paddr as int) by {
            let x = kept[k].paddr as int;
            assert(kept2[k] == kept[k]);
            assert(pm1.is_live(x));
            lemma_frame_index(pm1, x, last.paddr as int);
            if x == last.paddr {
                lemma_leaves_to(kept, x, k);
                lemma_leaves_nonneg(other, x);
                assert(pm2.ref_of(x) >= leaves_to(kept, x) + leaves_to(other, x));
            }
        }
        assert forall|k: int|
            0 <= k < other.len() && pm2.is_frame((#[trigger] other[k]).paddr as int)
                implies pm2.is_live(other[k].paddr as int) by {
            let x = other[k].paddr as int;
            assert(pm1.is_live(x));
            lemma_frame_index(pm1, x, last.paddr as int);
            if x == last.paddr {
                lemma_leaves_to(other, x, k);
                lemma_leaves_nonneg(kept, x);
                assert(pm2.ref_of(x) >= leaves_to(kept, x) + leaves_to(other, x));
            }
        }
    }
}

/// Unmapping a range of pages keeps the pool counting the leaves: each
/// frame loses the references of the leaves that go, and no more.
pub proof fn law_unmap_counts(
    es: Seq<PageEntry>,
    other: Seq<PageEntry>,
    pm: PmView,
    lo: int,
    hi: int,
)
    requires
        pt_wf(es),
        pm.wf(),
        lo <= hi,
        counted(pm, es, other),
    ensures
        counted(
            crate::pagetable::release_all(pm, crate::pagetable::within(es, lo, hi)),
            crate::pagetable::without(es, lo, hi),
            other,
        ),
{
    crate::pagetable::lemma_below(es, lo);
    crate::pagetable::lemma_below(es, hi);
    crate::pagetable::lemma_below_mono(es, lo, hi);
    let i = crate::pagetable::below(es, lo);
    let j = crate::pagetable::below(es, hi);
    let kept = crate::pagetable::without(es, lo, hi);
    let run = crate::pagetable::within(es, lo, hi);
    let all = kept + run;
    assert forall|f: int| pm.is_frame(f) implies pm.ref_of(f) >= #[trigger] leaves_to(all, f)
        + leaves_to(other, f) by {
        assert(pm.ref_of(f) >= leaves_to(es, f) + leaves_to(other, f));
        assert(es =~= es.take(i) + run + es.skip(j));
        lemma_leaves_concat(es.take(i) + run, es.skip(j), f);
        lemma_leaves_concat(es.take(i), run, f);
        lemma_leaves_concat(es.take(i), es.skip(j), f);
        lemma_leaves_concat(kept, run, f);
    }
    assert forall|k: int|
        0 <= k < all.len() && pm.is_frame((#[trigger] all[k]).paddr as int) implies pm.is_live(
        all[k].paddr as int,
    ) by {
        let n = kept.len() as int;
        if k < i {
            assert(all[k] == es[k]);
        } else if k < n {
            assert(all[k] == es[k + (j - i)]);
        } else {
            assert(all[k] == es[i + (k - n)]);
        }
    }
    lemma_release_counts(kept, run, other, pm);
}

/// Two frames of the pool are the same exactly when their numbers are.
pub proof fn lemma_frame_index(pm: PmView, f: int, g: int)
    requires
        pm.wf(),
    ensures
        pm.is_frame(f) && pm.is_frame(g) ==> (pm.index_of(f) == pm.index_of(g) <==> f == g),
        pm.is_frame(f) ==> 0 <= pm.index_of(f) < pm.frames(),
{
}

} // verus!
