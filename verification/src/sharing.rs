//! What holds of frames that address spaces share: what a write fault on
//! a shared page does to the frame and to its counts, what a fork hands to
//! the child, and what reading and writing guest memory leave alone.
use vstd::prelude::*;
use crate::areaset::{AreaEntry, AreaSet};
use crate::fork::{
    fork_area, fork_areas, lemma_copy_all, lemma_cow_id, lemma_install_all, lemma_within,
    no_user_write,
};
use crate::laws::{
    counted, law_cow_counts, law_fault_counts, lemma_frame_index, lemma_leaves_nonneg,
    lemma_leaves_put, leaves_to,
};
use crate::linux_def::{Error, SysErr};
use crate::mappable::MappableTable;
use crate::mm::{
    cow_page, fault_in, fix_page, fix_pages, lemma_allocate, lemma_cow_page, lemma_fault_in,
    lemma_fix_page, lemma_fix_pages, FixStep,
};
use crate::pagemgr::PmView;
use crate::pageopts::{pte_writable, user_rw_bits};
use crate::pagetable::{
    below, copy_all, cow_run, install, install_all, lemma_below, lemma_cow_run, lemma_install,
    lemma_lookup, lemma_put, lookup, pt_wf, put, retain_all, within, PageEntry,
};
use crate::vma::VMA;

verus! {

/// A write fault on a read-only page whose frame nobody else holds, in
/// anonymous memory, is resolved in place: the page keeps its frame and
/// can be written, and the pool stays as it is.
pub proof fn law_cow_in_place(es: Seq<PageEntry>, pm: PmView, page: u64, vma: VMA)
    requires
        pt_wf(es),
        pm.wf(),
        page % 4096 == 0,
        lookup(es, page as int).is_some(),
        !pte_writable(lookup(es, page as int).unwrap().flags),
        pm.is_live(lookup(es, page as int).unwrap().paddr as int),
        pm.ref_of(lookup(es, page as int).unwrap().paddr as int) == 1,
        vma.mappable.is_none(),
    ensures
        ({
            let e = lookup(es, page as int).unwrap();
            let r = cow_page(es, pm, page, vma);
            &&& r.2.is_none()
            &&& r.1 == pm
            &&& lookup(r.0, page as int) == Some(PageEntry { flags: user_rw_bits(), ..e })
        }),
{
    let e = lookup(es, page as int).unwrap();
    lemma_lookup(es, page as int);
    lemma_put(es, PageEntry { flags: user_rw_bits(), ..e });
}

/// A write fault on a read-only page whose frame is shared is resolved by
/// a copy. The page gets a frame that was free, with one reference and the
/// bytes of the old frame, and can be written. The old frame loses one
/// reference and stays allocated while it has another. No byte outside
/// the new frame changes, so whoever else maps the old frame reads what
/// was there; and no other count changes.
pub proof fn law_cow_copies(es: Seq<PageEntry>, pm: PmView, page: u64, vma: VMA)
    requires
        pt_wf(es),
        pm.wf(),
        page % 4096 == 0,
        lookup(es, page as int).is_some(),
        !pte_writable(lookup(es, page as int).unwrap().flags),
        pm.is_live(lookup(es, page as int).unwrap().paddr as int),
        pm.ref_of(lookup(es, page as int).unwrap().paddr as int) != 1 || vma.mappable.is_some(),
        pm.has_free(),
    ensures
        ({
            let f = lookup(es, page as int).unwrap().paddr as int;
            let r = cow_page(es, pm, page, vma);
            let leaf = lookup(r.0, page as int);
            let g = leaf.unwrap().paddr as int;
            &&& r.2.is_none()
            &&& leaf.is_some()
            &&& leaf.unwrap().flags == user_rw_bits()
            &&& g != f
            &&& pm.is_frame(g)
            &&& !pm.is_live(g)
            &&& r.1.is_live(g)
            &&& r.1.ref_of(g) == 1
            &&& r.1.ref_of(f) == if pm.ref_of(f) > 0 {
                pm.ref_of(f) - 1
            } else {
                0
            }
            &&& r.1.is_live(f) == (pm.ref_of(f) != 1)
            &&& r.1.bytes(g, 4096) == pm.bytes(f, 4096)
            &&& r.1.bytes(f, 4096) == pm.bytes(f, 4096)
            &&& forall|k: int|
                0 <= k < pm.mem.len() && !(g - pm.base <= k < g - pm.base + 4096)
                    ==> #[trigger] r.1.mem[k] == pm.mem[k]
            &&& forall|h: int| h != f && h != g ==> #[trigger] r.1.ref_of(h) == pm.ref_of(h)
        }),
{
    let e = lookup(es, page as int).unwrap();
    let f = e.paddr as int;
    lemma_lookup(es, page as int);
    lemma_allocate(pm, false);
    let i = pm.lowest_free();
    let g = pm.addr_of(i);
    let n = PageEntry { vaddr: e.vaddr, paddr: g as u64, flags: user_rw_bits() };
    lemma_put(es, n);
    let a = pm.allocate(false);
    let c = a.copy_page(f, g);
    let d = c.retain(g);
    let r = cow_page(es, pm, page, vma);
    assert(r.0 == put(es, n));
    assert(r.1 == d.release(f));
    lemma_frame_index(pm, f, g);
    let j = pm.index_of(f);
    assert(i != j);
    assert(pm.refs[i] == 0);
    assert(c.mem.len() == pm.mem.len());
    assert(d.refs[i] == 1);
    assert(r.1.mem == c.mem);
    assert(r.1.bytes(g, 4096) =~= pm.bytes(f, 4096));
    assert(r.1.bytes(f, 4096) =~= pm.bytes(f, 4096));
    assert forall|h: int| h != f && h != g implies #[trigger] r.1.ref_of(h) == pm.ref_of(h) by {
        lemma_frame_index(pm, h, f);
        lemma_frame_index(pm, h, g);
    }
}

/// The area `e` is a shared area of user memory that holds the page at
/// `va`.
pub open spec fn shared_at(e: AreaEntry, va: int) -> bool {
    !e.vma.kernel && !e.vma.private && e.range.contains(va)
}

/// The page at `va` lies in a shared area of user memory.
pub open spec fn in_shared(segs: Seq<AreaEntry>, va: int) -> bool {
    exists|i: int| 0 <= i < segs.len() && shared_at(#[trigger] segs[i], va)
}

/// Installing leaves changes nothing for a page for which the run brings
/// nothing but the leaf that the table has.
pub proof fn lemma_install_all_same(es: Seq<PageEntry>, pm: PmView, run: Seq<PageEntry>, va: int)
    requires
        pt_wf(es),
        pm.wf(),
        forall|i: int|
            0 <= i < run.len() ==> (#[trigger] run[i]).vaddr % 4096 == 0 && crate::addr::frame_ok(
                run[i].paddr as int,
            ),
        forall|i: int|
            0 <= i < run.len() && (#[trigger] run[i]).vaddr == va ==> lookup(es, va) == Some(run[i]),
    ensures
        lookup(install_all(es, pm, run).0, va) == lookup(es, va),
    decreases run.len(),
{
    if run.len() > 0 {
        let d = run.drop_last();
        assert forall|i: int| 0 <= i < d.len() implies (#[trigger] d[i]).vaddr % 4096 == 0
            && crate::addr::frame_ok(d[i].paddr as int) by {
            assert(d[i] == run[i]);
        }
        assert forall|i: int| 0 <= i < d.len() && (#[trigger] d[i]).vaddr == va implies lookup(
            es,
            va,
        ) == Some(d[i]) by {
            assert(d[i] == run[i]);
        }
        lemma_install_all_same(es, pm, d, va);
        lemma_install_all(es, pm, d);
        let p = install_all(es, pm, d);
        assert(run.last() == run[run.len() - 1]);
        lemma_put(p.0, run.last());
    }
}

/// A deep copy changes nothing for a page that the run has no leaf for.
pub proof fn lemma_copy_all_apart(es: Seq<PageEntry>, pm: PmView, run: Seq<PageEntry>, va: int)
    requires
        pt_wf(es),
        pm.wf(),
        forall|i: int|
            0 <= i < run.len() ==> (#[trigger] run[i]).vaddr % 4096 == 0 && crate::addr::frame_ok(
                run[i].paddr as int,
            ),
        forall|i: int| 0 <= i < run.len() ==> (#[trigger] run[i]).vaddr != va,
    ensures
        lookup(copy_all(es, pm, run).0, va) == lookup(es, va),
    decreases run.len(),
{
    if run.len() > 0 {
        let d = run.drop_last();
        assert forall|i: int| 0 <= i < d.len() implies (#[trigger] d[i]).vaddr % 4096 == 0
            && crate::addr::frame_ok(d[i].paddr as int) by {
            assert(d[i] == run[i]);
        }
        assert forall|i: int| 0 <= i < d.len() implies (#[trigger] d[i]).vaddr != va by {
            assert(d[i] == run[i]);
        }
        lemma_copy_all_apart(es, pm, d, va);
        lemma_copy_all(es, pm, d);
        let p = copy_all(es, pm, d);
        let e = run.last();
        assert(e == run[run.len() - 1]);
        if p.2 {
            if p.1.is_live(e.paddr as int) {
                if p.1.has_free() {
                    let fresh = p.1.addr_of(p.1.lowest_free());
                    lemma_allocate(p.1, false);
                    lemma_put(p.0, PageEntry { paddr: fresh as u64, ..e });
                }
            } else {
                lemma_put(p.0, e);
            }
        }
    }
}

/// What a fork does for the pages of areas changes nothing in the child's
/// table for a page outside the shared areas that has the same leaf, or
/// none, in both tables.
pub proof fn lemma_fork_areas_leaf(
    src: Seq<PageEntry>,
    dst: Seq<PageEntry>,
    pm: PmView,
    segs: Seq<AreaEntry>,
    va: int,
)
    requires
        pt_wf(src),
        pt_wf(dst),
        pm.wf(),
        no_user_write(src),
        forall|i: int| 0 <= i < segs.len() ==> (#[trigger] segs[i]).range.wf(),
        lookup(dst, va) == lookup(src, va),
        !in_shared(segs, va),
    ensures
        pt_wf(fork_areas(src, dst, pm, segs).0),
        fork_areas(src, dst, pm, segs).1.wf(),
        lookup(fork_areas(src, dst, pm, segs).0, va) == lookup(src, va),
    decreases segs.len(),
{
    if segs.len() > 0 {
        let d = segs.drop_last();
        assert forall|i: int| 0 <= i < d.len() implies (#[trigger] d[i]).range.wf() by {
            assert(d[i] == segs[i]);
        }
        assert(!in_shared(d, va)) by {
            if in_shared(d, va) {
                let i = choose|i: int| 0 <= i < d.len() && shared_at(#[trigger] d[i], va);
                assert(d[i] == segs[i]);
                assert(shared_at(segs[i], va));
            }
        }
        lemma_fork_areas_leaf(src, dst, pm, d, va);
        let p = fork_areas(src, dst, pm, d);
        let e = segs.last();
        assert(e == segs[segs.len() - 1]);
        if p.2 && !e.vma.kernel {
            let lo = e.range.start as int;
            let hi = e.range.end();
            let run = within(src, lo, hi);
            lemma_within(src, lo, hi);
            lemma_below(src, lo);
            lemma_below(src, hi);
            lemma_lookup(src, va);
            if e.vma.private {
                lemma_cow_id(run);
                assert forall|i: int| 0 <= i < run.len() && (#[trigger] run[i]).vaddr
                    == va implies lookup(p.0, va) == Some(run[i]) by {
                    assert(run[i] == src[below(src, lo) + i]);
                }
                lemma_install_all(p.0, p.1, run);
                lemma_install_all_same(p.0, p.1, run, va);
            } else {
                assert(!shared_at(segs[segs.len() - 1], va));
                assert forall|i: int| 0 <= i < run.len() implies (#[trigger] run[i]).vaddr
                    != va by {
                    assert(run[i] == src[below(src, lo) + i]);
                }
                lemma_copy_all(p.0, p.1, run);
                lemma_copy_all_apart(p.0, p.1, run, va);
            }
        }
    }
}

/// After a fork, the child has for every page outside the shared areas
/// the leaf that the parent has: the same frame, read-only where user
/// code could write before. A page without leaf in the parent has none in
/// the child.
pub proof fn law_fork_shares_frames(
    before: Seq<PageEntry>,
    pm: PmView,
    segs: Seq<AreaEntry>,
    va: int,
)
    requires
        pt_wf(before),
        pm.wf(),
        forall|i: int| 0 <= i < segs.len() ==> (#[trigger] segs[i]).range.wf(),
        !in_shared(segs, va),
    ensures
        ({
            let parent = cow_run(before);
            let child = fork_areas(parent, parent, pm, segs).0;
            &&& lookup(child, va) == lookup(parent, va)
            &&& lookup(parent, va) == match lookup(before, va) {
                Some(e) => Some(crate::pagetable::cow(e)),
                None => None,
            }
            &&& lookup(before, va).is_some() ==> lookup(child, va).unwrap().paddr == lookup(
                before,
                va,
            ).unwrap().paddr
        }),
{
    lemma_cow_run(before);
    let parent = cow_run(before);
    assert(no_user_write(parent)) by {
        assert forall|i: int| 0 <= i < parent.len() implies !(crate::pageopts::pte_user(
            (#[trigger] parent[i]).flags,
        ) && pte_writable(parent[i].flags)) by {
            assert(parent[i] == cow_run(before)[i]);
        }
    }
    lemma_fork_areas_leaf(parent, parent, pm, segs, va);
}

/// The pool `pm` has the frames of the pool `start`, each with the
/// references that it has in `start` and one more for each leaf of `es`
/// that points to it.
pub open spec fn tallied(start: PmView, pm: PmView, es: Seq<PageEntry>) -> bool {
    &&& pm.wf()
    &&& pm.base == start.base
    &&& pm.frames() == start.frames()
    &&& forall|f: int|
        pm.is_frame(f) ==> pm.ref_of(f) == start.ref_of(f) + #[trigger] leaves_to(es, f)
}

/// No frame of the pool is more than `n` references away from the
/// largest count.
pub open spec fn room(pm: PmView, n: int) -> bool {
    forall|f: int| #[trigger] pm.ref_of(f) + n < u64::MAX
}

/// Every frame of the pool that a leaf of `run` points to has a reference
/// in the pool.
pub open spec fn referenced(pm: PmView, run: Seq<PageEntry>) -> bool {
    forall|i: int|
        0 <= i < run.len() && pm.is_frame((#[trigger] run[i]).paddr as int) ==> pm.ref_of(
            run[i].paddr as int,
        ) >= 1
}

/// The table `es` has a leaf for every page that `run` has one for.
pub open spec fn has_all(es: Seq<PageEntry>, run: Seq<PageEntry>) -> bool {
    forall|i: int| 0 <= i < run.len() ==> lookup(es, (#[trigger] run[i]).vaddr as int).is_some()
}

/// The table `after` has a leaf for every page that `es` has one for.
pub open spec fn keeps_pages(es: Seq<PageEntry>, after: Seq<PageEntry>) -> bool {
    forall|va: int| (#[trigger] lookup(es, va)).is_some() ==> lookup(after, va).is_some()
}

/// The bytes of every frame that has a reference in the pool `start` are
/// in `pm` what they are in `start`.
pub open spec fn kept(start: PmView, pm: PmView) -> bool {
    forall|k: int|
        0 <= k < start.mem.len() && start.refs[k / 4096] > 0 ==> #[trigger] pm.mem[k]
            == start.mem[k]
}

/// A table has no more leaves to a frame than it has leaves.
pub proof fn lemma_leaves_le(es: Seq<PageEntry>, f: int)
    ensures
        0 <= leaves_to(es, f) <= es.len(),
    decreases es.len(),
{
    if es.len() > 0 {
        lemma_leaves_le(es.drop_last(), f);
    }
}

/// Installing a leaf whose frame, if it is the pool's, is allocated keeps
/// the tally: the new frame gains the reference of the new leaf, and the
/// frame of a leaf that is replaced loses that leaf's.
pub proof fn lemma_tally_install(start: PmView, pm: PmView, es: Seq<PageEntry>, e: PageEntry)
    requires
        pt_wf(es),
        tallied(start, pm, es),
        room(start, es.len() as int),
        e.vaddr % 4096 == 0,
        crate::addr::frame_ok(e.paddr as int),
        pm.is_frame(e.paddr as int) ==> pm.is_live(e.paddr as int),
    ensures
        pt_wf(install(es, pm, e).0),
        tallied(start, install(es, pm, e).1, install(es, pm, e).0),
        install(es, pm, e).1.mem == pm.mem,
        lookup(es, e.vaddr as int).is_some() ==> install(es, pm, e).0.len() == es.len(),
        keeps_pages(es, install(es, pm, e).0),
{
    let after = install(es, pm, e);
    let o = lookup(es, e.vaddr as int);
    lemma_install(es, pm, e);
    lemma_put(es, e);
    lemma_lookup(es, e.vaddr as int);
    lemma_below(es, e.vaddr as int);
    let g = e.paddr as int;
    let pm1 = pm.retain(g);
    crate::pagetable::lemma_pm_step(pm, g);
    lemma_leaves_le(es, g);
    assert(start.ref_of(g) + es.len() < u64::MAX);
    assert forall|f: int| pm.is_frame(f) implies pm1.ref_of(f) == pm.ref_of(f) + if f == g {
        1int
    } else {
        0int
    } by {
        lemma_frame_index(pm, f, g);
    }
    assert forall|f: int| after.1.is_frame(f) implies after.1.ref_of(f) == start.ref_of(f)
        + #[trigger] leaves_to(after.0, f) by {
        lemma_leaves_put(es, e, f);
        assert(pm.ref_of(f) == start.ref_of(f) + leaves_to(es, f));
        match o {
            None => {},
            Some(l) => {
                let h = l.paddr as int;
                let k = choose|k: int| 0 <= k < es.len() && (#[trigger] es[k]).vaddr == e.vaddr;
                assert(es[k] == l);
                crate::laws::lemma_leaves_to(es, h, k);
                lemma_frame_index(pm, f, h);
                lemma_frame_index(pm, g, h);
                if pm.is_frame(h) {
                    assert(pm.ref_of(h) == start.ref_of(h) + leaves_to(es, h));
                    assert(pm1.ref_of(h) >= 1);
                    assert(pm1.is_live(h));
                }
            },
        }
    }
}

/// The leaves of a run are whole pages with whole frames.
pub open spec fn run_ok(run: Seq<PageEntry>) -> bool {
    forall|i: int|
        0 <= i < run.len() ==> (#[trigger] run[i]).vaddr % 4096 == 0 && crate::addr::frame_ok(
            run[i].paddr as int,
        )
}

/// A frame with a reference at the start is allocated wherever the tally
/// holds.
pub proof fn lemma_tally_live(start: PmView, pm: PmView, es: Seq<PageEntry>, f: int)
    requires
        tallied(start, pm, es),
        pm.is_frame(f),
        start.ref_of(f) >= 1,
    ensures
        pm.is_live(f),
        pm.ref_of(f) >= 1,
{
    lemma_leaves_le(es, f);
    assert(pm.ref_of(f) == start.ref_of(f) + leaves_to(es, f));
    lemma_frame_index(pm, f, f);
}

/// Installing leaves, in place of leaves that are there, whose frames have
/// a reference from the start keeps the tally and the memory.
pub proof fn lemma_tally_install_all(
    start: PmView,
    pm: PmView,
    es: Seq<PageEntry>,
    run: Seq<PageEntry>,
)
    requires
        pt_wf(es),
        tallied(start, pm, es),
        room(start, es.len() as int),
        run_ok(run),
        referenced(start, run),
        has_all(es, run),
    ensures
        pt_wf(install_all(es, pm, run).0),
        tallied(start, install_all(es, pm, run).1, install_all(es, pm, run).0),
        install_all(es, pm, run).1.mem == pm.mem,
        install_all(es, pm, run).0.len() == es.len(),
        keeps_pages(es, install_all(es, pm, run).0),
    decreases run.len(),
{
    if run.len() > 0 {
        let d = run.drop_last();
        let e = run.last();
        assert(e == run[run.len() - 1]);
        assert(run_ok(d)) by {
            assert forall|i: int| 0 <= i < d.len() implies (#[trigger] d[i]).vaddr % 4096 == 0
                && crate::addr::frame_ok(d[i].paddr as int) by {
                assert(d[i] == run[i]);
            }
        }
        assert(referenced(start, d)) by {
            assert forall|i: int|
                0 <= i < d.len() && start.is_frame((#[trigger] d[i]).paddr as int) implies start.ref_of(
                d[i].paddr as int,
            ) >= 1 by {
                assert(d[i] == run[i]);
            }
        }
        assert(has_all(es, d)) by {
            assert forall|i: int| 0 <= i < d.len() implies lookup(
                es,
                (#[trigger] d[i]).vaddr as int,
            ).is_some() by {
                assert(d[i] == run[i]);
            }
        }
        lemma_tally_install_all(start, pm, es, d);
        let p = install_all(es, pm, d);
        assert(lookup(es, e.vaddr as int).is_some());
        assert(lookup(p.0, e.vaddr as int).is_some());
        if p.1.is_frame(e.paddr as int) {
            lemma_tally_live(start, p.1, p.0, e.paddr as int);
        }
        lemma_tally_install(start, p.1, p.0, e);
        let q = install(p.0, p.1, e);
        assert forall|va: int| (#[trigger] lookup(es, va)).is_some() implies lookup(
            q.0,
            va,
        ).is_some() by {
            assert(lookup(p.0, va).is_some());
        }
    }
}

/// A deep copy of leaves, in place of leaves that are there, whose frames
/// have a reference from the start keeps the tally, and changes no byte of
/// a frame that has a reference from the start.
pub proof fn lemma_tally_copy_all(
    start: PmView,
    pm: PmView,
    es: Seq<PageEntry>,
    run: Seq<PageEntry>,
)
    requires
        pt_wf(es),
        tallied(start, pm, es),
        start.wf(),
        kept(start, pm),
        room(start, es.len() as int),
        run_ok(run),
        referenced(start, run),
        has_all(es, run),
    ensures
        pt_wf(copy_all(es, pm, run).0),
        tallied(start, copy_all(es, pm, run).1, copy_all(es, pm, run).0),
        kept(start, copy_all(es, pm, run).1),
        copy_all(es, pm, run).0.len() == es.len(),
        keeps_pages(es, copy_all(es, pm, run).0),
    decreases run.len(),
{
    if run.len() > 0 {
        let d = run.drop_last();
        let e = run.last();
        assert(e == run[run.len() - 1]);
        assert(run_ok(d)) by {
            assert forall|i: int| 0 <= i < d.len() implies (#[trigger] d[i]).vaddr % 4096 == 0
                && crate::addr::frame_ok(d[i].paddr as int) by {
                assert(d[i] == run[i]);
            }
        }
        assert(referenced(start, d)) by {
            assert forall|i: int|
                0 <= i < d.len() && start.is_frame((#[trigger] d[i]).paddr as int) implies start.ref_of(
                d[i].paddr as int,
            ) >= 1 by {
                assert(d[i] == run[i]);
            }
        }
        assert(has_all(es, d)) by {
            assert forall|i: int| 0 <= i < d.len() implies lookup(
                es,
                (#[trigger] d[i]).vaddr as int,
            ).is_some() by {
                assert(d[i] == run[i]);
            }
        }
        lemma_tally_copy_all(start, pm, es, d);
        let p = copy_all(es, pm, d);
        assert(lookup(es, e.vaddr as int).is_some());
        assert(lookup(p.0, e.vaddr as int).is_some());
        if p.2 {
            if p.1.is_live(e.paddr as int) {
                if p.1.has_free() {
                    let i = p.1.lowest_free();
                    let fresh = p.1.addr_of(i);
                    lemma_allocate(p.1, false);
                    let a = p.1.allocate(false);
                    let c = a.copy_page(e.paddr as int, fresh);
                    let n = PageEntry { paddr: fresh as u64, ..e };
                    lemma_leaves_le(p.0, fresh);
                    assert(p.1.ref_of(fresh) == start.ref_of(fresh) + leaves_to(p.0, fresh));
                    assert(p.1.refs[i] == 0);
                    assert(start.refs[i] == 0);
                    assert(c.wf());
                    assert(tallied(start, c, p.0)) by {
                        assert forall|f: int| c.is_frame(f) implies c.ref_of(f) == start.ref_of(f)
                            + #[trigger] leaves_to(p.0, f) by {
                            assert(p.1.ref_of(f) == start.ref_of(f) + leaves_to(p.0, f));
                        }
                    }
                    assert(kept(start, c)) by {
                        assert forall|k: int|
                            0 <= k < start.mem.len() && start.refs[k / 4096] > 0 implies #[trigger] c.mem[k]
                            == start.mem[k] by {
                            assert(p.1.mem[k] == start.mem[k]);
                            assert(k / 4096 != i);
                        }
                    }
                    assert(c.is_live(fresh));
                    lemma_tally_install(start, c, p.0, n);
                    let q = install(p.0, c, n);
                    assert forall|va: int| (#[trigger] lookup(es, va)).is_some() implies lookup(
                        q.0,
                        va,
                    ).is_some() by {
                        assert(lookup(p.0, va).is_some());
                    }
                }
            } else {
                if p.1.is_frame(e.paddr as int) {
                    lemma_tally_live(start, p.1, p.0, e.paddr as int);
                }
                lemma_tally_install(start, p.1, p.0, e);
                let q = install(p.0, p.1, e);
                assert forall|va: int| (#[trigger] lookup(es, va)).is_some() implies lookup(
                    q.0,
                    va,
                ).is_some() by {
                    assert(lookup(p.0, va).is_some());
                }
            }
        }
    }
}

/// The leaves of a range of pages of a table are leaves that the table
/// itself has, pages and frames.
pub proof fn lemma_within_run(src: Seq<PageEntry>, start: PmView, dst: Seq<PageEntry>, lo: int, hi: int)
    requires
        pt_wf(src),
        lo <= hi,
        referenced(start, src),
        has_all(dst, src),
    ensures
        run_ok(within(src, lo, hi)),
        referenced(start, within(src, lo, hi)),
        has_all(dst, within(src, lo, hi)),
{
    lemma_within(src, lo, hi);
    let w = within(src, lo, hi);
    let b = below(src, lo);
    assert forall|i: int|
        0 <= i < w.len() && start.is_frame((#[trigger] w[i]).paddr as int) implies start.ref_of(
        w[i].paddr as int,
    ) >= 1 by {
        assert(w[i] == src[b + i]);
    }
    assert forall|i: int| 0 <= i < w.len() implies lookup(
        dst,
        (#[trigger] w[i]).vaddr as int,
    ).is_some() by {
        assert(w[i] == src[b + i]);
    }
}

/// What a fork does for the pages of areas keeps the tally of the child's
/// table, and changes no byte of a frame that has a reference from the
/// start.
pub proof fn lemma_tally_fork_areas(
    start: PmView,
    src: Seq<PageEntry>,
    dst: Seq<PageEntry>,
    pm: PmView,
    segs: Seq<AreaEntry>,
)
    requires
        pt_wf(src),
        pt_wf(dst),
        no_user_write(src),
        start.wf(),
        tallied(start, pm, dst),
        kept(start, pm),
        room(start, dst.len() as int),
        referenced(start, src),
        has_all(dst, src),
        forall|i: int| 0 <= i < segs.len() ==> (#[trigger] segs[i]).range.wf(),
    ensures
        pt_wf(fork_areas(src, dst, pm, segs).0),
        tallied(start, fork_areas(src, dst, pm, segs).1, fork_areas(src, dst, pm, segs).0),
        kept(start, fork_areas(src, dst, pm, segs).1),
        fork_areas(src, dst, pm, segs).0.len() == dst.len(),
        keeps_pages(dst, fork_areas(src, dst, pm, segs).0),
    decreases segs.len(),
{
    if segs.len() > 0 {
        let d = segs.drop_last();
        assert forall|i: int| 0 <= i < d.len() implies (#[trigger] d[i]).range.wf() by {
            assert(d[i] == segs[i]);
        }
        lemma_tally_fork_areas(start, src, dst, pm, d);
        let p = fork_areas(src, dst, pm, d);
        let e = segs.last();
        assert(e == segs[segs.len() - 1]);
        if p.2 && !e.vma.kernel {
            let lo = e.range.start as int;
            let hi = e.range.end();
            let run = within(src, lo, hi);
            assert(has_all(p.0, src)) by {
                assert forall|i: int| 0 <= i < src.len() implies lookup(
                    p.0,
                    (#[trigger] src[i]).vaddr as int,
                ).is_some() by {
                    assert(lookup(dst, src[i].vaddr as int).is_some());
                }
            }
            lemma_within(src, lo, hi);
            lemma_within_run(src, start, p.0, lo, hi);
            let q = fork_area(src, p.0, p.1, e);
            if e.vma.private {
                lemma_cow_id(run);
                lemma_tally_install_all(start, p.1, p.0, run);
            } else {
                lemma_tally_copy_all(start, p.1, p.0, run);
            }
            assert forall|va: int| (#[trigger] lookup(dst, va)).is_some() implies lookup(
                q.0,
                va,
            ).is_some() by {
                assert(lookup(p.0, va).is_some());
            }
        }
    }
}

/// Adding a reference for each leaf of a run whose frames, where they are
/// the pool's, are allocated gives the tally of the run, and changes
/// neither the memory nor which frames are allocated.
pub proof fn lemma_tally_retain_all(start: PmView, run: Seq<PageEntry>)
    requires
        start.wf(),
        room(start, run.len() as int),
        forall|i: int|
            0 <= i < run.len() && start.is_frame((#[trigger] run[i]).paddr as int)
                ==> start.is_live(run[i].paddr as int),
    ensures
        tallied(start, retain_all(start, run), run),
        retain_all(start, run).mem == start.mem,
        retain_all(start, run).live == start.live,
    decreases run.len(),
{
    if run.len() > 0 {
        let d = run.drop_last();
        let e = run.last();
        assert(e == run[run.len() - 1]);
        assert forall|i: int|
            0 <= i < d.len() && start.is_frame((#[trigger] d[i]).paddr as int) implies start.is_live(
            d[i].paddr as int,
        ) by {
            assert(d[i] == run[i]);
        }
        assert(room(start, d.len() as int)) by {
            assert forall|f: int| #[trigger] start.ref_of(f) + d.len() < u64::MAX by {
                assert(start.ref_of(f) + run.len() < u64::MAX);
            }
        }
        lemma_tally_retain_all(start, d);
        let p = retain_all(start, d);
        let g = e.paddr as int;
        crate::pagetable::lemma_pm_step(p, g);
        lemma_leaves_le(d, g);
        assert(start.ref_of(g) + run.len() < u64::MAX);
        let q = p.retain(g);
        assert forall|f: int| q.is_frame(f) implies q.ref_of(f) == start.ref_of(f)
            + #[trigger] leaves_to(run, f) by {
            assert(p.ref_of(f) == start.ref_of(f) + leaves_to(d, f));
            lemma_frame_index(p, f, g);
        }
    }
}

/// A table has as many leaves to a frame after a fork has write-protected
/// it as before.
pub proof fn lemma_leaves_cow(es: Seq<PageEntry>, f: int)
    ensures
        leaves_to(cow_run(es), f) == leaves_to(es, f),
    decreases es.len(),
{
    if es.len() > 0 {
        lemma_leaves_cow(es.drop_last(), f);
        assert(cow_run(es).drop_last() =~= cow_run(es.drop_last()));
        assert(cow_run(es).last() == crate::pagetable::cow(es.last()));
    }
}

/// Where a fork starts: the pool after the root of the child's table was
/// handed out, and the child's table as a copy of the parent's, hold the
/// tally and what the steps of the fork need.
pub proof fn lemma_fork_start(before: Seq<PageEntry>, pm: PmView)
    requires
        pt_wf(before),
        pm.wf(),
        pm.has_free(),
        counted(pm, before, Seq::<PageEntry>::empty()),
        room(pm, before.len() + 1 as int),
    ensures
        ({
            let root = pm.addr_of(pm.lowest_free());
            let start = pm.allocate(true).retain(root);
            let parent = cow_run(before);
            let pm1 = retain_all(start, before);
            &&& start.wf()
            &&& start.base == pm.base
            &&& start.frames() == pm.frames()
            &&& pm.is_frame(root)
            &&& !pm.is_live(root)
            &&& forall|f: int| f != root ==> #[trigger] start.ref_of(f) == pm.ref_of(f)
            &&& forall|k: int|
                0 <= k < pm.mem.len() && !(root - pm.base <= k < root - pm.base + 4096)
                    ==> #[trigger] start.mem[k] == pm.mem[k]
            &&& pt_wf(parent)
            &&& no_user_write(parent)
            &&& tallied(start, pm1, parent)
            &&& kept(start, pm1)
            &&& room(start, parent.len() as int)
            &&& referenced(start, parent)
            &&& has_all(parent, parent)
        }),
{
    let i = pm.lowest_free();
    let root = pm.addr_of(i);
    let parent = cow_run(before);
    lemma_allocate(pm, true);
    let a = pm.allocate(true);
    crate::pagetable::lemma_pm_step(a, root);
    let start = a.retain(root);
    assert forall|h: int| h != root implies #[trigger] start.ref_of(h) == pm.ref_of(h) by {
        lemma_frame_index(pm, h, root);
    }
    assert forall|h: int| #[trigger] start.ref_of(h) <= pm.ref_of(h) + 1 by {
        lemma_frame_index(pm, h, root);
    }
    assert(room(start, before.len() as int)) by {
        assert forall|h: int| #[trigger] start.ref_of(h) + before.len() < u64::MAX by {
            assert(pm.ref_of(h) + (before.len() + 1) < u64::MAX);
        }
    }
    assert forall|k: int|
        0 <= k < before.len() && start.is_frame((#[trigger] before[k]).paddr as int) implies start.is_live(
        before[k].paddr as int,
    ) && start.ref_of(before[k].paddr as int) >= 1 by {
        let h = before[k].paddr as int;
        assert(pm.is_live(h));
        lemma_frame_index(pm, h, root);
        crate::laws::lemma_leaves_to(before, h, k);
        lemma_leaves_nonneg(Seq::<PageEntry>::empty(), h);
        assert(pm.ref_of(h) >= leaves_to(before, h) + leaves_to(Seq::<PageEntry>::empty(), h));
    }
    lemma_tally_retain_all(start, before);
    let pm1 = retain_all(start, before);
    lemma_cow_run(before);
    assert(no_user_write(parent)) by {
        assert forall|k: int| 0 <= k < parent.len() implies !(crate::pageopts::pte_user(
            (#[trigger] parent[k]).flags,
        ) && pte_writable(parent[k].flags)) by {
            assert(parent[k] == cow_run(before)[k]);
        }
    }
    assert(tallied(start, pm1, parent)) by {
        assert forall|h: int| pm1.is_frame(h) implies pm1.ref_of(h) == start.ref_of(h)
            + #[trigger] leaves_to(parent, h) by {
            lemma_leaves_cow(before, h);
            assert(pm1.ref_of(h) == start.ref_of(h) + leaves_to(before, h));
        }
    }
    assert(referenced(start, parent)) by {
        assert forall|k: int|
            0 <= k < parent.len() && start.is_frame((#[trigger] parent[k]).paddr as int) implies start.ref_of(
            parent[k].paddr as int,
        ) >= 1 by {
            assert(parent[k].paddr == before[k].paddr);
        }
    }
    assert(has_all(parent, parent)) by {
        assert forall|k: int| 0 <= k < parent.len() implies lookup(
            parent,
            (#[trigger] parent[k]).vaddr as int,
        ).is_some() by {
            lemma_lookup(parent, parent[k].vaddr as int);
        }
    }
    assert(kept(start, pm1));
}

/// A fork counts what it shares, and leaves shared memory as it is. Where
/// the pool counts the leaves of the parent before the fork, and no count
/// is near the largest, every frame that was allocated has afterwards the
/// references that it had and one more for each leaf of the child that
/// points to it; and a frame that had a reference is still allocated and
/// holds the bytes that it held.
///
/// This holds whether or not a frame was missing for a copy: the child's
/// table and the pool are those that the fork had reached.
pub proof fn law_fork_counts(before: Seq<PageEntry>, pm: PmView, segs: Seq<AreaEntry>, f: int)
    requires
        pt_wf(before),
        pm.wf(),
        pm.has_free(),
        forall|i: int| 0 <= i < segs.len() ==> (#[trigger] segs[i]).range.wf(),
        counted(pm, before, Seq::<PageEntry>::empty()),
        room(pm, before.len() + 1 as int),
        pm.is_live(f),
    ensures
        ({
            let root = pm.addr_of(pm.lowest_free());
            let parent = cow_run(before);
            let res = fork_areas(
                parent,
                parent,
                retain_all(pm.allocate(true).retain(root), before),
                segs,
            );
            &&& f != root
            &&& res.1.ref_of(f) == pm.ref_of(f) + leaves_to(res.0, f)
            &&& pm.ref_of(f) >= 1 ==> res.1.is_live(f) && res.1.bytes(f, 4096) == pm.bytes(f, 4096)
        }),
{
    let root = pm.addr_of(pm.lowest_free());
    let parent = cow_run(before);
    let start = pm.allocate(true).retain(root);
    let pm1 = retain_all(start, before);
    lemma_fork_start(before, pm);
    lemma_tally_fork_areas(start, parent, parent, pm1, segs);
    let res = fork_areas(parent, parent, pm1, segs);
    assert(res.1.is_frame(f));
    assert(res.1.ref_of(f) == start.ref_of(f) + leaves_to(res.0, f));
    if pm.ref_of(f) >= 1 {
        lemma_tally_live(start, res.1, res.0, f);
        lemma_kept_bytes(start, res.1, f);
        assert forall|k: int| 0 <= k < 4096 implies #[trigger] start.bytes(f, 4096)[k] == pm.bytes(
            f,
            4096,
        )[k] by {
            lemma_frames_apart(pm, root, f, k);
            assert(start.mem[f - pm.base + k] == pm.mem[f - pm.base + k]);
        }
        assert(start.bytes(f, 4096) =~= pm.bytes(f, 4096));
    }
}

/// After a fork, parent and child read the same on every page, and what
/// the parent read before: a page that had a leaf to a frame of the pool
/// has in both tables a leaf to a frame with the bytes that the parent's
/// frame had. In a private area it is the parent's frame; in a shared
/// area the child has a frame of its own.
///
/// This holds where the pool counts the leaves of the parent before the
/// fork, and no count is near the largest; and whether or not a frame was
/// missing for a copy.
pub proof fn law_fork_reads_alike(before: Seq<PageEntry>, pm: PmView, segs: Seq<AreaEntry>, va: int)
    requires
        pt_wf(before),
        pm.wf(),
        pm.has_free(),
        forall|i: int| 0 <= i < segs.len() ==> (#[trigger] segs[i]).range.wf(),
        counted(pm, before, Seq::<PageEntry>::empty()),
        room(pm, before.len() + 1 as int),
        lookup(before, va).is_some(),
        pm.is_frame(lookup(before, va).unwrap().paddr as int),
    ensures
        ({
            let root = pm.addr_of(pm.lowest_free());
            let parent = cow_run(before);
            let res = fork_areas(
                parent,
                parent,
                retain_all(pm.allocate(true).retain(root), before),
                segs,
            );
            &&& lookup(parent, va).is_some()
            &&& lookup(res.0, va).is_some()
            &&& page_bytes(parent, res.1, va) == page_bytes(before, pm, va)
            &&& page_bytes(res.0, res.1, va) == page_bytes(before, pm, va)
        }),
{
    let root = pm.addr_of(pm.lowest_free());
    let parent = cow_run(before);
    let start = pm.allocate(true).retain(root);
    let pm1 = retain_all(start, before);
    let l = lookup(before, va).unwrap();
    let f = l.paddr as int;
    lemma_fork_start(before, pm);
    lemma_lookup(before, va);
    let k = choose|k: int| 0 <= k < before.len() && (#[trigger] before[k]).vaddr == va;
    assert(before[k] == l);
    assert(pm.is_live(f));
    crate::laws::lemma_leaves_to(before, f, k);
    lemma_leaves_nonneg(Seq::<PageEntry>::empty(), f);
    assert(pm.ref_of(f) >= leaves_to(before, f) + leaves_to(Seq::<PageEntry>::empty(), f));
    lemma_cow_run(before);
    assert(lookup(parent, va) == Some(crate::pagetable::cow(l)));
    assert(f != root);
    assert(start.ref_of(f) >= 1);
    lemma_kept_bytes(start, pm1, f);
    assert(reads_alike(start, parent, pm1, parent, va));
    lemma_reads_fork_areas(start, parent, parent, pm1, segs, va);
    lemma_tally_fork_areas(start, parent, parent, pm1, segs);
    let res = fork_areas(parent, parent, pm1, segs);
    lemma_kept_bytes(start, res.1, f);
    assert forall|i: int| 0 <= i < 4096 implies #[trigger] start.bytes(f, 4096)[i] == pm.bytes(
        f,
        4096,
    )[i] by {
        lemma_frames_apart(pm, root, f, i);
        assert(start.mem[f - pm.base + i] == pm.mem[f - pm.base + i]);
    }
    assert(start.bytes(f, 4096) =~= pm.bytes(f, 4096));
}

/// Some leaf of `other` points to the frame at `pa`.
pub open spec fn has_leaf_to(other: Seq<PageEntry>, pa: u64) -> bool {
    exists|j: int| 0 <= j < other.len() && (#[trigger] other[j]).paddr == pa
}

/// Every frame of the pool that holds a page of a backing object is the
/// frame of a leaf of `other`: the objects' own references are among
/// those that `other` stands for.
pub open spec fn files_held(pm: PmView, files: &MappableTable, other: Seq<PageEntry>) -> bool {
    forall|m: u64, off: u64|
        (#[trigger] files.frame_at(m, off)).is_ok() && pm.is_frame(
            files.frame_at(m, off).unwrap() as int,
        ) ==> has_leaf_to(other, files.frame_at(m, off).unwrap())
}

/// The bytes of the page at `va`, as the table and the pool have them.
pub open spec fn page_bytes(es: Seq<PageEntry>, pm: PmView, va: int) -> Seq<u8> {
    pm.bytes(lookup(es, va).unwrap().paddr as int, 4096)
}

/// Two frames of the pool that differ share no byte.
pub proof fn lemma_frames_apart(pm: PmView, g: int, h: int, k: int)
    requires
        pm.wf(),
        pm.is_frame(g),
        pm.is_frame(h),
        g != h,
        0 <= k < 4096,
    ensures
        0 <= h - pm.base + k < pm.mem.len(),
        !(g - pm.base <= h - pm.base + k < g - pm.base + 4096),
{
    lemma_frame_index(pm, g, h);
}

/// Serving a fault changes no byte of memory and adds at most one
/// reference to a frame.
pub proof fn lemma_fault_in_memory(
    es: Seq<PageEntry>,
    pm: PmView,
    vma: VMA,
    range: crate::range::Range,
    page: u64,
    files: &MappableTable,
)
    requires
        pt_wf(es),
        pm.wf(),
        files.wf(),
    ensures
        fault_in(es, pm, vma, range, page, files).1.mem == pm.mem,
        forall|f: int| #[trigger]
            fault_in(es, pm, vma, range, page, files).1.ref_of(f) <= pm.ref_of(f) + 1,
{
    let r = fault_in(es, pm, vma, range, page, files);
    if page % 4096 == 0 && lookup(es, page as int).is_none() {
        match crate::mm::backing(vma, range, page, files) {
            Err(e) => {},
            Ok(Some(pa)) => {
                assert(r.1 == pm.retain(pa as int));
                assert forall|f: int| #[trigger] r.1.ref_of(f) <= pm.ref_of(f) + 1 by {
                    lemma_frame_index(pm, f, pa as int);
                }
            },
            Ok(None) => {
                if pm.has_free() {
                    lemma_allocate(pm, false);
                    let g = pm.addr_of(pm.lowest_free());
                    let a = pm.allocate(false);
                    assert(r.1 == a.retain(g));
                    assert forall|f: int| #[trigger] r.1.ref_of(f) <= pm.ref_of(f) + 1 by {
                        lemma_frame_index(pm, f, g);
                    }
                }
            },
        }
    }
}

/// Resolving a write fault adds at most one reference to a frame, changes
/// no byte of an allocated frame, and leaves the page with the bytes that
/// it had.
pub proof fn lemma_cow_page_contents(
    es: Seq<PageEntry>,
    other: Seq<PageEntry>,
    pm: PmView,
    page: u64,
    vma: VMA,
    va: int,
)
    requires
        pt_wf(es),
        pm.wf(),
        page % 4096 == 0,
        counted(pm, es, other),
        lookup(es, page as int).is_some(),
        lookup(es, va).is_some(),
        pm.is_frame(lookup(es, va).unwrap().paddr as int),
    ensures
        lookup(cow_page(es, pm, page, vma).0, va).is_some(),
        pm.is_frame(lookup(cow_page(es, pm, page, vma).0, va).unwrap().paddr as int),
        page_bytes(cow_page(es, pm, page, vma).0, cow_page(es, pm, page, vma).1, va) == page_bytes(
            es,
            pm,
            va,
        ),
        forall|f: int| #[trigger] cow_page(es, pm, page, vma).1.ref_of(f) <= pm.ref_of(f) + 1,
{
    let c = cow_page(es, pm, page, vma);
    let e = lookup(es, page as int).unwrap();
    let l = lookup(es, va).unwrap();
    lemma_cow_page(es, pm, page, vma);
    lemma_lookup(es, page as int);
    lemma_lookup(es, va);
    assert(crate::addr::page_down(page as int) == page);
    if !pte_writable(e.flags) && pm.is_live(e.paddr as int) {
        if pm.ref_of(e.paddr as int) == 1 && vma.mappable.is_none() {
            law_cow_in_place(es, pm, page, vma);
        } else if pm.has_free() {
            law_cow_copies(es, pm, page, vma);
            let f = e.paddr as int;
            let g = lookup(c.0, page as int).unwrap().paddr as int;
            assert forall|h: int| #[trigger] c.1.ref_of(h) <= pm.ref_of(h) + 1 by {
                if h != f && h != g {
                    assert(c.1.ref_of(h) == pm.ref_of(h));
                }
            }
            if va == page {
                assert(page_bytes(c.0, c.1, va) == pm.bytes(f, 4096));
            } else {
                let h = l.paddr as int;
                let k = choose|k: int| 0 <= k < es.len() && (#[trigger] es[k]).vaddr == va;
                assert(es[k] == l);
                assert(pm.is_live(h));
                assert(lookup(c.0, va) == Some(l));
                assert forall|i: int| 0 <= i < 4096 implies #[trigger] c.1.bytes(h, 4096)[i]
                    == pm.bytes(h, 4096)[i] by {
                    lemma_frames_apart(pm, g, h, i);
                    assert(c.1.mem[h - pm.base + i] == pm.mem[h - pm.base + i]);
                }
                assert(c.1.bytes(h, 4096) =~= pm.bytes(h, 4096));
            }
        }
    }
}

/// Making one page accessible keeps the pool counting the leaves, adds at
/// most one reference to a frame, and leaves every page that has a leaf
/// to a frame of the pool with the bytes that it had.
pub proof fn lemma_fix_page_contents(
    es: Seq<PageEntry>,
    other: Seq<PageEntry>,
    pm: PmView,
    vmas: &AreaSet,
    files: &MappableTable,
    page: u64,
    writeReq: bool,
    va: int,
)
    requires
        pt_wf(es),
        pm.wf(),
        files.wf(),
        page % 4096 == 0,
        counted(pm, es, other),
        files_held(pm, files, other),
        room(pm, 1),
        lookup(es, va).is_some(),
        pm.is_frame(lookup(es, va).unwrap().paddr as int),
    ensures
        ({
            let s = fix_page(es, pm, vmas, files, page, writeReq);
            &&& counted(s.1, s.0, other)
            &&& lookup(s.0, va).is_some()
            &&& pm.is_frame(lookup(s.0, va).unwrap().paddr as int)
            &&& page_bytes(s.0, s.1, va) == page_bytes(es, pm, va)
            &&& forall|f: int| #[trigger] s.1.ref_of(f) <= pm.ref_of(f) + 1
        }),
{
    let s = fix_page(es, pm, vmas, files, page, writeReq);
    let area = vmas.area_at(page as int);
    lemma_fix_page(es, pm, vmas, files, page, writeReq);
    let a = if lookup(es, page as int).is_some() {
        (es, pm, None::<Error>)
    } else {
        match area {
            None => (es, pm, Some(Error::SysError(SysErr::EFAULT))),
            Some(ar) => fault_in(es, pm, ar.vma, ar.range, page, files),
        }
    };
    if lookup(es, page as int).is_none() && area.is_some() {
        let ar = area.unwrap();
        lemma_fault_in(es, pm, ar.vma, ar.range, page, files);
        lemma_fault_in_memory(es, pm, ar.vma, ar.range, page, files);
        assert(crate::mm::backing(ar.vma, ar.range, page, files) matches Ok(Some(pa)) ==> (
        pm.is_frame(pa as int) ==> pm.is_live(pa as int) && pm.ref_of(pa as int) < u64::MAX)) by {
            match crate::mm::backing(ar.vma, ar.range, page, files) {
                Ok(Some(pa)) => {
                    if pm.is_frame(pa as int) {
                        let m = ar.vma.mappable.unwrap();
                        let off = (ar.vma.offset + (page - ar.range.start)) as u64;
                        assert(files.frame_at(m, off) == Ok::<u64, Error>(pa));
                        assert(has_leaf_to(other, pa));
                        let j = choose|j: int| 0 <= j < other.len() && (#[trigger] other[j]).paddr == pa;
                        assert(pm.is_live(other[j].paddr as int));
                        assert(pm.ref_of(pa as int) + 1 < u64::MAX);
                    }
                },
                _ => {},
            }
        }
        law_fault_counts(es, other, pm, ar.vma, ar.range, page, files);
        assert(va != page);
        assert(lookup(a.0, va) == lookup(es, va));
    }
    assert(counted(a.1, a.0, other));
    assert(a.1.mem == pm.mem);
    assert(lookup(a.0, va) == lookup(es, va));
    if page != 0 && a.2.is_none() && writeReq && !pte_writable(
        lookup(a.0, page as int).unwrap().flags,
    ) && area.is_some() && area.unwrap().vma.effectivePerms.write {
        let vma = area.unwrap().vma;
        lemma_cow_page(a.0, a.1, page, vma);
        law_cow_counts(a.0, other, a.1, page, vma);
        lemma_cow_page_contents(a.0, other, a.1, page, vma, va);
        let c = cow_page(a.0, a.1, page, vma);
        assert forall|f: int| #[trigger] c.1.ref_of(f) <= pm.ref_of(f) + 1 by {
            if lookup(es, page as int).is_none() {
                let q = lookup(a.0, page as int).unwrap();
                if c.1 != a.1 {
                    law_cow_copies(a.0, a.1, page, vma);
                    let g = lookup(c.0, page as int).unwrap().paddr as int;
                    if f == g {
                        assert(!a.1.is_live(g));
                        assert(a.1.ref_of(g) == 0);
                        lemma_frame_index(pm, g, g);
                    } else if f != q.paddr {
                        assert(c.1.ref_of(f) == a.1.ref_of(f));
                    }
                }
            }
        }
    }
}

/// Making pages accessible keeps the pool counting the leaves, adds at
/// most one reference to a frame for each page, and leaves every page
/// that has a leaf to a frame of the pool with the bytes that it had.
pub proof fn lemma_fix_pages_contents(
    es: Seq<PageEntry>,
    other: Seq<PageEntry>,
    pm: PmView,
    vmas: &AreaSet,
    files: &MappableTable,
    first: u64,
    n: nat,
    writeReq: bool,
    va: int,
)
    requires
        pt_wf(es),
        pm.wf(),
        files.wf(),
        first % 4096 == 0,
        first + 4096 * n <= u64::MAX + 4096,
        counted(pm, es, other),
        files_held(pm, files, other),
        room(pm, n as int),
        lookup(es, va).is_some(),
        pm.is_frame(lookup(es, va).unwrap().paddr as int),
    ensures
        ({
            let p = fix_pages(es, pm, vmas, files, first, n, writeReq);
            &&& counted(p.1, p.0, other)
            &&& lookup(p.0, va).is_some()
            &&& pm.is_frame(lookup(p.0, va).unwrap().paddr as int)
            &&& page_bytes(p.0, p.1, va) == page_bytes(es, pm, va)
            &&& forall|f: int| #[trigger] p.1.ref_of(f) <= pm.ref_of(f) + n
        }),
    decreases n,
{
    if n > 0 {
        assert(room(pm, n - 1)) by {
            assert forall|f: int| #[trigger] pm.ref_of(f) + (n - 1) < u64::MAX by {
                assert(pm.ref_of(f) + n < u64::MAX);
            }
        }
        lemma_fix_pages_contents(es, other, pm, vmas, files, first, (n - 1) as nat, writeReq, va);
        lemma_fix_pages(es, pm, vmas, files, first, (n - 1) as nat, writeReq);
        let p = fix_pages(es, pm, vmas, files, first, (n - 1) as nat, writeReq);
        if p.3 == FixStep::Next {
            let page = (first + 4096 * (n - 1)) as u64;
            assert(room(p.1, 1)) by {
                assert forall|f: int| #[trigger] p.1.ref_of(f) + 1 < u64::MAX by {
                    assert(p.1.ref_of(f) <= pm.ref_of(f) + (n - 1));
                    assert(pm.ref_of(f) + n < u64::MAX);
                }
            }
            assert(files_held(p.1, files, other)) by {
                assert forall|m: u64, off: u64|
                    (#[trigger] files.frame_at(m, off)).is_ok() && p.1.is_frame(
                        files.frame_at(m, off).unwrap() as int,
                    ) implies has_leaf_to(other, files.frame_at(m, off).unwrap()) by {
                    assert(pm.is_frame(files.frame_at(m, off).unwrap() as int));
                }
            }
            lemma_fix_page_contents(p.0, other, p.1, vmas, files, page, writeReq, va);
            let s = fix_page(p.0, p.1, vmas, files, page, writeReq);
            assert forall|f: int| #[trigger] s.1.ref_of(f) <= pm.ref_of(f) + n by {
                assert(p.1.ref_of(f) <= pm.ref_of(f) + (n - 1));
            }
        } else {
            assert forall|f: int|
                #[trigger] p.1.ref_of(f) <= pm.ref_of(f) + n by {
                assert(p.1.ref_of(f) <= pm.ref_of(f) + (n - 1));
            }
        }
    } else {
        assert forall|f: int|
            #[trigger] pm.ref_of(f) <= pm.ref_of(f) + n by {}
    }
}

/// Reading guest memory changes no byte that the guest can see: every
/// page that has a leaf to a frame of the pool has, after `len` bytes at
/// `a` were read, the bytes that it had. Pages of the range may have been
/// faulted in on the way.
///
/// This holds where the pool counts the leaves of the table and the
/// references of everybody else, for whom `other` stands, the backing
/// objects among them, and no count is near the largest.
pub proof fn law_read_keeps_memory(
    es: Seq<PageEntry>,
    other: Seq<PageEntry>,
    pm: PmView,
    vmas: &AreaSet,
    files: &MappableTable,
    a: u64,
    len: usize,
    va: int,
)
    requires
        pt_wf(es),
        pm.wf(),
        files.wf(),
        0 < len,
        counted(pm, es, other),
        files_held(pm, files, other),
        room(pm, crate::mm::pages_of(a as int, len as int)),
        lookup(es, va).is_some(),
        pm.is_frame(lookup(es, va).unwrap().paddr as int),
    ensures
        ({
            let r = crate::usermem::read_step(es, pm, vmas, files, a, len);
            &&& pt_wf(r.0)
            &&& r.1.wf()
            &&& r.1.base == pm.base
            &&& r.1.frames() == pm.frames()
            &&& counted(r.1, r.0, other)
            &&& lookup(r.0, va).is_some()
            &&& pm.is_frame(lookup(r.0, va).unwrap().paddr as int)
            &&& page_bytes(r.0, r.1, va) == page_bytes(es, pm, va)
            &&& forall|f: int| #[trigger]
                r.1.ref_of(f) <= pm.ref_of(f) + crate::mm::pages_of(a as int, len as int)
        }),
{
    reveal(crate::usermem::read_step);
    reveal(crate::translate::v2p_step);
    let first = crate::addr::page_down(a as int) as u64;
    let n = crate::mm::pages_of(a as int, len as int) as nat;
    crate::mm::lemma_pages_of(a as int, len as int);
    if a + len <= u64::MAX {
        lemma_fix_pages(es, pm, vmas, files, first, n, false);
        lemma_fix_pages_contents(es, other, pm, vmas, files, first, n, false, va);
    } else {
        assert forall|f: int| #[trigger]
            pm.ref_of(f) <= pm.ref_of(f) + crate::mm::pages_of(a as int, len as int) by {}
    }
}

/// A write to guest memory changes no byte that the guest can see but
/// those of the range: a byte at the address `b` that has a leaf to a
/// frame of the pool, and lies after the write on another byte of memory
/// than every address of the range, is after the write what it was
/// before. Its page may have got another frame on the way.
///
/// This holds where the pool counts the leaves of the table and the
/// references of everybody else, for whom `other` stands, the backing
/// objects among them, and no count is near the largest.
pub proof fn law_write_keeps_memory(
    es: Seq<PageEntry>,
    other: Seq<PageEntry>,
    pm: PmView,
    vmas: &AreaSet,
    files: &MappableTable,
    data: Seq<u8>,
    a: u64,
    b: int,
)
    requires
        pt_wf(es),
        pm.wf(),
        files.wf(),
        0 < data.len() <= usize::MAX,
        crate::usermem::write_step(es, pm, vmas, files, data, a).2.is_none(),
        counted(pm, es, other),
        files_held(pm, files, other),
        room(pm, crate::mm::pages_of(a as int, data.len() as int)),
        0 <= b,
        lookup(es, crate::addr::page_down(b)).is_some(),
        pm.is_frame(lookup(es, crate::addr::page_down(b)).unwrap().paddr as int),
        forall|i: int|
            0 <= i < data.len() ==> #[trigger] crate::roundtrip::phys(
                crate::usermem::write_step(es, pm, vmas, files, data, a).0,
                a + i,
            ) != crate::roundtrip::phys(
                crate::usermem::write_step(es, pm, vmas, files, data, a).0,
                b,
            ),
    ensures
        ({
            let w = crate::usermem::write_step(es, pm, vmas, files, data, a);
            &&& counted(w.1, w.0, other)
            &&& lookup(w.0, crate::addr::page_down(b)).is_some()
            &&& w.1.mem[crate::roundtrip::phys(w.0, b) - pm.base] == pm.mem[crate::roundtrip::phys(
                es,
                b,
            ) - pm.base]
        }),
{
    crate::roundtrip::lemma_write_above_null(es, pm, vmas, files, data, a);
    let w = crate::usermem::write_step(es, pm, vmas, files, data, a);
    let len = data.len() as int;
    let first = crate::addr::page_down(a as int) as u64;
    let n = crate::mm::pages_of(a as int, len) as nat;
    let va = crate::addr::page_down(b);
    crate::mm::lemma_pages_of(a as int, len);
    let p = fix_pages(es, pm, vmas, files, first, n, true);
    assert(a + len <= u64::MAX && w.0 == p.0) by {
        reveal(crate::usermem::write_step);
        reveal(crate::translate::v2p_step);
        lemma_fix_pages(es, pm, vmas, files, first, n, true);
        crate::mm::lemma_fix_pages_count(es, pm, vmas, files, first, n, true);
    }
    lemma_fix_pages(es, pm, vmas, files, first, n, true);
    lemma_fix_pages_contents(es, other, pm, vmas, files, first, n, true, va);
    let l0 = lookup(es, va).unwrap();
    let l1 = lookup(p.0, va).unwrap();
    let off = b % 4096;
    lemma_frame_index(pm, l1.paddr as int, l1.paddr as int);
    lemma_frame_index(pm, l0.paddr as int, l0.paddr as int);
    let pos = crate::roundtrip::phys(p.0, b) - pm.base;
    assert(pos == l1.paddr - pm.base + off);
    assert(0 <= pos < pm.mem.len());
    assert(w.1.base == p.1.base && w.1.refs == p.1.refs && w.1.live == p.1.live && w.1.mem[pos]
        == p.1.mem[pos] && w.1.mem.len() == p.1.mem.len()) by {
        crate::roundtrip::law_write_in_range(es, pm, vmas, files, data, a, pos);
    }
    assert(p.1.bytes(l1.paddr as int, 4096)[off] == pm.bytes(l0.paddr as int, 4096)[off]);
    assert(counted(w.1, w.0, other)) by {
        assert forall|f: int| w.1.is_frame(f) implies w.1.ref_of(f) >= #[trigger] leaves_to(w.0, f)
            + leaves_to(other, f) by {
            assert(p.1.ref_of(f) >= leaves_to(p.0, f) + leaves_to(other, f));
        }
        assert forall|k: int|
            0 <= k < w.0.len() && w.1.is_frame((#[trigger] w.0[k]).paddr as int) implies w.1.is_live(
            w.0[k].paddr as int,
        ) by {
            assert(p.1.is_live(p.0[k].paddr as int));
        }
        assert forall|k: int|
            0 <= k < other.len() && w.1.is_frame((#[trigger] other[k]).paddr as int) implies w.1.is_live(
            other[k].paddr as int,
        ) by {
            assert(p.1.is_live(other[k].paddr as int));
        }
    }
}

/// Compare-and-swap changes no byte that the guest can see but those of
/// the value: a byte at the address `b` that has a leaf to a frame of the
/// pool is, after the value was read, what it was before, and so it is
/// after the new value was written where it then lies on another byte of
/// memory than every address of the value.
///
/// This holds where the pool counts the leaves of the table and the
/// references of everybody else, for whom `other` stands, the backing
/// objects among them, and no count is near the largest.
pub proof fn law_compare_and_swap_keeps_memory<T: crate::plain::Plain>(
    es: Seq<PageEntry>,
    other: Seq<PageEntry>,
    pm: PmView,
    vmas: &AreaSet,
    files: &MappableTable,
    a: u64,
    expect: T,
    new: T,
    b: int,
)
    requires
        pt_wf(es),
        pm.wf(),
        files.wf(),
        counted(pm, es, other),
        files_held(pm, files, other),
        room(pm, 2 * crate::mm::pages_of(a as int, T::size() as int)),
        crate::usermem::read_step(es, pm, vmas, files, a, T::size() as usize).2.is_ok(),
        0 <= b,
        lookup(es, crate::addr::page_down(b)).is_some(),
        pm.is_frame(lookup(es, crate::addr::page_down(b)).unwrap().paddr as int),
        ({
            let s = crate::usermem::read_step(es, pm, vmas, files, a, T::size() as usize);
            let w = crate::usermem::write_step(s.0, s.1, vmas, files, new.encode(), a);
            T::decode(s.2.unwrap()) == expect ==> w.2.is_none() && forall|i: int|
                0 <= i < T::size() ==> #[trigger] crate::roundtrip::phys(w.0, a + i)
                    != crate::roundtrip::phys(w.0, b)
        }),
    ensures
        ({
            let s = crate::usermem::read_step(es, pm, vmas, files, a, T::size() as usize);
            let w = crate::usermem::write_step(s.0, s.1, vmas, files, new.encode(), a);
            let before = pm.mem[crate::roundtrip::phys(es, b) - pm.base];
            &&& lookup(s.0, crate::addr::page_down(b)).is_some()
            &&& s.1.mem[crate::roundtrip::phys(s.0, b) - pm.base] == before
            &&& T::decode(s.2.unwrap()) == expect ==> lookup(
                w.0,
                crate::addr::page_down(b),
            ).is_some() && w.1.mem[crate::roundtrip::phys(w.0, b) - pm.base] == before
        }),
{
    T::lemma_plain(new);
    crate::roundtrip::lemma_read_above_null(es, pm, vmas, files, a, T::size() as usize);
    let size = T::size() as usize;
    let n = crate::mm::pages_of(a as int, T::size() as int);
    crate::mm::lemma_pages_of(a as int, T::size() as int);
    let va = crate::addr::page_down(b);
    let s = crate::usermem::read_step(es, pm, vmas, files, a, size);
    assert(room(pm, n)) by {
        assert forall|f: int| #[trigger] pm.ref_of(f) + n < u64::MAX by {
            assert(pm.ref_of(f) + 2 * n < u64::MAX);
        }
    }
    law_read_keeps_memory(es, other, pm, vmas, files, a, size, va);
    let l0 = lookup(es, va).unwrap();
    let l1 = lookup(s.0, va).unwrap();
    let off = b % 4096;
    lemma_frame_index(pm, l0.paddr as int, l0.paddr as int);
    lemma_frame_index(pm, l1.paddr as int, l1.paddr as int);
    assert(s.1.bytes(l1.paddr as int, 4096)[off] == pm.bytes(l0.paddr as int, 4096)[off]);
    if T::decode(s.2.unwrap()) == expect {
        assert(room(s.1, n)) by {
            assert forall|f: int| #[trigger] s.1.ref_of(f) + n < u64::MAX by {
                assert(s.1.ref_of(f) <= pm.ref_of(f) + n);
                assert(pm.ref_of(f) + 2 * n < u64::MAX);
            }
        }
        assert(files_held(s.1, files, other)) by {
            assert forall|m: u64, off: u64|
                (#[trigger] files.frame_at(m, off)).is_ok() && s.1.is_frame(
                    files.frame_at(m, off).unwrap() as int,
                ) implies has_leaf_to(other, files.frame_at(m, off).unwrap()) by {
                assert(pm.is_frame(files.frame_at(m, off).unwrap() as int));
            }
        }
        law_write_keeps_memory(s.0, other, s.1, vmas, files, new.encode(), a, b);
    }
}

/// The page at `va` has in the table `es` a leaf to a frame of the pool,
/// and the bytes that it has in the table `src` with the pool `start`.
pub open spec fn reads_alike(
    start: PmView,
    src: Seq<PageEntry>,
    pm: PmView,
    es: Seq<PageEntry>,
    va: int,
) -> bool {
    &&& lookup(es, va).is_some()
    &&& pm.is_frame(lookup(es, va).unwrap().paddr as int)
    &&& page_bytes(es, pm, va) == page_bytes(src, start, va)
}

/// A frame that a leaf of the table points to is allocated where the
/// tally holds.
pub proof fn lemma_tally_leaf_live(start: PmView, pm: PmView, es: Seq<PageEntry>, va: int)
    requires
        pt_wf(es),
        tallied(start, pm, es),
        lookup(es, va).is_some(),
        pm.is_frame(lookup(es, va).unwrap().paddr as int),
    ensures
        pm.is_live(lookup(es, va).unwrap().paddr as int),
{
    let g = lookup(es, va).unwrap().paddr as int;
    lemma_lookup(es, va);
    let k = choose|k: int| 0 <= k < es.len() && (#[trigger] es[k]).vaddr == va;
    crate::laws::lemma_leaves_to(es, g, k);
    assert(pm.ref_of(g) == start.ref_of(g) + leaves_to(es, g));
    lemma_frame_index(pm, g, g);
}

/// The run brings, for the page at `va`, nothing but the leaf that the
/// table `src` has for it.
pub open spec fn run_of(src: Seq<PageEntry>, run: Seq<PageEntry>, va: int) -> bool {
    forall|i: int|
        0 <= i < run.len() && (#[trigger] run[i]).vaddr == va ==> lookup(src, va) == Some(run[i])
}

/// A shorter run brings what the run brings.
pub proof fn lemma_run_prefix(start: PmView, src: Seq<PageEntry>, es: Seq<PageEntry>, run: Seq<PageEntry>, va: int)
    requires
        run.len() > 0,
        run_ok(run),
        referenced(start, run),
        has_all(es, run),
        run_of(src, run, va),
    ensures
        run_ok(run.drop_last()),
        referenced(start, run.drop_last()),
        has_all(es, run.drop_last()),
        run_of(src, run.drop_last(), va),
{
    let d = run.drop_last();
    assert forall|i: int| 0 <= i < d.len() implies (#[trigger] d[i]).vaddr % 4096 == 0
        && crate::addr::frame_ok(d[i].paddr as int) by {
        assert(d[i] == run[i]);
    }
    assert forall|i: int|
        0 <= i < d.len() && start.is_frame((#[trigger] d[i]).paddr as int) implies start.ref_of(
        d[i].paddr as int,
    ) >= 1 by {
        assert(d[i] == run[i]);
    }
    assert forall|i: int| 0 <= i < d.len() implies lookup(
        es,
        (#[trigger] d[i]).vaddr as int,
    ).is_some() by {
        assert(d[i] == run[i]);
    }
    assert forall|i: int| 0 <= i < d.len() && (#[trigger] d[i]).vaddr == va implies lookup(
        src,
        va,
    ) == Some(d[i]) by {
        assert(d[i] == run[i]);
    }
}

/// The bytes of a frame that has a reference from the start are what
/// they were at the start.
pub proof fn lemma_kept_bytes(start: PmView, pm: PmView, f: int)
    requires
        start.wf(),
        pm.wf(),
        pm.base == start.base,
        pm.frames() == start.frames(),
        kept(start, pm),
        start.is_frame(f),
        start.ref_of(f) >= 1,
    ensures
        pm.bytes(f, 4096) == start.bytes(f, 4096),
{
    lemma_frame_index(start, f, f);
    let j = start.index_of(f);
    assert forall|k: int| 0 <= k < 4096 implies #[trigger] pm.bytes(f, 4096)[k] == start.bytes(
        f,
        4096,
    )[k] by {
        let at = f - start.base + k;
        assert(at / 4096 == j);
        assert(pm.mem[at] == start.mem[at]);
    }
    assert(pm.bytes(f, 4096) =~= start.bytes(f, 4096));
}

/// Installing leaves of the parent leaves the page at `va` with the bytes
/// that the parent had for it.
pub proof fn lemma_reads_install_all(
    start: PmView,
    src: Seq<PageEntry>,
    pm: PmView,
    es: Seq<PageEntry>,
    run: Seq<PageEntry>,
    va: int,
)
    requires
        pt_wf(es),
        start.wf(),
        tallied(start, pm, es),
        kept(start, pm),
        room(start, es.len() as int),
        run_ok(run),
        referenced(start, run),
        has_all(es, run),
        run_of(src, run, va),
        lookup(src, va).is_some(),
        start.is_frame(lookup(src, va).unwrap().paddr as int),
        start.ref_of(lookup(src, va).unwrap().paddr as int) >= 1,
        reads_alike(start, src, pm, es, va),
    ensures
        reads_alike(start, src, install_all(es, pm, run).1, install_all(es, pm, run).0, va),
    decreases run.len(),
{
    if run.len() > 0 {
        let d = run.drop_last();
        let e = run.last();
        assert(e == run[run.len() - 1]);
        lemma_run_prefix(start, src, es, run, va);
        lemma_reads_install_all(start, src, pm, es, d, va);
        lemma_tally_install_all(start, pm, es, d);
        let p = install_all(es, pm, d);
        assert(lookup(es, e.vaddr as int).is_some());
        assert(lookup(p.0, e.vaddr as int).is_some());
        if p.1.is_frame(e.paddr as int) {
            lemma_tally_live(start, p.1, p.0, e.paddr as int);
        }
        lemma_tally_install(start, p.1, p.0, e);
        lemma_put(p.0, e);
        let q = install(p.0, p.1, e);
        if e.vaddr == va {
            assert(lookup(q.0, va) == Some(e));
            assert(lookup(src, va) == Some(e));
            lemma_kept_bytes(start, p.1, e.paddr as int);
        }
    }
}

/// A deep copy of leaves of the parent leaves the page at `va` with the
/// bytes that the parent had for it.
#[verifier::rlimit(30)]
pub proof fn lemma_reads_copy_all(
    start: PmView,
    src: Seq<PageEntry>,
    pm: PmView,
    es: Seq<PageEntry>,
    run: Seq<PageEntry>,
    va: int,
)
    requires
        pt_wf(es),
        start.wf(),
        tallied(start, pm, es),
        kept(start, pm),
        room(start, es.len() as int),
        run_ok(run),
        referenced(start, run),
        has_all(es, run),
        run_of(src, run, va),
        lookup(src, va).is_some(),
        start.is_frame(lookup(src, va).unwrap().paddr as int),
        start.ref_of(lookup(src, va).unwrap().paddr as int) >= 1,
        reads_alike(start, src, pm, es, va),
    ensures
        reads_alike(start, src, copy_all(es, pm, run).1, copy_all(es, pm, run).0, va),
    decreases run.len(),
{
    if run.len() > 0 {
        let d = run.drop_last();
        let e = run.last();
        assert(e == run[run.len() - 1]);
        lemma_run_prefix(start, src, es, run, va);
        lemma_reads_copy_all(start, src, pm, es, d, va);
        lemma_tally_copy_all(start, pm, es, d);
        let p = copy_all(es, pm, d);
        assert(lookup(es, e.vaddr as int).is_some());
        assert(lookup(p.0, e.vaddr as int).is_some());
        let g = lookup(p.0, va).unwrap().paddr as int;
        if p.2 {
            if p.1.is_live(e.paddr as int) {
                if p.1.has_free() {
                    let i = p.1.lowest_free();
                    let fresh = p.1.addr_of(i);
                    lemma_allocate(p.1, false);
                    let a = p.1.allocate(false);
                    let c = a.copy_page(e.paddr as int, fresh);
                    let n = PageEntry { paddr: fresh as u64, ..e };
                    lemma_leaves_le(p.0, fresh);
                    assert(p.1.ref_of(fresh) == start.ref_of(fresh) + leaves_to(p.0, fresh));
                    assert(c.wf());
                    assert(tallied(start, c, p.0)) by {
                        assert forall|f: int| c.is_frame(f) implies c.ref_of(f) == start.ref_of(f)
                            + #[trigger] leaves_to(p.0, f) by {
                            assert(p.1.ref_of(f) == start.ref_of(f) + leaves_to(p.0, f));
                        }
                    }
                    assert(c.is_live(fresh));
                    lemma_tally_install(start, c, p.0, n);
                    lemma_put(p.0, n);
                    let q = install(p.0, c, n);
                    assert(q.1.mem == c.mem);
                    if e.vaddr == va {
                        assert(lookup(q.0, va) == Some(n));
                        assert(lookup(src, va) == Some(e));
                        lemma_kept_bytes(start, p.1, e.paddr as int);
                        lemma_frame_index(p.1, fresh, e.paddr as int);
                        assert(c.bytes(fresh, 4096) =~= p.1.bytes(e.paddr as int, 4096));
                    } else {
                        lemma_tally_leaf_live(start, p.1, p.0, va);
                        assert(g != fresh);
                        assert forall|k: int| 0 <= k < 4096 implies #[trigger] c.bytes(g, 4096)[k]
                            == p.1.bytes(g, 4096)[k] by {
                            lemma_frames_apart(p.1, fresh, g, k);
                            assert(c.mem[g - p.1.base + k] == p.1.mem[g - p.1.base + k]);
                        }
                        assert(c.bytes(g, 4096) =~= p.1.bytes(g, 4096));
                    }
                }
            } else {
                if p.1.is_frame(e.paddr as int) {
                    lemma_tally_live(start, p.1, p.0, e.paddr as int);
                }
                lemma_tally_install(start, p.1, p.0, e);
                lemma_put(p.0, e);
                if e.vaddr == va {
                    assert(lookup(src, va) == Some(e));
                }
            }
        }
    }
}

/// What a fork does for the pages of areas leaves the page at `va` in the
/// child's table with the bytes that the parent had for it.
pub proof fn lemma_reads_fork_areas(
    start: PmView,
    src: Seq<PageEntry>,
    dst: Seq<PageEntry>,
    pm: PmView,
    segs: Seq<AreaEntry>,
    va: int,
)
    requires
        pt_wf(src),
        pt_wf(dst),
        no_user_write(src),
        start.wf(),
        tallied(start, pm, dst),
        kept(start, pm),
        room(start, dst.len() as int),
        referenced(start, src),
        has_all(dst, src),
        forall|i: int| 0 <= i < segs.len() ==> (#[trigger] segs[i]).range.wf(),
        lookup(src, va).is_some(),
        start.is_frame(lookup(src, va).unwrap().paddr as int),
        start.ref_of(lookup(src, va).unwrap().paddr as int) >= 1,
        reads_alike(start, src, pm, dst, va),
    ensures
        reads_alike(
            start,
            src,
            fork_areas(src, dst, pm, segs).1,
            fork_areas(src, dst, pm, segs).0,
            va,
        ),
    decreases segs.len(),
{
    if segs.len() > 0 {
        let d = segs.drop_last();
        assert forall|i: int| 0 <= i < d.len() implies (#[trigger] d[i]).range.wf() by {
            assert(d[i] == segs[i]);
        }
        lemma_reads_fork_areas(start, src, dst, pm, d, va);
        lemma_tally_fork_areas(start, src, dst, pm, d);
        let p = fork_areas(src, dst, pm, d);
        let e = segs.last();
        assert(e == segs[segs.len() - 1]);
        if p.2 && !e.vma.kernel {
            let lo = e.range.start as int;
            let hi = e.range.end();
            let run = within(src, lo, hi);
            assert(has_all(p.0, src)) by {
                assert forall|i: int| 0 <= i < src.len() implies lookup(
                    p.0,
                    (#[trigger] src[i]).vaddr as int,
                ).is_some() by {
                    assert(lookup(dst, src[i].vaddr as int).is_some());
                }
            }
            lemma_within(src, lo, hi);
            lemma_within_run(src, start, p.0, lo, hi);
            lemma_lookup(src, va);
            assert(run_of(src, run, va)) by {
                assert forall|i: int| 0 <= i < run.len() && (#[trigger] run[i]).vaddr
                    == va implies lookup(src, va) == Some(run[i]) by {
                    assert(run[i] == src[below(src, lo) + i]);
                }
            }
            if e.vma.private {
                lemma_cow_id(run);
                lemma_reads_install_all(start, src, p.1, p.0, run, va);
            } else {
                lemma_reads_copy_all(start, src, p.1, p.0, run, va);
            }
        }
    }
}

} // verus!
