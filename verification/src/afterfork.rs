//! A private page across a fork and the first write after it: the child
//! shares the parent's frame and keeps reading what was there, whoever
//! writes first gets a frame of its own.
use vstd::prelude::*;
use crate::addr::page_down;
use crate::areaset::{AreaEntry, AreaSet};
use crate::linux_def::Error;
use crate::mappable::MappableTable;
use crate::pageopts::{pte_user, pte_writable};
use crate::roundtrip::{law_read_back, law_write_in_range, lemma_write_above_null, phys};
use crate::sharing::law_cow_copies;
use crate::usermem::{read_step, write_step};
use crate::fork::{
    fork_area, fork_areas, lemma_copy_all, lemma_cow_id, lemma_install_all, lemma_within,
    no_user_write,
};
use crate::laws::{lemma_frame_index, lemma_leaves_put, lemma_leaves_to, leaves_to};
use crate::mm::{
    cow_page, fix_page, fix_pages, lemma_allocate, lemma_pages_of, pages_of, FixStep,
};
use crate::pagemgr::PmView;
use crate::pagetable::{
    below, copy_all, cow, cow_run, install, install_all, lemma_below, lemma_cow_run,
    lemma_install, lemma_lookup, lemma_pm_step, lemma_put, lookup, pt_wf, put, retain_all,
    within, PageEntry,
};
use crate::sharing::{
    in_shared, lemma_copy_all_apart, lemma_frames_apart, lemma_install_all_same, lemma_leaves_cow,
    lemma_leaves_le, run_ok, shared_at,
};

verus! {

/// The largest number of leaves that a table can have: one for each page
/// of the address space.
pub open spec fn max_leaves() -> int {
    0x10_0000_0000_0000
}

/// The `i`-th leaf of a table lies at or above the `i`-th page.
pub proof fn lemma_leaf_place(es: Seq<PageEntry>, i: int)
    requires
        pt_wf(es),
        0 <= i < es.len(),
    ensures
        es[i].vaddr >= 4096 * i,
    decreases i,
{
    if i > 0 {
        lemma_leaf_place(es, i - 1);
        assert(es[i - 1].vaddr < es[i].vaddr);
        assert(es[i - 1].vaddr % 4096 == 0 && es[i].vaddr % 4096 == 0);
    }
}

/// A table has at most one leaf for each page of the address space.
pub proof fn lemma_table_len(es: Seq<PageEntry>)
    requires
        pt_wf(es),
    ensures
        es.len() <= max_leaves(),
{
    if es.len() > 0 {
        lemma_leaf_place(es, es.len() - 1);
    }
}

/// The frame `f` is allocated, and has at least `c` references and one
/// more for each leaf of `es` that points to it; exactly as many if
/// `exact` is set.
pub open spec fn holds_frame(pm: PmView, es: Seq<PageEntry>, f: int, c: int, exact: bool) -> bool {
    &&& pm.wf()
    &&& pm.is_live(f)
    &&& pm.ref_of(f) >= c + leaves_to(es, f)
    &&& exact ==> pm.ref_of(f) == c + leaves_to(es, f)
}

/// The count `c` is so far from the largest that a reference for each
/// leaf of a table can join it.
pub open spec fn far_from_full(c: int) -> bool {
    c + max_leaves() < u64::MAX
}

/// Installing a leaf in a table that has a leaf to the frame `f`
/// afterwards keeps the frame allocated and counted, and changes no byte.
pub proof fn lemma_hold_install(
    pm: PmView,
    es: Seq<PageEntry>,
    e: PageEntry,
    f: int,
    c: int,
    exact: bool,
)
    requires
        pt_wf(es),
        holds_frame(pm, es, f, c, exact),
        0 <= c,
        exact ==> far_from_full(c),
        !exact ==> c <= max_leaves(),
        e.vaddr % 4096 == 0,
        crate::addr::frame_ok(e.paddr as int),
        leaves_to(put(es, e), f) >= 1,
    ensures
        pt_wf(install(es, pm, e).0),
        holds_frame(install(es, pm, e).1, install(es, pm, e).0, f, c, exact),
        install(es, pm, e).1.mem == pm.mem,
        install(es, pm, e).1.base == pm.base,
        install(es, pm, e).1.frames() == pm.frames(),
{
    let after = install(es, pm, e);
    lemma_install(es, pm, e);
    lemma_put(es, e);
    lemma_lookup(es, e.vaddr as int);
    lemma_leaves_put(es, e, f);
    lemma_table_len(es);
    lemma_table_len(put(es, e));
    lemma_leaves_le(es, f);
    lemma_leaves_le(put(es, e), f);
    let g = e.paddr as int;
    let pm1 = pm.retain(g);
    lemma_pm_step(pm, g);
    lemma_frame_index(pm, f, g);
    assert(pm1.ref_of(f) >= c + leaves_to(es, f) + if g == f {
        1int
    } else {
        0int
    });
    match lookup(es, e.vaddr as int) {
        None => {},
        Some(o) => {
            let h = o.paddr as int;
            lemma_pm_step(pm1, h);
            lemma_frame_index(pm1, f, h);
        },
    }
}

/// A table with a leaf to the frame `f` at the page `va` has a leaf to
/// `f`.
pub proof fn lemma_leaf_counts(es: Seq<PageEntry>, va: int, f: int)
    requires
        pt_wf(es),
        lookup(es, va).is_some(),
        lookup(es, va).unwrap().paddr == f,
    ensures
        leaves_to(es, f) >= 1,
{
    lemma_lookup(es, va);
    let k = choose|k: int| 0 <= k < es.len() && (#[trigger] es[k]).vaddr == va;
    lemma_leaves_to(es, f, k);
}

/// Installing leaves that bring nothing new for the page at `va`, which
/// has a leaf to the frame `f`, keeps the frame allocated and counted,
/// and changes no byte.
pub proof fn lemma_hold_install_all(
    pm: PmView,
    es: Seq<PageEntry>,
    run: Seq<PageEntry>,
    f: int,
    c: int,
    exact: bool,
    va: int,
)
    requires
        pt_wf(es),
        holds_frame(pm, es, f, c, exact),
        0 <= c,
        exact ==> far_from_full(c),
        !exact ==> c <= max_leaves(),
        run_ok(run),
        forall|i: int|
            0 <= i < run.len() && (#[trigger] run[i]).vaddr == va ==> lookup(es, va) == Some(run[i]),
        lookup(es, va).is_some(),
        lookup(es, va).unwrap().paddr == f,
    ensures
        pt_wf(install_all(es, pm, run).0),
        holds_frame(install_all(es, pm, run).1, install_all(es, pm, run).0, f, c, exact),
        install_all(es, pm, run).1.mem == pm.mem,
        install_all(es, pm, run).1.base == pm.base,
        install_all(es, pm, run).1.frames() == pm.frames(),
        lookup(install_all(es, pm, run).0, va) == lookup(es, va),
    decreases run.len(),
{
    if run.len() > 0 {
        let d = run.drop_last();
        let e = run.last();
        assert(e == run[run.len() - 1]);
        assert(run_ok(d)) by {
            assert forall|i: int| 0 <= i < d.len() implies (#[trigger] d[i]).vaddr % 4096 == 0
                && crate::addr::frame_ok(d[i].paddr as int) by {
                assert(d[i] == run[i]);
            }
        }
        assert forall|i: int| 0 <= i < d.len() && (#[trigger] d[i]).vaddr == va implies lookup(
            es,
            va,
        ) == Some(d[i]) by {
            assert(d[i] == run[i]);
        }
        lemma_hold_install_all(pm, es, d, f, c, exact, va);
        let p = install_all(es, pm, d);
        lemma_put(p.0, e);
        lemma_leaf_counts(put(p.0, e), va, f);
        lemma_hold_install(p.1, p.0, e, f, c, exact);
    }
}

/// A deep copy of leaves of other pages than the page at `va`, which has
/// a leaf to the frame `f`, keeps the frame allocated and counted, with
/// its bytes.
pub proof fn lemma_hold_copy_all(
    pm: PmView,
    es: Seq<PageEntry>,
    run: Seq<PageEntry>,
    f: int,
    c: int,
    exact: bool,
    va: int,
)
    requires
        pt_wf(es),
        holds_frame(pm, es, f, c, exact),
        0 <= c,
        exact ==> far_from_full(c),
        !exact ==> c <= max_leaves(),
        run_ok(run),
        forall|i: int| 0 <= i < run.len() ==> (#[trigger] run[i]).vaddr != va,
        lookup(es, va).is_some(),
        lookup(es, va).unwrap().paddr == f,
    ensures
        pt_wf(copy_all(es, pm, run).0),
        holds_frame(copy_all(es, pm, run).1, copy_all(es, pm, run).0, f, c, exact),
        copy_all(es, pm, run).1.bytes(f, 4096) == pm.bytes(f, 4096),
        copy_all(es, pm, run).1.base == pm.base,
        copy_all(es, pm, run).1.frames() == pm.frames(),
        lookup(copy_all(es, pm, run).0, va) == lookup(es, va),
    decreases run.len(),
{
    if run.len() > 0 {
        let d = run.drop_last();
        let e = run.last();
        assert(e == run[run.len() - 1]);
        assert(run_ok(d)) by {
            assert forall|i: int| 0 <= i < d.len() implies (#[trigger] d[i]).vaddr % 4096 == 0
                && crate::addr::frame_ok(d[i].paddr as int) by {
                assert(d[i] == run[i]);
            }
        }
        assert forall|i: int| 0 <= i < d.len() implies (#[trigger] d[i]).vaddr != va by {
            assert(d[i] == run[i]);
        }
        lemma_hold_copy_all(pm, es, d, f, c, exact, va);
        let p = copy_all(es, pm, d);
        if p.2 {
            if p.1.is_live(e.paddr as int) {
                if p.1.has_free() {
                    let i = p.1.lowest_free();
                    let fresh = p.1.addr_of(i);
                    lemma_allocate(p.1, false);
                    let a = p.1.allocate(false);
                    let cp = a.copy_page(e.paddr as int, fresh);
                    let n = PageEntry { paddr: fresh as u64, ..e };
                    assert(fresh != f);
                    assert(cp.wf());
                    lemma_frame_index(p.1, f, fresh);
                    assert(holds_frame(cp, p.0, f, c, exact));
                    assert forall|k: int| 0 <= k < 4096 implies #[trigger] cp.bytes(f, 4096)[k]
                        == p.1.bytes(f, 4096)[k] by {
                        lemma_frames_apart(p.1, fresh, f, k);
                        assert(cp.mem[f - p.1.base + k] == p.1.mem[f - p.1.base + k]);
                    }
                    assert(cp.bytes(f, 4096) =~= p.1.bytes(f, 4096));
                    lemma_put(p.0, n);
                    lemma_leaf_counts(put(p.0, n), va, f);
                    lemma_hold_install(cp, p.0, n, f, c, exact);
                }
            } else {
                lemma_put(p.0, e);
                lemma_leaf_counts(put(p.0, e), va, f);
                lemma_hold_install(p.1, p.0, e, f, c, exact);
            }
        }
    }
}

/// What a fork does for the pages of areas keeps, for a page outside the
/// shared areas whose leaf points to the frame `f` in both tables, the
/// leaf in the child's table and the frame allocated and counted, with
/// its bytes.
pub proof fn lemma_hold_fork_areas(
    src: Seq<PageEntry>,
    dst: Seq<PageEntry>,
    pm: PmView,
    segs: Seq<AreaEntry>,
    f: int,
    c: int,
    exact: bool,
    va: int,
)
    requires
        pt_wf(src),
        pt_wf(dst),
        no_user_write(src),
        forall|i: int| 0 <= i < segs.len() ==> (#[trigger] segs[i]).range.wf(),
        !in_shared(segs, va),
        lookup(dst, va) == lookup(src, va),
        lookup(src, va).is_some(),
        lookup(src, va).unwrap().paddr == f,
        holds_frame(pm, dst, f, c, exact),
        0 <= c,
        exact ==> far_from_full(c),
        !exact ==> c <= max_leaves(),
    ensures
        pt_wf(fork_areas(src, dst, pm, segs).0),
        holds_frame(fork_areas(src, dst, pm, segs).1, fork_areas(src, dst, pm, segs).0, f, c, exact),
        fork_areas(src, dst, pm, segs).1.bytes(f, 4096) == pm.bytes(f, 4096),
        fork_areas(src, dst, pm, segs).1.base == pm.base,
        fork_areas(src, dst, pm, segs).1.frames() == pm.frames(),
        lookup(fork_areas(src, dst, pm, segs).0, va) == lookup(src, va),
    decreases segs.len(),
{
    if segs.len() > 0 {
        let d = segs.drop_last();
        assert forall|i: int| 0 <= i < d.len() implies (#[trigger] d[i]).range.wf() by {
            assert(d[i] == segs[i]);
        }
        assert(!in_shared(d, va)) by {
            if in_shared(d, va) {
                let i = choose|i: int| 0 <= i < d.len() && shared_at(#[trigger] d[i], va);
                assert(d[i] == segs[i]);
                assert(shared_at(segs[i], va));
            }
        }
        lemma_hold_fork_areas(src, dst, pm, d, f, c, exact, va);
        let p = fork_areas(src, dst, pm, d);
        let e = segs.last();
        assert(e == segs[segs.len() - 1]);
        if p.2 && !e.vma.kernel {
            let lo = e.range.start as int;
            let hi = e.range.end();
            let run = within(src, lo, hi);
            lemma_within(src, lo, hi);
            lemma_below(src, lo);
            lemma_below(src, hi);
            lemma_lookup(src, va);
            assert(run_ok(run));
            if e.vma.private {
                lemma_cow_id(run);
                assert forall|i: int| 0 <= i < run.len() && (#[trigger] run[i]).vaddr
                    == va implies lookup(p.0, va) == Some(run[i]) by {
                    assert(run[i] == src[below(src, lo) + i]);
                }
                lemma_hold_install_all(p.1, p.0, run, f, c, exact, va);
            } else {
                assert(!shared_at(segs[segs.len() - 1], va));
                assert forall|i: int| 0 <= i < run.len() implies (#[trigger] run[i]).vaddr
                    != va by {
                    assert(run[i] == src[below(src, lo) + i]);
                }
                lemma_hold_copy_all(p.1, p.0, run, f, c, exact, va);
            }
        }
    }
}

/// Adding a reference for each leaf of a run keeps an allocated frame
/// allocated, and gives it a reference more for each leaf of the run that
/// points to it.
pub proof fn lemma_hold_retain_all(pm: PmView, run: Seq<PageEntry>, f: int, c: int, exact: bool)
    requires
        pm.wf(),
        pm.is_live(f),
        0 <= c,
        exact ==> far_from_full(c),
        !exact ==> c <= max_leaves(),
        pm.ref_of(f) >= c,
        exact ==> pm.ref_of(f) == c,
        run.len() <= max_leaves(),
    ensures
        retain_all(pm, run).wf(),
        retain_all(pm, run).is_live(f),
        retain_all(pm, run).ref_of(f) >= c + leaves_to(run, f),
        exact ==> retain_all(pm, run).ref_of(f) == c + leaves_to(run, f),
        retain_all(pm, run).mem == pm.mem,
        retain_all(pm, run).live == pm.live,
        retain_all(pm, run).base == pm.base,
        retain_all(pm, run).frames() == pm.frames(),
    decreases run.len(),
{
    if run.len() > 0 {
        let d = run.drop_last();
        lemma_hold_retain_all(pm, d, f, c, exact);
        let p = retain_all(pm, d);
        let g = run.last().paddr as int;
        lemma_pm_step(p, g);
        lemma_frame_index(p, f, g);
        lemma_leaves_le(d, f);
    }
}

/// A fork shares a page outside the shared areas: where the parent's leaf
/// points to an allocated frame of the pool, parent and child have that
/// leaf afterwards, read-only if user code could write; the frame is
/// still allocated, with the bytes that it had, and any `c` references
/// that it had are joined by one for each leaf of the child that points
/// to it. Where its count was far from the largest, it has risen by
/// exactly that: by one where one leaf of the child points to the frame.
///
/// A frame that is not allocated may become the root of the child's
/// table.
///
/// This holds whether or not a frame was missing for a copy: the child's
/// table and the pool are those that the fork had reached.
pub proof fn law_fork_private_page(
    before: Seq<PageEntry>,
    pm: PmView,
    segs: Seq<AreaEntry>,
    va: int,
    c: int,
)
    requires
        pt_wf(before),
        pm.wf(),
        pm.has_free(),
        forall|i: int| 0 <= i < segs.len() ==> (#[trigger] segs[i]).range.wf(),
        !in_shared(segs, va),
        lookup(before, va).is_some(),
        pm.is_live(lookup(before, va).unwrap().paddr as int),
        0 <= c <= pm.ref_of(lookup(before, va).unwrap().paddr as int),
        c <= max_leaves(),
    ensures
        ({
            let l = lookup(before, va).unwrap();
            let f = l.paddr as int;
            let root = pm.addr_of(pm.lowest_free());
            let parent = cow_run(before);
            let res = fork_areas(
                parent,
                parent,
                retain_all(pm.allocate(true).retain(root), before),
                segs,
            );
            &&& pt_wf(parent)
            &&& pt_wf(res.0)
            &&& res.1.wf()
            &&& res.1.base == pm.base
            &&& res.1.frames() == pm.frames()
            &&& lookup(parent, va) == Some(cow(l))
            &&& lookup(res.0, va) == Some(cow(l))
            &&& cow(l).paddr == l.paddr
            &&& pte_user(l.flags) ==> !pte_writable(cow(l).flags)
            &&& res.1.is_live(f)
            &&& res.1.bytes(f, 4096) == pm.bytes(f, 4096)
            &&& leaves_to(res.0, f) >= 1
            &&& res.1.ref_of(f) >= c + leaves_to(res.0, f)
            &&& far_from_full(pm.ref_of(f)) ==> res.1.ref_of(f) == pm.ref_of(f) + leaves_to(
                res.0,
                f,
            )
        }),
{
    let l = lookup(before, va).unwrap();
    let f = l.paddr as int;
    let i = pm.lowest_free();
    let root = pm.addr_of(i);
    let parent = cow_run(before);
    lemma_allocate(pm, true);
    let a = pm.allocate(true);
    lemma_pm_step(a, root);
    let start = a.retain(root);
    lemma_frame_index(pm, f, root);
    assert(f != root);
    assert(start.is_live(f));
    assert(start.ref_of(f) == pm.ref_of(f));
    assert forall|k: int| 0 <= k < 4096 implies #[trigger] start.bytes(f, 4096)[k] == pm.bytes(
        f,
        4096,
    )[k] by {
        lemma_frames_apart(pm, root, f, k);
        assert(start.mem[f - pm.base + k] == pm.mem[f - pm.base + k]);
    }
    assert(start.bytes(f, 4096) =~= pm.bytes(f, 4096));
    lemma_cow_run(before);
    crate::pageopts::lemma_write_bit(l.flags);
    assert(no_user_write(parent)) by {
        assert forall|k: int| 0 <= k < parent.len() implies !(pte_user((#[trigger] parent[k]).flags)
            && pte_writable(parent[k].flags)) by {
            assert(parent[k] == cow_run(before)[k]);
        }
    }
    lemma_table_len(before);
    lemma_leaves_le(before, f);
    lemma_leaves_cow(before, f);
    let pm1 = retain_all(start, before);
    lemma_hold_retain_all(start, before, f, c, false);
    lemma_hold_fork_areas(parent, parent, pm1, segs, f, c, false, va);
    let res = fork_areas(parent, parent, pm1, segs);
    if far_from_full(pm.ref_of(f)) {
        lemma_hold_retain_all(start, before, f, pm.ref_of(f), true);
        lemma_hold_fork_areas(parent, parent, pm1, segs, f, pm.ref_of(f), true, va);
    }
    lemma_leaf_counts(res.0, va, f);
    assert(res.1.bytes(f, 4096) == pm1.bytes(f, 4096));
    assert(pm1.bytes(f, 4096) == start.bytes(f, 4096));
}

/// The bytes `[a, a + len)` lie in one page.
pub open spec fn in_one_page(a: int, len: int) -> bool {
    0 < len && page_down(a + len - 1) == page_down(a)
}

/// The first write to a page that is shared copy-on-write. Where the page
/// has a read-only leaf to an allocated frame with two references or
/// more, a write that goes through gives the page a frame of its own,
/// which can be written; the shared frame stays allocated and keeps every
/// byte, so whoever else maps it reads what was there; and the writer
/// reads back what it wrote.
pub proof fn law_first_write(
    es: Seq<PageEntry>,
    pm: PmView,
    vmas: &AreaSet,
    files: &MappableTable,
    data: Seq<u8>,
    a: u64,
)
    requires
        pt_wf(es),
        pm.wf(),
        files.wf(),
        data.len() <= usize::MAX,
        in_one_page(a as int, data.len() as int),
        lookup(es, page_down(a as int)).is_some(),
        !pte_writable(lookup(es, page_down(a as int)).unwrap().flags),
        pm.is_live(lookup(es, page_down(a as int)).unwrap().paddr as int),
        pm.ref_of(lookup(es, page_down(a as int)).unwrap().paddr as int) >= 2,
        write_step(es, pm, vmas, files, data, a).2.is_none(),
    ensures
        ({
            let page = page_down(a as int);
            let f = lookup(es, page).unwrap().paddr as int;
            let w = write_step(es, pm, vmas, files, data, a);
            &&& pt_wf(w.0)
            &&& w.1.wf()
            &&& w.1.base == pm.base
            &&& w.1.frames() == pm.frames()
            &&& lookup(w.0, page).is_some()
            &&& lookup(w.0, page).unwrap().paddr != f
            &&& pte_writable(lookup(w.0, page).unwrap().flags)
            &&& w.1.is_live(f)
            &&& w.1.ref_of(f) == pm.ref_of(f) - 1
            &&& w.1.bytes(f, 4096) == pm.bytes(f, 4096)
            &&& forall|va: int| va != page ==> lookup(w.0, va) == #[trigger] lookup(es, va)
            &&& read_step(w.0, w.1, vmas, files, a, data.len() as usize) == (
                w.0,
                w.1,
                Ok::<Seq<u8>, Error>(data),
            )
        }),
{
    let len = data.len() as int;
    let page = page_down(a as int);
    let l = lookup(es, page).unwrap();
    let f = l.paddr as int;
    let w = write_step(es, pm, vmas, files, data, a);
    lemma_write_above_null(es, pm, vmas, files, data, a);
    lemma_pages_of(a as int, len);
    assert(pages_of(a as int, len) == 1);
    assert(len <= 4096);
    let first = page as u64;
    let before_any = fix_pages(es, pm, vmas, files, first, 0, true);
    assert(before_any == (es, pm, 0int, FixStep::Next));
    let p = fix_pages(es, pm, vmas, files, first, 1, true);
    let s = fix_page(es, pm, vmas, files, first, true);
    assert((first + 4096 * (1 - 1)) as u64 == first);
    assert(p.0 == s.0 && p.1 == s.1 && p.3 == s.2);
    assert(p.3 == FixStep::Next && a + len <= u64::MAX) by {
        reveal(write_step);
        reveal(crate::translate::v2p_step);
    }
    let area = vmas.area_at(first as int);
    assert(area.is_some() && area.unwrap().vma.effectivePerms.write);
    let vma = area.unwrap().vma;
    let c = cow_page(es, pm, first, vma);
    assert(c.2.is_none());
    assert(pm.has_free());
    law_cow_copies(es, pm, first, vma);
    crate::mm::lemma_cow_page(es, pm, first, vma);
    assert(s.0 == c.0 && s.1 == c.1);
    let g = lookup(c.0, page).unwrap().paddr as int;
    assert(pte_writable(crate::pageopts::user_rw_bits())) by {
        assert(7u64 & 2 != 0) by (bit_vector);
    }
    lemma_written_table(es, pm, vmas, files, data, a);
    lemma_frame_index(pm, f, f);
    assert(w.1.live == c.1.live && w.1.refs == c.1.refs && w.1.base == pm.base && w.1.mem.len()
        == pm.mem.len()) by {
        let pos = f - pm.base;
        assert forall|i: int| 0 <= i < len implies #[trigger] phys(w.0, a + i) - pm.base != pos by {
            lemma_frames_apart(pm, g, f, 0);
            assert(page_down(a + i) == page);
            assert(phys(w.0, a + i) == g + (a + i) % 4096);
        }
        law_write_in_range(es, pm, vmas, files, data, a, pos);
    }
    assert forall|k: int| 0 <= k < 4096 implies #[trigger] w.1.bytes(f, 4096)[k] == pm.bytes(
        f,
        4096,
    )[k] by {
        lemma_frames_apart(pm, g, f, k);
        let pos = f - pm.base + k;
        assert forall|i: int| 0 <= i < len implies #[trigger] phys(w.0, a + i) - pm.base != pos by {
            lemma_written_table(es, pm, vmas, files, data, a);
            assert(page_down(a + i) == page);
            assert(phys(w.0, a + i) == g + (a + i) % 4096);
        }
        law_write_in_range(es, pm, vmas, files, data, a, pos);
        assert(c.1.mem[pos] == pm.mem[pos]);
    }
    assert(w.1.bytes(f, 4096) =~= pm.bytes(f, 4096));
    assert(w.1.wf());
    law_read_back(es, pm, vmas, files, data, a);
}

/// After a write went through, the page table is the one that making the
/// pages writable gave.
pub proof fn lemma_written_table(
    es: Seq<PageEntry>,
    pm: PmView,
    vmas: &AreaSet,
    files: &MappableTable,
    data: Seq<u8>,
    a: u64,
)
    requires
        0 < data.len() <= usize::MAX,
        write_step(es, pm, vmas, files, data, a).2.is_none(),
    ensures
        write_step(es, pm, vmas, files, data, a).0 == fix_pages(
            es,
            pm,
            vmas,
            files,
            page_down(a as int) as u64,
            pages_of(a as int, data.len() as int) as nat,
            true,
        ).0,
{
    reveal(write_step);
    reveal(crate::translate::v2p_step);
}

/// A private page after a fork and the first write to it. Where the
/// parent had a user page outside the shared areas, on a frame with a
/// reference, the fork leaves parent and child with read-only leaves to
/// that frame. When one of them, the child if `by_child` is set and else
/// the parent, then writes inside the page, the writer gets a frame of
/// its own and reads back what it wrote, and the other still has the
/// shared frame, allocated, with every byte that the page had before the
/// fork, and reads them.
///
/// A frame without reference has one after the fork, the child's, and
/// the parent then writes to the frame itself.
pub proof fn law_write_after_fork(
    before: Seq<PageEntry>,
    pm: PmView,
    vmas: &AreaSet,
    files: &MappableTable,
    data: Seq<u8>,
    a: u64,
    by_child: bool,
)
    requires
        pt_wf(before),
        pm.wf(),
        files.wf(),
        pm.has_free(),
        forall|i: int| 0 <= i < vmas.segs@.len() ==> (#[trigger] vmas.segs@[i]).range.wf(),
        data.len() <= usize::MAX,
        in_one_page(a as int, data.len() as int),
        !in_shared(vmas.segs@, page_down(a as int)),
        lookup(before, page_down(a as int)).is_some(),
        pte_user(lookup(before, page_down(a as int)).unwrap().flags),
        pm.ref_of(lookup(before, page_down(a as int)).unwrap().paddr as int) >= 1,
        ({
            let parent = cow_run(before);
            let res = fork_areas(
                parent,
                parent,
                retain_all(pm.allocate(true).retain(pm.addr_of(pm.lowest_free())), before),
                vmas.segs@,
            );
            write_step(
                if by_child {
                    res.0
                } else {
                    parent
                },
                res.1,
                vmas,
                files,
                data,
                a,
            ).2.is_none()
        }),
    ensures
        ({
            let page = page_down(a as int);
            let l = lookup(before, page).unwrap();
            let f = l.paddr as int;
            let parent = cow_run(before);
            let res = fork_areas(
                parent,
                parent,
                retain_all(pm.allocate(true).retain(pm.addr_of(pm.lowest_free())), before),
                vmas.segs@,
            );
            let writer = if by_child {
                res.0
            } else {
                parent
            };
            let other = if by_child {
                parent
            } else {
                res.0
            };
            let w = write_step(writer, res.1, vmas, files, data, a);
            &&& lookup(parent, page) == Some(cow(l))
            &&& lookup(res.0, page) == Some(cow(l))
            &&& !pte_writable(cow(l).flags)
            &&& lookup(other, page).unwrap().paddr == f
            &&& w.1.is_live(f)
            &&& w.1.bytes(f, 4096) == pm.bytes(f, 4096)
            &&& lookup(w.0, page).is_some()
            &&& lookup(w.0, page).unwrap().paddr != f
            &&& pte_writable(lookup(w.0, page).unwrap().flags)
            &&& read_step(w.0, w.1, vmas, files, a, data.len() as usize) == (
                w.0,
                w.1,
                Ok::<Seq<u8>, Error>(data),
            )
            &&& read_step(other, w.1, vmas, files, a, data.len() as usize) == (
                other,
                w.1,
                Ok::<Seq<u8>, Error>(
                    pm.bytes(f, 4096).subrange(a as int % 4096, a as int % 4096 + data.len()),
                ),
            )
        }),
{
    let page = page_down(a as int);
    let l = lookup(before, page).unwrap();
    let f = l.paddr as int;
    let parent = cow_run(before);
    let res = fork_areas(
        parent,
        parent,
        retain_all(pm.allocate(true).retain(pm.addr_of(pm.lowest_free())), before),
        vmas.segs@,
    );
    lemma_frame_index(pm, f, f);
    assert(pm.is_live(f));
    law_fork_private_page(before, pm, vmas.segs@, page, 1);
    let writer = if by_child {
        res.0
    } else {
        parent
    };
    let other = if by_child {
        parent
    } else {
        res.0
    };
    law_first_write(writer, res.1, vmas, files, data, a);
    let w = write_step(writer, res.1, vmas, files, data, a);
    lemma_write_above_null(writer, res.1, vmas, files, data, a);
    assert(a + data.len() <= u64::MAX) by {
        reveal(write_step);
        reveal(crate::translate::v2p_step);
    }
    lemma_read_page(other, w.1, vmas, files, a, data.len() as usize);
}

/// Reading inside a page that has a leaf to a frame of the pool changes
/// nothing and gives the bytes of the frame.
pub proof fn lemma_read_page(
    es: Seq<PageEntry>,
    pm: PmView,
    vmas: &AreaSet,
    files: &MappableTable,
    a: u64,
    len: usize,
)
    requires
        pt_wf(es),
        pm.wf(),
        4096 <= a,
        a + len <= u64::MAX,
        in_one_page(a as int, len as int),
        lookup(es, page_down(a as int)).is_some(),
        pm.is_frame(lookup(es, page_down(a as int)).unwrap().paddr as int),
    ensures
        read_step(es, pm, vmas, files, a, len) == (
            es,
            pm,
            Ok::<Seq<u8>, Error>(
                pm.bytes(lookup(es, page_down(a as int)).unwrap().paddr as int, 4096).subrange(
                    a as int % 4096,
                    a as int % 4096 + len,
                ),
            ),
        ),
{
    let page = page_down(a as int);
    let f = lookup(es, page).unwrap().paddr as int;
    lemma_pages_of(a as int, len as int);
    assert(pages_of(a as int, len as int) == 1);
    let v = crate::translate::v2p(es, a as int, len as int);
    assert(crate::mm::pages_ok(es, page, 1, false)) by {
        assert forall|j: int| 0 <= j < 1 implies (#[trigger] lookup(es, page + 4096 * j)).is_some() by {}
    }
    crate::roundtrip::lemma_piece(es, a as int, len as int, 0);
    assert(v.take(0) =~= Seq::<crate::linux_def::IoVec>::empty());
    assert(v.len() == 1);
    lemma_frame_index(pm, f, f);
    assert(crate::usermem::all_held(pm, v)) by {
        assert forall|i: int| 0 <= i < v.len() implies pm.holds(
            (#[trigger] v[i]).start as int,
            v[i].len as int,
        ) by {
            assert(v[i] == v[0]);
        }
    }
    assert(crate::roundtrip::readable(es, pm, a as int, len as int));
    crate::roundtrip::lemma_read_resident(es, pm, vmas, files, a, len);
    crate::roundtrip::lemma_gather_bytes(es, pm, a as int, len as int);
    let got = crate::usermem::gather(pm, v);
    let want = pm.bytes(f, 4096).subrange(a as int % 4096, a as int % 4096 + len);
    assert forall|i: int| 0 <= i < len implies #[trigger] got[i] == want[i] by {
        assert(page_down(a + i) == page);
        assert(got[i] == pm.mem[phys(es, a + i) - pm.base]);
    }
    assert(got =~= want);
}

/// The first write to a page of anonymous memory that has no leaf. A
/// write inside the page that goes through gives the page a frame that
/// was free, with one reference, and a user leaf that can be written;
/// every other page keeps its leaf; and the writer reads back what it
/// wrote.
pub proof fn law_first_touch(
    es: Seq<PageEntry>,
    pm: PmView,
    vmas: &AreaSet,
    files: &MappableTable,
    data: Seq<u8>,
    a: u64,
)
    requires
        pt_wf(es),
        pm.wf(),
        files.wf(),
        data.len() <= usize::MAX,
        in_one_page(a as int, data.len() as int),
        lookup(es, page_down(a as int)).is_none(),
        vmas.area_at(page_down(a as int)).is_some() ==> vmas.area_at(
            page_down(a as int),
        ).unwrap().vma.mappable.is_none(),
        write_step(es, pm, vmas, files, data, a).2.is_none(),
    ensures
        ({
            let page = page_down(a as int);
            let w = write_step(es, pm, vmas, files, data, a);
            let leaf = lookup(w.0, page);
            let g = leaf.unwrap().paddr as int;
            &&& pt_wf(w.0)
            &&& w.1.wf()
            &&& w.1.base == pm.base
            &&& w.1.frames() == pm.frames()
            &&& leaf.is_some()
            &&& pte_user(leaf.unwrap().flags)
            &&& pte_writable(leaf.unwrap().flags)
            &&& pm.is_frame(g)
            &&& !pm.is_live(g)
            &&& w.1.is_live(g)
            &&& w.1.ref_of(g) == 1
            &&& forall|va: int| va != page ==> lookup(w.0, va) == #[trigger] lookup(es, va)
            &&& read_step(w.0, w.1, vmas, files, a, data.len() as usize) == (
                w.0,
                w.1,
                Ok::<Seq<u8>, Error>(data),
            )
        }),
{
    let len = data.len() as int;
    let page = page_down(a as int);
    let w = write_step(es, pm, vmas, files, data, a);
    lemma_write_above_null(es, pm, vmas, files, data, a);
    lemma_pages_of(a as int, len);
    assert(pages_of(a as int, len) == 1);
    let first = page as u64;
    let before_any = fix_pages(es, pm, vmas, files, first, 0, true);
    assert(before_any == (es, pm, 0int, FixStep::Next));
    let p = fix_pages(es, pm, vmas, files, first, 1, true);
    let s = fix_page(es, pm, vmas, files, first, true);
    assert((first + 4096 * (1 - 1)) as u64 == first);
    assert(p.0 == s.0 && p.1 == s.1 && p.3 == s.2);
    crate::mm::lemma_fix_pages(es, pm, vmas, files, first, 1, true);
    crate::mm::lemma_fix_pages_count(es, pm, vmas, files, first, 1, true);
    let runs = crate::translate::v2p(p.0, a as int, len);
    assert(p.3 == FixStep::Next && w.0 == p.0 && w.1 == crate::usermem::scatter(p.1, runs, data)) by {
        reveal(write_step);
        reveal(crate::translate::v2p_step);
    }
    crate::usermem::lemma_scatter(p.1, runs, data);
    let area = vmas.area_at(first as int);
    assert(area.is_some());
    let ar = area.unwrap();
    let vma = ar.vma;
    let fl = crate::mm::fault_in(es, pm, vma, ar.range, first, files);
    crate::mm::lemma_fault_in(es, pm, vma, ar.range, first, files);
    assert(fl.2.is_none());
    assert(pm.has_free());
    lemma_allocate(pm, false);
    let i = pm.lowest_free();
    let g = pm.addr_of(i);
    let al = pm.allocate(false);
    lemma_pm_step(al, g);
    let n = PageEntry { vaddr: first, paddr: g as u64, flags: crate::mm::leaf_bits(vma) };
    lemma_put(es, n);
    assert(fl.0 == put(es, n));
    assert(fl.1 == al.retain(g));
    assert(pm.refs[i] == 0);
    assert(fl.1.ref_of(g) == 1);
    assert(pte_user(5u64) && pte_user(7u64) && pte_writable(7u64) && !pte_writable(5u64)) by {
        assert(5u64 & 4 != 0 && 7u64 & 4 != 0 && 7u64 & 2 != 0 && 5u64 & 2 == 0) by (bit_vector);
    }
    assert(lookup(fl.0, page) == Some(n));
    if !pte_writable(n.flags) {
        assert(vma.effectivePerms.write);
        crate::sharing::law_cow_in_place(fl.0, fl.1, first, vma);
        crate::mm::lemma_cow_page(fl.0, fl.1, first, vma);
        let c = cow_page(fl.0, fl.1, first, vma);
        assert(s.0 == c.0 && s.1 == c.1);
    } else {
        assert(s.0 == fl.0 && s.1 == fl.1);
    }
    lemma_frame_index(pm, g, g);
    crate::roundtrip::lemma_write_pages(es, pm, vmas, files, data, a);
    law_read_back(es, pm, vmas, files, data, a);
}

/// A private page from its first write, across a fork, to the first write
/// after it. A page of anonymous memory outside the shared areas has no
/// leaf; the parent writes `first` at `a1` inside it; the address space
/// is forked; then one of the two, the child if `by_child` is set and
/// else the parent, writes `second` at `a2` inside the page. Where the
/// two writes go through and a frame is free for the fork, the other
/// still has the frame that the parent's first write got and reads
/// `first` at `a1`, and the writer has another frame and reads `second`
/// at `a2`.
pub proof fn law_touch_fork_write(
    es: Seq<PageEntry>,
    pm: PmView,
    vmas: &AreaSet,
    files: &MappableTable,
    first: Seq<u8>,
    a1: u64,
    second: Seq<u8>,
    a2: u64,
    by_child: bool,
)
    requires
        pt_wf(es),
        pm.wf(),
        files.wf(),
        forall|i: int| 0 <= i < vmas.segs@.len() ==> (#[trigger] vmas.segs@[i]).range.wf(),
        first.len() <= usize::MAX,
        second.len() <= usize::MAX,
        in_one_page(a1 as int, first.len() as int),
        in_one_page(a2 as int, second.len() as int),
        page_down(a1 as int) == page_down(a2 as int),
        lookup(es, page_down(a1 as int)).is_none(),
        vmas.area_at(page_down(a1 as int)).is_some() ==> vmas.area_at(
            page_down(a1 as int),
        ).unwrap().vma.mappable.is_none(),
        !in_shared(vmas.segs@, page_down(a1 as int)),
        write_step(es, pm, vmas, files, first, a1).2.is_none(),
        write_step(es, pm, vmas, files, first, a1).1.has_free(),
        ({
            let w1 = write_step(es, pm, vmas, files, first, a1);
            let parent = cow_run(w1.0);
            let res = fork_areas(
                parent,
                parent,
                retain_all(w1.1.allocate(true).retain(w1.1.addr_of(w1.1.lowest_free())), w1.0),
                vmas.segs@,
            );
            write_step(
                if by_child {
                    res.0
                } else {
                    parent
                },
                res.1,
                vmas,
                files,
                second,
                a2,
            ).2.is_none()
        }),
    ensures
        ({
            let page = page_down(a1 as int);
            let w1 = write_step(es, pm, vmas, files, first, a1);
            let g = lookup(w1.0, page).unwrap().paddr;
            let parent = cow_run(w1.0);
            let res = fork_areas(
                parent,
                parent,
                retain_all(w1.1.allocate(true).retain(w1.1.addr_of(w1.1.lowest_free())), w1.0),
                vmas.segs@,
            );
            let writer = if by_child {
                res.0
            } else {
                parent
            };
            let other = if by_child {
                parent
            } else {
                res.0
            };
            let w2 = write_step(writer, res.1, vmas, files, second, a2);
            &&& lookup(parent, page).is_some() && lookup(parent, page).unwrap().paddr == g
            &&& lookup(res.0, page).is_some() && lookup(res.0, page).unwrap().paddr == g
            &&& !pte_writable(lookup(parent, page).unwrap().flags)
            &&& !pte_writable(lookup(res.0, page).unwrap().flags)
            &&& lookup(w2.0, page).is_some() && lookup(w2.0, page).unwrap().paddr != g
            &&& read_step(other, w2.1, vmas, files, a1, first.len() as usize) == (
                other,
                w2.1,
                Ok::<Seq<u8>, Error>(first),
            )
            &&& read_step(w2.0, w2.1, vmas, files, a2, second.len() as usize) == (
                w2.0,
                w2.1,
                Ok::<Seq<u8>, Error>(second),
            )
        }),
{
    let page = page_down(a1 as int);
    let w1 = write_step(es, pm, vmas, files, first, a1);
    law_first_touch(es, pm, vmas, files, first, a1);
    let l = lookup(w1.0, page).unwrap();
    let g = l.paddr as int;
    lemma_write_above_null(es, pm, vmas, files, first, a1);
    assert(a1 + first.len() <= u64::MAX) by {
        reveal(write_step);
        reveal(crate::translate::v2p_step);
    }
    lemma_read_page(w1.0, w1.1, vmas, files, a1, first.len() as usize);
    let parent = cow_run(w1.0);
    let res = fork_areas(
        parent,
        parent,
        retain_all(w1.1.allocate(true).retain(w1.1.addr_of(w1.1.lowest_free())), w1.0),
        vmas.segs@,
    );
    let writer = if by_child {
        res.0
    } else {
        parent
    };
    let other = if by_child {
        parent
    } else {
        res.0
    };
    law_fork_private_page(w1.0, w1.1, vmas.segs@, page, 1);
    law_write_after_fork(w1.0, w1.1, vmas, files, second, a2, by_child);
    law_first_write(writer, res.1, vmas, files, second, a2);
    let w2 = write_step(writer, res.1, vmas, files, second, a2);
    lemma_read_page(other, w2.1, vmas, files, a1, first.len() as usize);
}

} // verus!
