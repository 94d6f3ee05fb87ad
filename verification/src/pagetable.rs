//! The page-table engine: the translations of one address space, from
//! page-aligned virtual addresses to physical frames and their flags.
use vstd::prelude::*;
use x86_64::structures::paging::PageTableFlags;
use crate::addr::{frame_ok, page_down, Addr};
use crate::linux_def::{Error, MemoryDef, SysErr};
use crate::pagemgr::{PageMgr, PmView};
use crate::stackvec::StackVec;
use crate::pageopts::{
    clear_write, flag_bits, lemma_write_bit, pte_user, pte_writable, ClearWritable, IsUser,
    IsWritable, PageOpts,
};

verus! {

/// The part of the processor that the memory manager looks at: the root of
/// the page table that is loaded.
#[derive(Clone, Copy, Debug, PartialEq, Eq, Structural)]
pub struct Cpu {
    pub cr3: u64,
}

/// One leaf: the page at `vaddr` is backed by the frame at `paddr`, with
/// the flag bits `flags`.
#[derive(Clone, Copy, Debug, PartialEq, Eq, Structural)]
pub struct PageEntry {
    pub vaddr: u64,
    pub paddr: u64,
    pub flags: u64,
}

/// The leaves are in strictly rising order of their virtual address.
pub open spec fn pt_sorted(es: Seq<PageEntry>) -> bool {
    forall|i: int, j: int|
        #![trigger es[i], es[j]]
        0 <= i < j < es.len() ==> es[i].vaddr < es[j].vaddr
}

/// The invariant of a table: sorted leaves, page-aligned addresses.
pub open spec fn pt_wf(es: Seq<PageEntry>) -> bool {
    &&& pt_sorted(es)
    &&& forall|i: int|
        0 <= i < es.len() ==> (#[trigger] es[i]).vaddr % 4096 == 0 && frame_ok(es[i].paddr as int)
}

/// Number of leaves whose virtual address lies below `va`: in a sorted
/// table, the position of the first leaf at or above `va`.
pub open spec fn below(es: Seq<PageEntry>, va: int) -> int
    decreases es.len(),
{
    if es.len() == 0 {
        0
    } else {
        below(es.drop_last(), va) + if es.last().vaddr < va {
            1int
        } else {
            0int
        }
    }
}

/// `below` splits a sorted table: the leaves before it lie under `va`, the
/// others do not.
pub proof fn lemma_below(es: Seq<PageEntry>, va: int)
    requires
        pt_sorted(es),
    ensures
        0 <= below(es, va) <= es.len(),
        forall|k: int| 0 <= k < below(es, va) ==> (#[trigger] es[k]).vaddr < va,
        forall|k: int| below(es, va) <= k < es.len() ==> (#[trigger] es[k]).vaddr >= va,
    decreases es.len(),
{
    if es.len() > 0 {
        let d = es.drop_last();
        assert forall|i: int, j: int| #![trigger d[i], d[j]] 0 <= i < j < d.len() implies d[i].vaddr
            < d[j].vaddr by {
            assert(d[i] == es[i] && d[j] == es[j]);
        }
        lemma_below(d, va);
        let b = below(d, va);
        assert forall|k: int| 0 <= k < below(es, va) implies (#[trigger] es[k]).vaddr < va by {
            if k < d.len() {
                assert(es[k] == d[k]);
                if k >= b {
                    assert(es[k].vaddr < es[es.len() - 1].vaddr);
                }
            }
        }
        assert forall|k: int| below(es, va) <= k < es.len() implies (#[trigger] es[k]).vaddr
            >= va by {
            if k < d.len() {
                assert(es[k] == d[k]);
                if es.last().vaddr < va {
                    if b < d.len() {
                        assert(d[b].vaddr >= va);
                        assert(es[b] == d[b]);
                        assert(es[b].vaddr < es[es.len() - 1].vaddr);
                    }
                }
            }
        }
    }
}

/// Any position that splits a sorted table at `va` is `below`.
pub proof fn lemma_below_is(es: Seq<PageEntry>, va: int, i: int)
    requires
        pt_sorted(es),
        0 <= i <= es.len(),
        forall|k: int| 0 <= k < i ==> (#[trigger] es[k]).vaddr < va,
        forall|k: int| i <= k < es.len() ==> (#[trigger] es[k]).vaddr >= va,
    ensures
        below(es, va) == i,
{
    lemma_below(es, va);
    let b = below(es, va);
    if b < i {
        assert(es[b].vaddr >= va);
    }
    if i < b {
        assert(es[i].vaddr < va);
    }
}

/// `below` rises with the address.
pub proof fn lemma_below_mono(es: Seq<PageEntry>, a: int, b: int)
    requires
        pt_sorted(es),
        a <= b,
    ensures
        below(es, a) <= below(es, b),
{
    lemma_below(es, a);
    lemma_below(es, b);
    let i = below(es, a);
    let j = below(es, b);
    if j < i {
        assert(es[j].vaddr >= b);
        assert(es[j].vaddr < a);
    }
}

/// The leaf for the page at `va`, if the table has one.
pub open spec fn lookup(es: Seq<PageEntry>, va: int) -> Option<PageEntry> {
    let b = below(es, va);
    if b < es.len() && es[b].vaddr == va {
        Some(es[b])
    } else {
        None
    }
}

/// In a sorted table a leaf is found under its own address, and `lookup`
/// finds nothing but leaves of the table.
pub proof fn lemma_lookup(es: Seq<PageEntry>, va: int)
    requires
        pt_sorted(es),
    ensures
        lookup(es, va).is_some() <==> exists|k: int|
            0 <= k < es.len() && (#[trigger] es[k]).vaddr == va,
        forall|k: int|
            0 <= k < es.len() && (#[trigger] es[k]).vaddr == va ==> lookup(es, va) == Some(es[k]),
{
    lemma_below(es, va);
    let b = below(es, va);
    assert forall|k: int| 0 <= k < es.len() && (#[trigger] es[k]).vaddr == va implies lookup(
        es,
        va,
    ) == Some(es[k]) by {
        if k < b {
            assert(es[k].vaddr < va);
        }
        if k > b {
            assert(es[b].vaddr >= va);
            assert(es[b].vaddr < es[k].vaddr);
        }
    }
}

/// The table with the leaf `e` put in: in place of the leaf for the same
/// page, or at its place in the order.
pub open spec fn put(es: Seq<PageEntry>, e: PageEntry) -> Seq<PageEntry> {
    let b = below(es, e.vaddr as int);
    if b < es.len() && es[b].vaddr == e.vaddr {
        es.update(b, e)
    } else {
        es.insert(b, e)
    }
}

/// Putting a leaf in keeps the table well formed, and changes what is
/// found at that leaf's page only.
pub proof fn lemma_put(es: Seq<PageEntry>, e: PageEntry)
    requires
        pt_wf(es),
        e.vaddr % 4096 == 0,
        frame_ok(e.paddr as int),
    ensures
        pt_wf(put(es, e)),
        forall|va: int|
            lookup(put(es, e), va) == if va == e.vaddr {
                Some(e)
            } else {
                #[trigger] lookup(es, va)
            },
{
    lemma_below(es, e.vaddr as int);
    let b = below(es, e.vaddr as int);
    let n = put(es, e);
    let replaced = b < es.len() && es[b].vaddr == e.vaddr;
    assert forall|i: int, j: int| #![trigger n[i], n[j]] 0 <= i < j < n.len() implies n[i].vaddr
        < n[j].vaddr by {
        if replaced {
            assert(n[i].vaddr == es[i].vaddr && n[j].vaddr == es[j].vaddr);
        } else {
            let oi = if i < b { i } else { i - 1 };
            let oj = if j < b { j } else { j - 1 };
            if i != b && j != b {
                assert(n[i] == es[oi] && n[j] == es[oj]);
                assert(es[oi].vaddr < es[oj].vaddr);
            } else if i == b {
                assert(n[j] == es[j - 1]);
                assert(es[j - 1].vaddr >= e.vaddr);
            } else {
                assert(n[i] == es[i]);
                assert(es[i].vaddr < e.vaddr);
            }
        }
    }
    assert forall|i: int| 0 <= i < n.len() implies (#[trigger] n[i]).vaddr % 4096 == 0
        && frame_ok(n[i].paddr as int) by {
        if replaced {
            if i != b {
                assert(n[i] == es[i]);
            }
        } else {
            if i < b {
                assert(n[i] == es[i]);
            } else if i > b {
                assert(n[i] == es[i - 1]);
            }
        }
    }
    assert forall|va: int|
        lookup(n, va) == if va == e.vaddr {
            Some(e)
        } else {
            #[trigger] lookup(es, va)
        } by {
        lemma_lookup(n, va);
        lemma_lookup(es, va);
        if va == e.vaddr {
            assert(n[b] == e);
        } else if lookup(es, va).is_some() {
            let k = choose|k: int| 0 <= k < es.len() && (#[trigger] es[k]).vaddr == va;
            let nk = if replaced || k < b { k } else { k + 1 };
            assert(n[nk] == es[k]);
        } else if lookup(n, va).is_some() {
            let k = choose|k: int| 0 <= k < n.len() && (#[trigger] n[k]).vaddr == va;
            let ok = if replaced || k < b { k } else { k - 1 };
            assert(n[k] == es[ok]);
        }
    }
}

/// The table and the pool after the leaf `e` was installed: the new frame
/// gains a reference, and the frame of a leaf that `e` replaces loses one.
pub open spec fn install(es: Seq<PageEntry>, pm: PmView, e: PageEntry) -> (Seq<PageEntry>, PmView) {
    (
        put(es, e),
        match lookup(es, e.vaddr as int) {
            Some(o) => pm.retain(e.paddr as int).release(o.paddr as int),
            None => pm.retain(e.paddr as int),
        },
    )
}

/// The leaves of the pages in `[lo, hi)`.
pub open spec fn within(es: Seq<PageEntry>, lo: int, hi: int) -> Seq<PageEntry> {
    es.subrange(below(es, lo), below(es, hi))
}

/// The table without the leaves of the pages in `[lo, hi)`.
pub open spec fn without(es: Seq<PageEntry>, lo: int, hi: int) -> Seq<PageEntry> {
    es.take(below(es, lo)) + es.skip(below(es, hi))
}

/// Taking a range of pages out keeps the table well formed, and changes
/// what is found in that range only.
pub proof fn lemma_without(es: Seq<PageEntry>, lo: int, hi: int)
    requires
        pt_wf(es),
        lo <= hi,
    ensures
        pt_wf(without(es, lo, hi)),
        forall|va: int|
            lookup(without(es, lo, hi), va) == if lo <= va < hi {
                None
            } else {
                #[trigger] lookup(es, va)
            },
{
    lemma_below(es, lo);
    lemma_below(es, hi);
    lemma_below_mono(es, lo, hi);
    let i = below(es, lo);
    let j = below(es, hi);
    let n = without(es, lo, hi);
    assert forall|a: int| 0 <= a < n.len() implies #[trigger] n[a] == es[if a < i {
        a
    } else {
        a + (j - i)
    }] by {}
    assert forall|a: int, b: int| #![trigger n[a], n[b]] 0 <= a < b < n.len() implies n[a].vaddr
        < n[b].vaddr by {
        let oa = if a < i { a } else { a + (j - i) };
        let ob = if b < i { b } else { b + (j - i) };
        assert(es[oa].vaddr < es[ob].vaddr);
    }
    assert forall|va: int|
        lookup(n, va) == if lo <= va < hi {
            None
        } else {
            #[trigger] lookup(es, va)
        } by {
        lemma_lookup(n, va);
        lemma_lookup(es, va);
        if lookup(n, va).is_some() {
            let k = choose|k: int| 0 <= k < n.len() && (#[trigger] n[k]).vaddr == va;
            let ok = if k < i { k } else { k + (j - i) };
            assert(n[k] == es[ok]);
            assert(es[ok].vaddr == va);
        }
        if !(lo <= va < hi) && lookup(es, va).is_some() {
            let k = choose|k: int| 0 <= k < es.len() && (#[trigger] es[k]).vaddr == va;
            if i <= k < j {
                assert(es[k].vaddr >= lo);
                assert(es[k].vaddr < hi);
            }
            let nk = if k < i { k } else { k - (j - i) };
            assert(n[nk] == es[k]);
        }
    }
}

/// The pool after one reference to the frame of each leaf of `run` was
/// dropped.
pub open spec fn release_all(pm: PmView, run: Seq<PageEntry>) -> PmView
    decreases run.len(),
{
    if run.len() == 0 {
        pm
    } else {
        release_all(pm, run.drop_last()).release(run.last().paddr as int)
    }
}

/// The pool after one reference to the frame of each leaf of `run` was
/// added.
pub open spec fn retain_all(pm: PmView, run: Seq<PageEntry>) -> PmView
    decreases run.len(),
{
    if run.len() == 0 {
        pm
    } else {
        retain_all(pm, run.drop_last()).retain(run.last().paddr as int)
    }
}

/// A reference more or less keeps the pool well formed.
pub proof fn lemma_pm_step(pm: PmView, pa: int)
    requires
        pm.wf(),
    ensures
        pm.retain(pa).wf(),
        pm.release(pa).wf(),
        pm.retain(pa).base == pm.base,
        pm.release(pa).base == pm.base,
        pm.retain(pa).frames() == pm.frames(),
        pm.release(pa).frames() == pm.frames(),
        pm.retain(pa).mem == pm.mem,
        pm.release(pa).mem == pm.mem,
        pm.retain(pa).live == pm.live,
{
}

/// Installing a leaf keeps the table and the pool well formed.
pub proof fn lemma_install(es: Seq<PageEntry>, pm: PmView, e: PageEntry)
    requires
        pt_wf(es),
        pm.wf(),
        e.vaddr % 4096 == 0,
        frame_ok(e.paddr as int),
    ensures
        pt_wf(install(es, pm, e).0),
        install(es, pm, e).1.wf(),
        install(es, pm, e).1.base == pm.base,
        install(es, pm, e).1.frames() == pm.frames(),
        install(es, pm, e).1.mem == pm.mem,
{
    lemma_put(es, e);
    lemma_pm_step(pm, e.paddr as int);
    if lookup(es, e.vaddr as int).is_some() {
        lemma_pm_step(pm.retain(e.paddr as int), lookup(es, e.vaddr as int).unwrap().paddr as int);
    }
}

/// The table and the pool after each leaf of `run` was installed, in
/// order.
pub open spec fn install_all(es: Seq<PageEntry>, pm: PmView, run: Seq<PageEntry>) -> (
    Seq<PageEntry>,
    PmView,
)
    decreases run.len(),
{
    if run.len() == 0 {
        (es, pm)
    } else {
        let p = install_all(es, pm, run.drop_last());
        install(p.0, p.1, run.last())
    }
}

/// The leaf as a fork leaves it: a user leaf that could be written is
/// write-protected, any other stays as it is.
pub open spec fn cow(e: PageEntry) -> PageEntry {
    if pte_user(e.flags) && pte_writable(e.flags) {
        PageEntry { flags: clear_write(e.flags), ..e }
    } else {
        e
    }
}

/// Each leaf of `run` as a fork leaves it.
pub open spec fn cow_run(run: Seq<PageEntry>) -> Seq<PageEntry> {
    Seq::new(run.len(), |i: int| cow(run[i]))
}

/// A fork keeps the table well formed, keeps every translation, and leaves
/// no user leaf writable.
pub proof fn lemma_cow_run(es: Seq<PageEntry>)
    requires
        pt_wf(es),
    ensures
        pt_wf(cow_run(es)),
        forall|va: int|
            #[trigger] lookup(cow_run(es), va) == match lookup(es, va) {
                Some(e) => Some(cow(e)),
                None => None,
            },
        forall|i: int|
            0 <= i < es.len() ==> !(pte_user((#[trigger] cow_run(es)[i]).flags) && pte_writable(
                cow_run(es)[i].flags,
            )),
{
    let c = cow_run(es);
    assert forall|i: int, j: int| #![trigger c[i], c[j]] 0 <= i < j < c.len() implies c[i].vaddr
        < c[j].vaddr by {
        assert(es[i].vaddr < es[j].vaddr);
    }
    assert forall|i: int| 0 <= i < c.len() implies (#[trigger] c[i]).vaddr % 4096 == 0
        && frame_ok(c[i].paddr as int) by {
        assert(es[i].vaddr % 4096 == 0);
    }
    assert forall|i: int| 0 <= i < es.len() implies !(pte_user((#[trigger] c[i]).flags)
        && pte_writable(c[i].flags)) by {
        lemma_write_bit(es[i].flags);
    }
    assert forall|va: int|
        #[trigger] lookup(c, va) == match lookup(es, va) {
            Some(e) => Some(cow(e)),
            None => None,
        } by {
        lemma_lookup(c, va);
        lemma_lookup(es, va);
        if lookup(es, va).is_some() {
            let k = choose|k: int| 0 <= k < es.len() && (#[trigger] es[k]).vaddr == va;
            assert(c[k].vaddr == va);
        } else if lookup(c, va).is_some() {
            let k = choose|k: int| 0 <= k < c.len() && (#[trigger] c[k]).vaddr == va;
            assert(es[k].vaddr == va);
        }
    }
}

/// One step of a deep copy: the leaf `e` of the source gets a frame of its
/// own in the destination, with the same contents and flags. A leaf whose
/// frame is not an allocated frame of the pool is installed as it is. The
/// step fails, changing nothing, when the pool has no free frame.
pub open spec fn copy_step(es: Seq<PageEntry>, pm: PmView, e: PageEntry) -> (
    Seq<PageEntry>,
    PmView,
    bool,
) {
    if pm.is_live(e.paddr as int) {
        if !pm.has_free() {
            (es, pm, false)
        } else {
            let fresh = pm.addr_of(pm.lowest_free());
            let p = install(
                es,
                pm.allocate(false).copy_page(e.paddr as int, fresh),
                PageEntry { paddr: fresh as u64, ..e },
            );
            (p.0, p.1, true)
        }
    } else {
        let p = install(es, pm, e);
        (p.0, p.1, true)
    }
}

/// The destination table, the pool, and whether every step went through,
/// after a deep copy of the leaves of `run`, in order, up to the first step
/// that fails.
pub open spec fn copy_all(es: Seq<PageEntry>, pm: PmView, run: Seq<PageEntry>) -> (
    Seq<PageEntry>,
    PmView,
    bool,
)
    decreases run.len(),
{
    if run.len() == 0 {
        (es, pm, true)
    } else {
        let p = copy_all(es, pm, run.drop_last());
        if p.2 {
            copy_step(p.0, p.1, run.last())
        } else {
            p
        }
    }
}

/// The physical addresses of the first `n` pages from `start`.
pub open spec fn addresses(es: Seq<PageEntry>, start: int, n: int) -> Seq<u64> {
    Seq::new(n as nat, |k: int| lookup(es, start + 4096 * k).unwrap().paddr)
}

/// The first `n` pages from `start` all have a leaf.
pub open spec fn all_mapped(es: Seq<PageEntry>, start: int, n: int) -> bool {
    forall|k: int| 0 <= k < n ==> (#[trigger] lookup(es, start + 4096 * k)).is_some()
}

/// The list `log1` of pages to invalidate follows the change of a table
/// from the leaves `es0`, with the list `log0`, to the leaves `es1`: it
/// keeps every page of `log0`, and it names every page whose leaf was
/// changed or removed.
pub open spec fn tlb_ok(
    es0: Seq<PageEntry>,
    es1: Seq<PageEntry>,
    log0: Seq<u64>,
    log1: Seq<u64>,
) -> bool {
    &&& forall|va: u64| #[trigger] log0.contains(va) ==> log1.contains(va)
    &&& forall|va: int|
        (#[trigger] lookup(es0, va)).is_some() && lookup(es1, va) != lookup(es0, va)
            ==> log1.contains(va as u64)
}

/// A list with one page more names that page and every page that it
/// named.
pub proof fn lemma_log_push(log: Seq<u64>, x: u64)
    ensures
        log.push(x).contains(x),
        forall|y: u64| #[trigger] log.contains(y) ==> log.push(x).contains(y),
{
    assert(log.push(x)[log.len() as int] == x);
    assert forall|y: u64| #[trigger] log.contains(y) implies log.push(x).contains(y) by {
        let i = choose|i: int| 0 <= i < log.len() && log[i] == y;
        assert(log.push(x)[i] == y);
    }
}

/// The translations of one address space.
#[derive(Debug)]
pub struct PageTables {
    /// Physical address of the table's root; 0 for a table that has none.
    pub root: u64,
    pub entries: Vec<PageEntry>,
    /// The pages whose translation has to leave the TLB: every page whose
    /// leaf was changed or removed since the list was last taken.
    pub invalidated: Vec<u64>,
}

impl PageTables {
    /// The table's invariant.
    pub open spec fn wf(&self) -> bool {
        pt_wf(self.entries@)
    }

    /// The leaf for the page at `va`, if there is one.
    pub open spec fn leaf(&self, va: int) -> Option<PageEntry> {
        lookup(self.entries@, va)
    }

    /// The list of pages to invalidate has followed the change of the table
    /// since it was `o`: see `tlb_ok`.
    pub open spec fn tlb_step(&self, o: &Self) -> bool {
        tlb_ok(o.entries@, self.entries@, o.invalidated@, self.invalidated@)
    }

    /// Hands over the pages to invalidate and empties the list.
    pub fn TakeInvalidated(&mut self) -> (r: Vec<u64>)
        ensures
            r@ == old(self).invalidated@,
            final(self).invalidated@.len() == 0,
            final(self).entries@ == old(self).entries@,
            final(self).root == old(self).root,
    {
        let mut r: Vec<u64> = Vec::new();
        r.append(&mut self.invalidated);
        r
    }

    /// A table without root and without leaves.
    pub fn Empty() -> (r: Self)
        ensures
            r.root == 0,
            r.entries@.len() == 0,
            r.invalidated@.len() == 0,
            r.wf(),
    {
        PageTables { root: 0, entries: Vec::new(), invalidated: Vec::new() }
    }

    /// A table without leaves whose root is a fresh, zero-filled frame.
    /// Fails with `ENOMEM`, changing nothing, when no frame is free.
    pub fn New(pm: &mut PageMgr) -> (r: Result<PageTables, Error>)
        requires
            old(pm).wf(),
        ensures
            final(pm).wf(),
            r.is_ok() <==> old(pm)@.has_free(),
            r.is_err() ==> r == Err::<PageTables, Error>(Error::SysError(SysErr::ENOMEM)) && final(pm)@ == old(pm)@,
            r.is_ok() ==> {
                let root = old(pm)@.addr_of(old(pm)@.lowest_free());
                &&& r.unwrap().root == root
                &&& r.unwrap().entries@.len() == 0
                &&& r.unwrap().invalidated@.len() == 0
                &&& r.unwrap().wf()
                &&& final(pm)@ == old(pm)@.allocate(true).retain(root)
            },
    {
        match pm.AllocPage(true) {
            Err(e) => Err(e),
            Ok(root) => {
                let _ = pm.Ref(root);
                Ok(PageTables { root, entries: Vec::new(), invalidated: Vec::new() })
            },
        }
    }

    /// Whether this table is the one that the processor has loaded.
    pub fn IsActivePagetable(&self, cpu: &Cpu) -> (r: bool)
        ensures
            r == (cpu.cr3 == self.root),
    {
        cpu.cr3 == self.root
    }

    /// Loads this table on the processor.
    pub fn SwitchTo(&self, cpu: &mut Cpu)
        ensures
            final(cpu).cr3 == self.root,
    {
        cpu.cr3 = self.root;
    }

    pub fn GetRoot(&self) -> (r: u64)
        ensures
            r == self.root,
    {
        self.root
    }

    /// Number of leaves.
    pub fn Count(&self) -> (r: usize)
        ensures
            r == self.entries@.len(),
    {
        self.entries.len()
    }

    /// Position of the first leaf at or above `va`.
    pub fn Lower(&self, va: u64) -> (i: usize)
        requires
            self.wf(),
        ensures
            i == below(self.entries@, va as int),
            i <= self.entries@.len(),
    {
        let n = self.entries.len();
        let mut i: usize = 0;
        while i < n && self.entries[i].vaddr < va
            invariant
                n == self.entries@.len(),
                i <= n,
                forall|k: int| 0 <= k < i ==> (#[trigger] self.entries@[k]).vaddr < va,
            decreases n - i,
        {
            i = i + 1;
        }
        proof {
            assert forall|k: int| i <= k < n implies (#[trigger] self.entries@[k]).vaddr >= va by {
                if k > i {
                    assert(self.entries@[i as int].vaddr < self.entries@[k].vaddr);
                }
            }
            lemma_below_is(self.entries@, va as int, i as int);
        }
        i
    }

    /// The leaf for the page at `va`, if there is one.
    pub fn Leaf(&self, va: u64) -> (r: Option<PageEntry>)
        requires
            self.wf(),
        ensures
            r == self.leaf(va as int),
    {
        let i = self.Lower(va);
        if i < self.entries.len() && self.entries[i].vaddr == va {
            Some(self.entries[i])
        } else {
            None
        }
    }

    /// The physical address behind `vAddr` and whether its page can be
    /// written; `AddressNotMap` when the page has no leaf.
    pub fn VirtualToPhy(&self, vAddr: u64) -> (r: Result<(u64, bool), Error>)
        requires
            self.wf(),
        ensures
            r == match self.leaf(page_down(vAddr as int)) {
                Some(e) => Ok::<(u64, bool), Error>(
                    ((e.paddr + vAddr % 4096) as u64, pte_writable(e.flags)),
                ),
                None => Err::<(u64, bool), Error>(Error::AddressNotMap(vAddr)),
            },
            self.leaf(page_down(vAddr as int)).is_some() ==> self.leaf(
                page_down(vAddr as int),
            ).unwrap().paddr + vAddr % 4096 <= u64::MAX,
    {
        let off = vAddr % MemoryDef::PAGE_SIZE;
        let page = vAddr - off;
        match self.Leaf(page) {
            Some(e) => {
                proof {
                    lemma_lookup(self.entries@, page as int);
                }
                assert(e.paddr % 4096 == 0);
                assert(e.paddr + off <= u64::MAX) by {
                    assert(e.paddr <= u64::MAX - 4095) by (nonlinear_arith)
                        requires
                            e.paddr % 4096 == 0,
                            e.paddr <= u64::MAX,
                    {}
                }
                Ok((e.paddr + off, IsWritable(e.flags)))
            },
            None => Err(Error::AddressNotMap(vAddr)),
        }
    }

    /// Installs a leaf, in place of the one for the same page if there is
    /// one. Returns whether a leaf was replaced.
    pub fn Install(&mut self, e: PageEntry, pm: &mut PageMgr) -> (replaced: bool)
        requires
            old(self).wf(),
            old(pm).wf(),
            e.vaddr % 4096 == 0,
            frame_ok(e.paddr as int),
        ensures
            final(self).wf(),
            final(pm).wf(),
            final(self).root == old(self).root,
            (final(self).entries@, final(pm)@) == install(old(self).entries@, old(pm)@, e),
            replaced == old(self).leaf(e.vaddr as int).is_some(),
            final(self).invalidated@ == if replaced {
                old(self).invalidated@.push(e.vaddr)
            } else {
                old(self).invalidated@
            },
            final(self).tlb_step(old(self)),
    {
        let i = self.Lower(e.vaddr);
        proof {
            lemma_put(self.entries@, e);
            lemma_pm_step(pm@, e.paddr as int);
            lemma_log_push(self.invalidated@, e.vaddr);
        }
        let _ = pm.Ref(e.paddr);
        if i < self.entries.len() && self.entries[i].vaddr == e.vaddr {
            let o = self.entries[i];
            self.entries.set(i, e);
            let _ = pm.Deref(o.paddr);
            self.invalidated.push(e.vaddr);
            true
        } else {
            self.entries.insert(i, e);
            false
        }
    }

    /// Maps the page at `va` to the frame at `pa` with the given flags.
    /// Fails, changing nothing, with `EINVAL` when an address is not
    /// page-aligned or the frame lies at the very top, and with `EFAULT` when `pa` is a frame of the pool that
    /// is not allocated. Returns whether a leaf was replaced, in which case
    /// the page has to leave the TLB.
    pub fn MapPage(&mut self, va: Addr, pa: Addr, flags: PageTableFlags, pm: &mut PageMgr) -> (r:
        Result<bool, Error>)
        requires
            old(self).wf(),
            old(pm).wf(),
        ensures
            final(self).wf(),
            final(pm).wf(),
            final(self).root == old(self).root,
            (va.0 % 4096 != 0 || !frame_ok(pa.0 as int)) ==> r == Err::<bool, Error>(
                Error::SysError(SysErr::EINVAL),
            ),
            (va.0 % 4096 == 0 && frame_ok(pa.0 as int) && old(pm)@.is_frame(pa.0 as int) && !old(pm)@.is_live(pa.0 as int)) ==> r == Err::<bool, Error>(Error::SysError(SysErr::EFAULT)),
            (va.0 % 4096 == 0 && frame_ok(pa.0 as int) && (old(pm)@.is_frame(pa.0 as int) ==> old(pm)@.is_live(pa.0 as int))) ==> r == Ok::<bool, Error>(
                old(self).leaf(va.0 as int).is_some(),
            ),
            r.is_err() ==> final(self).entries@ == old(self).entries@ && final(pm)@ == old(pm)@,
            r.is_ok() ==> (final(self).entries@, final(pm)@) == install(
                old(self).entries@,
                old(pm)@,
                PageEntry { vaddr: va.0, paddr: pa.0, flags: flag_bits(flags) },
            ),
            final(self).tlb_step(old(self)),
    {
        if va.0 % MemoryDef::PAGE_SIZE != 0 || pa.0 % MemoryDef::PAGE_SIZE != 0 || pa.0 > u64::MAX
            - MemoryDef::PAGE_SIZE {
            return Err(Error::SysError(SysErr::EINVAL));
        }
        if pm.IsFrame(pa.0) && !pm.IsLive(pa.0) {
            return Err(Error::SysError(SysErr::EFAULT));
        }
        let bits = PageOpts(flags).Bits();
        let replaced = self.Install(PageEntry { vaddr: va.0, paddr: pa.0, flags: bits }, pm);
        Ok(replaced)
    }

    /// Gives the leaf of the page at `va` new flags. Returns whether the
    /// page has a leaf; without one nothing changes.
    pub fn SetPageFlags(&mut self, va: Addr, flags: PageTableFlags) -> (found: bool)
        requires
            old(self).wf(),
        ensures
            final(self).wf(),
            final(self).root == old(self).root,
            found == old(self).leaf(va.0 as int).is_some(),
            found ==> final(self).entries@ == put(
                old(self).entries@,
                PageEntry { flags: flag_bits(flags), ..old(self).leaf(va.0 as int).unwrap() },
            ),
            !found ==> final(self).entries@ == old(self).entries@,
            final(self).tlb_step(old(self)),
    {
        let i = self.Lower(va.0);
        if i < self.entries.len() && self.entries[i].vaddr == va.0 {
            let o = self.entries[i];
            let bits = PageOpts(flags).Bits();
            let e = PageEntry { vaddr: o.vaddr, paddr: o.paddr, flags: bits };
            proof {
                lemma_put(self.entries@, e);
                lemma_log_push(self.invalidated@, va.0);
            }
            self.entries.set(i, e);
            self.invalidated.push(va.0);
            true
        } else {
            false
        }
    }

    /// Removes the leaves of the pages in `[va, va + len)` and drops their
    /// references. Fails with `EINVAL`, changing nothing, when the end of
    /// the range does not fit in 64 bits.
    pub fn MUnmap(&mut self, va: u64, len: u64, pm: &mut PageMgr) -> (r: Result<(), Error>)
        requires
            old(self).wf(),
            old(pm).wf(),
        ensures
            final(self).wf(),
            final(pm).wf(),
            final(self).root == old(self).root,
            va + len > u64::MAX ==> r == Err::<(), Error>(Error::SysError(SysErr::EINVAL))
                && final(self).entries@ == old(self).entries@ && final(pm)@ == old(pm)@,
            va + len <= u64::MAX ==> {
                &&& r == Ok::<(), Error>(())
                &&& final(self).entries@ == without(old(self).entries@, va as int, va + len)
                &&& final(pm)@ == release_all(
                    old(pm)@,
                    within(old(self).entries@, va as int, va + len),
                )
            },
            final(self).tlb_step(old(self)),
    {
        if len > u64::MAX - va {
            return Err(Error::SysError(SysErr::EINVAL));
        }
        let i = self.Lower(va);
        let j = self.Lower(va + len);
        proof {
            lemma_below_mono(self.entries@, va as int, va + len);
            lemma_without(self.entries@, va as int, va + len);
            lemma_below(self.entries@, va as int);
            lemma_below(self.entries@, va + len);
        }
        let ghost run = within(self.entries@, va as int, va + len);
        let mut k: usize = i;
        while k < j
            invariant
                i <= k <= j,
                j <= self.entries@.len(),
                self.entries@ == old(self).entries@,
                self.root == old(self).root,
                run == self.entries@.subrange(i as int, j as int),
                pm.wf(),
                pm@ == release_all(old(pm)@, run.take(k - i)),
                forall|y: u64| #[trigger]
                    old(self).invalidated@.contains(y) ==> self.invalidated@.contains(y),
                forall|a: int|
                    i <= a < k ==> self.invalidated@.contains((#[trigger] self.entries@[a]).vaddr),
            decreases j - k,
        {
            proof {
                lemma_pm_step(pm@, self.entries@[k as int].paddr as int);
                assert(run.take(k - i + 1).drop_last() =~= run.take(k - i));
                lemma_log_push(self.invalidated@, self.entries@[k as int].vaddr);
            }
            let _ = pm.Deref(self.entries[k].paddr);
            self.invalidated.push(self.entries[k].vaddr);
            k = k + 1;
        }
        proof {
            assert(run.take(j - i) =~= run);
            let es = old(self).entries@;
            assert forall|x: int|
                (#[trigger] lookup(es, x)).is_some() && lookup(without(es, va as int, va + len), x)
                    != lookup(es, x) implies self.invalidated@.contains(x as u64) by {
                lemma_lookup(es, x);
                let a = choose|a: int| 0 <= a < es.len() && (#[trigger] es[a]).vaddr == x;
                if a < i {
                    assert(es[a].vaddr < va);
                }
                if a >= j {
                    assert(es[a].vaddr >= va + len);
                }
                assert(self.invalidated@.contains(es[a].vaddr));
            }
        }
        let mut tail = self.entries.split_off(j);
        self.entries.truncate(i);
        self.entries.append(&mut tail);
        assert(self.entries@ =~= without(old(self).entries@, va as int, va + len));
        Ok(())
    }

    /// Makes the table of a child address space: every leaf is in both
    /// tables afterwards, user leaves that could be written are
    /// write-protected in both, and each frame gains the child's reference.
    /// The child's root is a fresh frame. Fails with `ENOMEM`, changing
    /// nothing, when no frame is free for the root.
    pub fn Fork(&mut self, pm: &mut PageMgr) -> (r: Result<PageTables, Error>)
        requires
            old(self).wf(),
            old(pm).wf(),
        ensures
            final(self).wf(),
            final(pm).wf(),
            final(self).root == old(self).root,
            r.is_ok() <==> old(pm)@.has_free(),
            r.is_err() ==> r == Err::<PageTables, Error>(Error::SysError(SysErr::ENOMEM)) && final(pm)@ == old(pm)@ && final(self).entries@ == old(self).entries@,
            r.is_ok() ==> {
                let root = old(pm)@.addr_of(old(pm)@.lowest_free());
                &&& r.unwrap().wf()
                &&& r.unwrap().root == root
                &&& r.unwrap().entries@ == cow_run(old(self).entries@)
                &&& final(self).entries@ == cow_run(old(self).entries@)
                &&& final(pm)@ == retain_all(
                    old(pm)@.allocate(true).retain(root),
                    old(self).entries@,
                )
                &&& r.unwrap().invalidated@.len() == 0
            },
            final(self).tlb_step(old(self)),
    {
        let mut child = match PageTables::New(pm) {
            Err(e) => {
                return Err(e);
            },
            Ok(c) => c,
        };
        let ghost pm0 = pm@;
        let ghost es = self.entries@;
        let n = self.entries.len();
        let mut k: usize = 0;
        proof {
            lemma_cow_run(es);
        }
        while k < n
            invariant
                k <= n,
                n == es.len(),
                es == old(self).entries@,
                self.root == old(self).root,
                child.root == old(pm)@.addr_of(old(pm)@.lowest_free()),
                pm0 == old(pm)@.allocate(true).retain(child.root as int),
                self.entries@ =~= cow_run(es).take(k as int) + es.skip(k as int),
                child.entries@ =~= cow_run(es).take(k as int),
                child.invalidated@.len() == 0,
                pm.wf(),
                pm@ == retain_all(pm0, es.take(k as int)),
                forall|y: u64| #[trigger]
                    old(self).invalidated@.contains(y) ==> self.invalidated@.contains(y),
                forall|a: int|
                    0 <= a < k && cow(#[trigger] es[a]) != es[a] ==> self.invalidated@.contains(
                        es[a].vaddr,
                    ),
            decreases n - k,
        {
            let e = self.entries[k];
            assert(e == es[k as int]);
            proof {
                lemma_log_push(self.invalidated@, e.vaddr);
            }
            let c = if IsUser(e.flags) && IsWritable(e.flags) {
                self.invalidated.push(e.vaddr);
                PageEntry { vaddr: e.vaddr, paddr: e.paddr, flags: ClearWritable(e.flags) }
            } else {
                e
            };
            assert(c == cow(e));
            self.entries.set(k, c);
            child.entries.push(c);
            let _ = pm.Ref(e.paddr);
            proof {
                assert(es.take(k + 1).drop_last() =~= es.take(k as int));
            }
            k = k + 1;
        }
        proof {
            assert(es.take(n as int) =~= es);
            assert(self.entries@ =~= cow_run(es));
            assert(child.entries@ =~= cow_run(es));
            assert forall|x: int|
                (#[trigger] lookup(es, x)).is_some() && lookup(cow_run(es), x) != lookup(es, x)
                    implies self.invalidated@.contains(x as u64) by {
                lemma_lookup(es, x);
                let a = choose|a: int| 0 <= a < es.len() && (#[trigger] es[a]).vaddr == x;
                assert(lookup(es, x) == Some(es[a]));
            }
        }
        Ok(child)
    }

    /// Shares the pages in `[va, va + len)` with `dst`, copy-on-write: the
    /// leaves of the range are write-protected here and installed in `dst`.
    /// Fails with `EINVAL`, changing nothing, when the end of the range does
    /// not fit in 64 bits.
    pub fn ForkRange(&mut self, dst: &mut PageTables, va: u64, len: u64, pm: &mut PageMgr) -> (r:
        Result<(), Error>)
        requires
            old(self).wf(),
            old(dst).wf(),
            old(pm).wf(),
        ensures
            final(self).wf(),
            final(dst).wf(),
            final(pm).wf(),
            final(self).root == old(self).root,
            final(dst).root == old(dst).root,
            va + len > u64::MAX ==> r == Err::<(), Error>(Error::SysError(SysErr::EINVAL))
                && final(self).entries@ == old(self).entries@ && final(dst).entries@ == old(dst).entries@ && final(pm)@ == old(pm)@,
            va + len <= u64::MAX ==> {
                let i = below(old(self).entries@, va as int);
                let j = below(old(self).entries@, va + len);
                let run = cow_run(within(old(self).entries@, va as int, va + len));
                &&& r == Ok::<(), Error>(())
                &&& final(self).entries@ == old(self).entries@.take(i) + run + old(self).entries@.skip(j)
                &&& (final(dst).entries@, final(pm)@) == install_all(
                    old(dst).entries@,
                    old(pm)@,
                    run,
                )
            },
            final(self).tlb_step(old(self)),
            final(dst).tlb_step(old(dst)),
    {
        if len > u64::MAX - va {
            return Err(Error::SysError(SysErr::EINVAL));
        }
        let i = self.Lower(va);
        let j = self.Lower(va + len);
        let ghost es = self.entries@;
        let ghost run = cow_run(within(es, va as int, va + len));
        proof {
            lemma_below_mono(es, va as int, va + len);
        }
        let mut k: usize = i;
        while k < j
            invariant
                i <= k <= j,
                j <= es.len(),
                es == old(self).entries@,
                pt_wf(es),
                run == cow_run(es.subrange(i as int, j as int)),
                self.root == old(self).root,
                dst.root == old(dst).root,
                self.entries@ =~= es.take(i as int) + run.take(k - i) + es.skip(k as int),
                dst.wf(),
                pm.wf(),
                (dst.entries@, pm@) == install_all(old(dst).entries@, old(pm)@, run.take(k - i)),
                dst.tlb_step(old(dst)),
                forall|y: u64| #[trigger]
                    old(self).invalidated@.contains(y) ==> self.invalidated@.contains(y),
                forall|a: int|
                    i <= a < k && cow(#[trigger] es[a]) != es[a] ==> self.invalidated@.contains(
                        es[a].vaddr,
                    ),
            decreases j - k,
        {
            let e = self.entries[k];
            assert(e == es[k as int]);
            proof {
                lemma_log_push(self.invalidated@, e.vaddr);
            }
            let c = if IsUser(e.flags) && IsWritable(e.flags) {
                self.invalidated.push(e.vaddr);
                PageEntry { vaddr: e.vaddr, paddr: e.paddr, flags: ClearWritable(e.flags) }
            } else {
                e
            };
            assert(c == run[k - i]);
            self.entries.set(k, c);
            let _ = dst.Install(c, pm);
            proof {
                assert(run.take(k - i + 1).drop_last() =~= run.take(k - i));
            }
            k = k + 1;
        }
        proof {
            assert(run.take(j - i) =~= run);
            assert(self.entries@ =~= es.take(i as int) + run + es.skip(j as int));
            let whole = es.take(i as int) + run + es.skip(j as int);
            lemma_cow_run(es);
            assert(whole.len() == es.len());
            assert forall|a: int| 0 <= a < whole.len() implies #[trigger] whole[a].vaddr
                == es[a].vaddr && whole[a].paddr == es[a].paddr by {}
            assert forall|a: int, b: int|
                #![trigger whole[a], whole[b]]
                0 <= a < b < whole.len() implies whole[a].vaddr < whole[b].vaddr by {
                assert(es[a].vaddr < es[b].vaddr);
            }
            assert forall|x: int|
                (#[trigger] lookup(es, x)).is_some() && lookup(whole, x) != lookup(es, x)
                    implies self.invalidated@.contains(x as u64) by {
                lemma_lookup(es, x);
                lemma_lookup(whole, x);
                let a = choose|a: int| 0 <= a < es.len() && (#[trigger] es[a]).vaddr == x;
                assert(whole[a].vaddr == x);
                assert(lookup(whole, x) == Some(whole[a]));
                if a < i || a >= j {
                    assert(whole[a] == es[a]);
                } else {
                    assert(whole[a] == run[a - i]);
                }
            }
        }
        Ok(())
    }

    /// Gives `dst` copies of its own of the pages in `[va, va + len)`: each
    /// leaf of the range is installed in `dst` with a fresh frame that holds
    /// the same bytes. Fails with `EINVAL`, changing nothing, when the end
    /// of the range does not fit in 64 bits, and with `ENOMEM` at the first
    /// leaf for which no frame is free; the leaves before it stay copied.
    pub fn CopyRange(&self, dst: &mut PageTables, va: u64, len: u64, pm: &mut PageMgr) -> (r:
        Result<(), Error>)
        requires
            self.wf(),
            old(dst).wf(),
            old(pm).wf(),
        ensures
            final(dst).wf(),
            final(pm).wf(),
            final(dst).root == old(dst).root,
            va + len > u64::MAX ==> r == Err::<(), Error>(Error::SysError(SysErr::EINVAL))
                && final(dst).entries@ == old(dst).entries@ && final(pm)@ == old(pm)@,
            va + len <= u64::MAX ==> {
                let res = copy_all(
                    old(dst).entries@,
                    old(pm)@,
                    within(self.entries@, va as int, va + len),
                );
                &&& final(dst).entries@ == res.0
                &&& final(pm)@ == res.1
                &&& res.2 ==> r == Ok::<(), Error>(())
                &&& !res.2 ==> r == Err::<(), Error>(Error::SysError(SysErr::ENOMEM))
            },
            final(dst).tlb_step(old(dst)),
    {
        if len > u64::MAX - va {
            return Err(Error::SysError(SysErr::EINVAL));
        }
        let i = self.Lower(va);
        let j = self.Lower(va + len);
        let ghost es = self.entries@;
        let ghost run = within(es, va as int, va + len);
        proof {
            lemma_below_mono(es, va as int, va + len);
        }
        let mut k: usize = i;
        while k < j
            invariant
                i <= k <= j,
                j <= es.len(),
                es == self.entries@,
                pt_wf(es),
                run == es.subrange(i as int, j as int),
                run == within(self.entries@, va as int, va + len),
                va + len <= u64::MAX,
                dst.root == old(dst).root,
                dst.wf(),
                pm.wf(),
                dst.tlb_step(old(dst)),
                (dst.entries@, pm@, true) == copy_all(old(dst).entries@, old(pm)@, run.take(k - i)),
            decreases j - k,
        {
            let e = self.entries[k];
            assert(e == run[k - i]);
            proof {
                assert(run.take(k - i + 1).drop_last() =~= run.take(k - i));
            }
            if pm.IsLive(e.paddr) {
                match pm.AllocPage(false) {
                    Err(_) => {
                        proof {
                            lemma_copy_all_stops(old(dst).entries@, old(pm)@, run, k - i + 1);
                        }
                        return Err(Error::SysError(SysErr::ENOMEM));
                    },
                    Ok(fresh) => {
                        pm.CopyPage(e.paddr, fresh);
                        let _ = dst.Install(
                            PageEntry { vaddr: e.vaddr, paddr: fresh, flags: e.flags },
                            pm,
                        );
                    },
                }
            } else {
                let _ = dst.Install(e, pm);
            }
            k = k + 1;
        }
        proof {
            assert(run.take(j - i) =~= run);
        }
        Ok(())
    }

    /// Appends the physical address of each page in `[start, end)` to
    /// `out`, in order. Stops with `AddressNotMap` at the first page that
    /// has no leaf; the addresses before it stay in `out`. Fails with
    /// `EINVAL`, changing nothing, when a bound is not page-aligned.
    pub fn GetAddresses(&self, start: Addr, end: Addr, out: &mut StackVec<u64>) -> (r: Result<
        (),
        Error,
    >)
        requires
            self.wf(),
        ensures
            (start.0 % 4096 != 0 || end.0 % 4096 != 0) ==> r == Err::<(), Error>(
                Error::SysError(SysErr::EINVAL),
            ) && final(out)@ == old(out)@,
            (start.0 % 4096 == 0 && end.0 % 4096 == 0) ==> {
                let n = if start.0 <= end.0 {
                    (end.0 - start.0) / 4096
                } else {
                    0
                };
                &&& r.is_ok() <==> all_mapped(self.entries@, start.0 as int, n)
                &&& r.is_ok() ==> final(out)@ == old(out)@ + addresses(
                    self.entries@,
                    start.0 as int,
                    n,
                )
                &&& r.is_err() ==> exists|k: int|
                    {
                        &&& 0 <= k < n
                        &&& all_mapped(self.entries@, start.0 as int, k)
                        &&& (#[trigger] lookup(self.entries@, start.0 + 4096 * k)).is_none()
                        &&& r.unwrap_err() == Error::AddressNotMap((start.0 + 4096 * k) as u64)
                        &&& final(out)@ == old(out)@ + addresses(self.entries@, start.0 as int, k)
                    }
            },
    {
        if start.0 % MemoryDef::PAGE_SIZE != 0 || end.0 % MemoryDef::PAGE_SIZE != 0 {
            return Err(Error::SysError(SysErr::EINVAL));
        }
        let ghost es = self.entries@;
        let ghost n: int = if start.0 <= end.0 {
            (end.0 - start.0) as int / 4096
        } else {
            0
        };
        let mut va = start.0;
        let ghost mut k: int = 0;
        proof {
            assert(out@ =~= old(out)@ + addresses(es, start.0 as int, 0));
        }
        while va < end.0
            invariant
                es == self.entries@,
                self.wf(),
                start.0 % 4096 == 0,
                end.0 % 4096 == 0,
                va % 4096 == 0,
                0 <= k <= n,
                va == start.0 + 4096 * k,
                start.0 <= end.0 ==> n == (end.0 - start.0) as int / 4096,
                start.0 > end.0 ==> n == 0,
                va >= end.0 ==> k == n,
                all_mapped(es, start.0 as int, k),
                out@ == old(out)@ + addresses(es, start.0 as int, k),
            decreases end.0 - va,
        {
            match self.Leaf(va) {
                None => {
                    return Err(Error::AddressNotMap(va));
                },
                Some(e) => {
                    out.Push(e.paddr);
                    proof {
                        assert(out@ =~= old(out)@ + addresses(es, start.0 as int, k + 1));
                        k = k + 1;
                    }
                    va = va + MemoryDef::PAGE_SIZE;
                },
            }
        }
        Ok(())
    }

    /// Gives up the whole table: every leaf goes and drops its reference,
    /// and so does the root.
    pub fn Release(&mut self, pm: &mut PageMgr)
        requires
            old(self).wf(),
            old(pm).wf(),
        ensures
            final(self).wf(),
            final(pm).wf(),
            final(self).root == 0,
            final(self).entries@.len() == 0,
            final(pm)@ == release_all(old(pm)@, old(self).entries@).release(
                old(self).root as int,
            ),
            final(self).tlb_step(old(self)),
    {
        let n = self.entries.len();
        let ghost es = self.entries@;
        let mut k: usize = 0;
        while k < n
            invariant
                k <= n,
                n == es.len(),
                es == self.entries@,
                self.root == old(self).root,
                es == old(self).entries@,
                pm.wf(),
                pm@ == release_all(old(pm)@, es.take(k as int)),
                forall|y: u64| #[trigger]
                    old(self).invalidated@.contains(y) ==> self.invalidated@.contains(y),
                forall|a: int| 0 <= a < k ==> self.invalidated@.contains((#[trigger] es[a]).vaddr),
            decreases n - k,
        {
            proof {
                assert(es.take(k + 1).drop_last() =~= es.take(k as int));
                lemma_log_push(self.invalidated@, es[k as int].vaddr);
            }
            let _ = pm.Deref(self.entries[k].paddr);
            self.invalidated.push(self.entries[k].vaddr);
            k = k + 1;
        }
        proof {
            assert(es.take(n as int) =~= es);
            assert forall|x: int| (#[trigger] lookup(es, x)).is_some() implies self.invalidated@.contains(
                x as u64,
            ) by {
                lemma_lookup(es, x);
                let a = choose|a: int| 0 <= a < es.len() && (#[trigger] es[a]).vaddr == x;
            }
        }
        let _ = pm.Deref(self.root);
        self.entries = Vec::new();
        self.root = 0;
    }
}

/// Once a step of a deep copy has failed, later leaves change nothing.
pub proof fn lemma_copy_all_stops(es: Seq<PageEntry>, pm: PmView, run: Seq<PageEntry>, n: int)
    requires
        0 <= n <= run.len(),
        !copy_all(es, pm, run.take(n)).2,
    ensures
        copy_all(es, pm, run) == copy_all(es, pm, run.take(n)),
    decreases run.len() - n,
{
    if n == run.len() {
        assert(run.take(n) =~= run);
    } else {
        assert(run.take(n + 1).drop_last() =~= run.take(n));
        lemma_copy_all_stops(es, pm, run, n + 1);
    }
}

} // verus!
