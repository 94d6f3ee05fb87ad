//! The memory manager of one address space: its areas, its page table and
//! its accounting, with demand paging and copy-on-write.
use vstd::prelude::*;
use x86_64::structures::paging::PageTableFlags;
use crate::addr::{frame_ok, page_down, Addr};
use crate::arch::{LimitSet, MmapDirection, MmapLayout, NewMmapLayout};
use crate::areaset::{AreaEntry, AreaSet};
use crate::linux_def::{Error, MemoryDef, SysErr};
use crate::mappable::MappableTable;
use crate::pagemgr::{PageMgr, PmView};
use crate::pageopts::{flag_bits, pte_writable, user_ro_bits, user_rw_bits, PageOpts};
use crate::pagetable::{
    cow_run, install, lemma_install, lemma_lookup, lemma_put, lookup, pt_wf, put, retain_all,
    PageEntry, PageTables,
};
use crate::range::Range;
use crate::uid::{NewUID, UidService};
use crate::vma::{AccessType, VMA};

verus! {

/// The program break of an address space.
#[derive(Clone, Copy, Debug, Default, PartialEq, Eq, Structural)]
pub struct BrkInfointernal {
    pub brkStart: u64,
    pub brkEnd: u64,
    pub brkMemEnd: u64,
}

/// One entry of the ELF auxiliary vector.
#[derive(Clone, Copy, Debug, Default, PartialEq, Eq, Structural)]
pub struct AuxEntry {
    pub Key: u64,
    pub Val: u64,
}

/// Whether, and for whom, an address space may be dumped.
#[derive(Clone, Copy, Debug, PartialEq, Eq, Structural)]
pub enum Dumpability {
    NOT_DUMPABLE,
    USER_DUMPABLE,
    ROOT_DUMPABLE,
}

/// A handle of a directory entry of the file system.
#[derive(Clone, Copy, Debug, PartialEq, Eq, Structural)]
pub struct Dirent(pub u64);

/// The bits that a fault gives the leaf of a page of `vma`: read-only when
/// the area is private or may not be written, writable otherwise.
pub open spec fn leaf_bits(vma: VMA) -> u64 {
    if vma.private || !vma.effectivePerms.write {
        user_ro_bits()
    } else {
        user_rw_bits()
    }
}

/// The frame that backs the page at `page` of the area `vma` in `range`:
/// none for anonymous memory, which gets a fresh frame, else the frame of
/// the backing object at the page's offset.
pub open spec fn backing(vma: VMA, range: Range, page: u64, files: &MappableTable) -> Result<
    Option<u64>,
    Error,
> {
    match vma.mappable {
        None => Ok(None),
        Some(m) => if page < range.start || vma.offset + (page - range.start) > u64::MAX {
            Err(Error::SysError(SysErr::EFAULT))
        } else {
            match files.frame_at(m, (vma.offset + (page - range.start)) as u64) {
                Ok(pa) => Ok(Some(pa)),
                Err(e) => Err(e),
            }
        },
    }
}

/// The page table and the pool after a fault on the page at `page` of the
/// area `vma`, and the error if the fault cannot be served. A page that
/// has a leaf stays as it is.
pub open spec fn fault_in(
    es: Seq<PageEntry>,
    pm: PmView,
    vma: VMA,
    range: Range,
    page: u64,
    files: &MappableTable,
) -> (Seq<PageEntry>, PmView, Option<Error>) {
    if page % 4096 != 0 {
        (es, pm, Some(Error::SysError(SysErr::EINVAL)))
    } else if lookup(es, page as int).is_some() {
        (es, pm, None)
    } else {
        match backing(vma, range, page, files) {
            Err(e) => (es, pm, Some(e)),
            Ok(Some(pa)) => {
                let p = install(es, pm, PageEntry { vaddr: page, paddr: pa, flags: leaf_bits(vma) });
                (p.0, p.1, None)
            },
            Ok(None) => if !pm.has_free() {
                (es, pm, Some(Error::SysError(SysErr::ENOMEM)))
            } else {
                let pa = pm.addr_of(pm.lowest_free()) as u64;
                let p = install(
                    es,
                    pm.allocate(false),
                    PageEntry { vaddr: page, paddr: pa, flags: leaf_bits(vma) },
                );
                (p.0, p.1, None)
            },
        }
    }
}

/// The page table and the pool after a write fault on the page at `page`
/// of the area `vma` was resolved, and the error if it cannot be. A page
/// that can be written stays as it is; a frame that nobody else holds and
/// that backs anonymous memory becomes writable in place; any other page
/// gets a fresh frame with the same bytes.
pub open spec fn cow_page(es: Seq<PageEntry>, pm: PmView, page: u64, vma: VMA) -> (
    Seq<PageEntry>,
    PmView,
    Option<Error>,
) {
    match lookup(es, page_down(page as int)) {
        None => (es, pm, Some(Error::SysError(SysErr::EFAULT))),
        Some(e) => if pte_writable(e.flags) {
            (es, pm, None)
        } else if !pm.is_live(e.paddr as int) {
            (es, pm, Some(Error::SysError(SysErr::EFAULT)))
        } else if pm.ref_of(e.paddr as int) == 1 && vma.mappable.is_none() {
            (put(es, PageEntry { flags: user_rw_bits(), ..e }), pm, None)
        } else if !pm.has_free() {
            (es, pm, Some(Error::SysError(SysErr::ENOMEM)))
        } else {
            let fresh = pm.addr_of(pm.lowest_free());
            let p = install(
                es,
                pm.allocate(false).copy_page(e.paddr as int, fresh),
                PageEntry { vaddr: e.vaddr, paddr: fresh as u64, flags: user_rw_bits() },
            );
            (p.0, p.1, None)
        },
    }
}

/// How the check of one page ends: the page is accessible and the next
/// one is looked at, the page cannot be written and the check stops there,
/// or the page cannot be made accessible at all.
pub enum FixStep {
    Next,
    Stop,
    Fail(Error),
}

/// The page table and the pool after the page at `page` was made
/// accessible, and how that ended. A page without leaf is faulted in from
/// the area that holds it. When write access is asked for and the leaf is
/// read-only, the write fault is resolved if the area may be written, and
/// the check stops if it may not or no area holds the page.
pub open spec fn fix_page(
    es: Seq<PageEntry>,
    pm: PmView,
    vmas: &AreaSet,
    files: &MappableTable,
    page: u64,
    writeReq: bool,
) -> (Seq<PageEntry>, PmView, FixStep) {
    let area = vmas.area_at(page as int);
    let a = if lookup(es, page as int).is_some() {
        (es, pm, None::<Error>)
    } else {
        match area {
            None => (es, pm, Some(Error::SysError(SysErr::EFAULT))),
            Some(ar) => fault_in(es, pm, ar.vma, ar.range, page, files),
        }
    };
    if page == 0 {
        (es, pm, FixStep::Fail(Error::SysError(SysErr::EFAULT)))
    } else if a.2.is_some() {
        (es, pm, FixStep::Fail(a.2.unwrap()))
    } else if !writeReq || pte_writable(lookup(a.0, page as int).unwrap().flags) {
        (a.0, a.1, FixStep::Next)
    } else if area.is_none() || !area.unwrap().vma.effectivePerms.write {
        (a.0, a.1, FixStep::Stop)
    } else {
        let c = cow_page(a.0, a.1, page, area.unwrap().vma);
        match c.2 {
            Some(e) => (c.0, c.1, FixStep::Fail(e)),
            None => (c.0, c.1, FixStep::Next),
        }
    }
}

/// The page table and the pool after the first `n` pages from `first` were
/// made accessible one after the other, the number of pages that were, and
/// how the last check ended: the checks end at the first page that is not
/// accessible.
pub open spec fn fix_pages(
    es: Seq<PageEntry>,
    pm: PmView,
    vmas: &AreaSet,
    files: &MappableTable,
    first: u64,
    n: nat,
    writeReq: bool,
) -> (Seq<PageEntry>, PmView, int, FixStep)
    decreases n,
{
    if n == 0 {
        (es, pm, 0, FixStep::Next)
    } else {
        let p = fix_pages(es, pm, vmas, files, first, (n - 1) as nat, writeReq);
        if p.3 != FixStep::Next {
            p
        } else {
            let s = fix_page(p.0, p.1, vmas, files, (first + 4096 * (n - 1)) as u64, writeReq);
            (
                s.0,
                s.1,
                if s.2 == FixStep::Next {
                    n as int
                } else {
                    n - 1
                },
                s.2,
            )
        }
    }
}

/// Number of pages that hold a byte of `[vAddr, vAddr + len)`.
pub open spec fn pages_of(vAddr: int, len: int) -> int {
    if len <= 0 {
        0
    } else {
        (page_down(vAddr + len - 1) - page_down(vAddr)) / 4096 + 1
    }
}

/// What a check of `[vAddr, vAddr + len)` returns when `count` pages were
/// accessible and the last check ended with `step`: the whole length when
/// every page is accessible; the error of a page that cannot be made
/// accessible; and for a page that cannot be written, the length up to that
/// page when a part is allowed and that page is not the first, `EFAULT`
/// otherwise.
pub open spec fn fix_result(vAddr: u64, len: u64, allowPartial: bool, count: int, step: FixStep)
    -> Result<u64, Error> {
    match step {
        FixStep::Next => Ok(len),
        FixStep::Fail(e) => Err(e),
        FixStep::Stop => {
            let addr = page_down(vAddr as int) + 4096 * count;
            if allowPartial && addr > vAddr {
                Ok((addr - vAddr) as u64)
            } else {
                Err(Error::SysError(SysErr::EFAULT))
            }
        },
    }
}

/// What a check of `[vAddr, vAddr + len)` does and returns: the page table
/// and the pool after the pages of the range were made accessible, as far
/// as they could be, and the result. The null address and a range that does
/// not end inside 64 bits give `EFAULT` and change nothing.
#[verifier::opaque]
pub open spec fn fix_step(
    es: Seq<PageEntry>,
    pm: PmView,
    vmas: &AreaSet,
    files: &MappableTable,
    vAddr: u64,
    len: u64,
    writeReq: bool,
    allowPartial: bool,
) -> (Seq<PageEntry>, PmView, Result<u64, Error>) {
    if vAddr == 0 || vAddr + len > u64::MAX {
        (es, pm, Err(Error::SysError(SysErr::EFAULT)))
    } else {
        let p = fix_pages(
            es,
            pm,
            vmas,
            files,
            page_down(vAddr as int) as u64,
            pages_of(vAddr as int, len as int) as nat,
            writeReq,
        );
        (p.0, p.1, fix_result(vAddr, len, allowPartial, p.2, p.3))
    }
}

/// A fault that is served keeps the page table and the pool well formed,
/// gives the page a leaf and leaves every other page as it is; a fault that
/// is not served changes nothing.
pub proof fn lemma_fault_in(
    es: Seq<PageEntry>,
    pm: PmView,
    vma: VMA,
    range: Range,
    page: u64,
    files: &MappableTable,
)
    requires
        pt_wf(es),
        pm.wf(),
        files.wf(),
    ensures
        pt_wf(fault_in(es, pm, vma, range, page, files).0),
        fault_in(es, pm, vma, range, page, files).1.wf(),
        fault_in(es, pm, vma, range, page, files).1.base == pm.base,
        fault_in(es, pm, vma, range, page, files).1.frames() == pm.frames(),
        fault_in(es, pm, vma, range, page, files).2.is_some() ==> fault_in(
            es,
            pm,
            vma,
            range,
            page,
            files,
        ).0 == es && fault_in(es, pm, vma, range, page, files).1 == pm,
        fault_in(es, pm, vma, range, page, files).2.is_none() ==> lookup(
            fault_in(es, pm, vma, range, page, files).0,
            page as int,
        ).is_some(),
        forall|va: int|
            va != page ==> lookup(fault_in(es, pm, vma, range, page, files).0, va)
                == #[trigger] lookup(es, va),
{
    let r = fault_in(es, pm, vma, range, page, files);
    if page % 4096 == 0 && lookup(es, page as int).is_none() {
        match backing(vma, range, page, files) {
            Err(e) => {},
            Ok(Some(pa)) => {
                let m = vma.mappable.unwrap();
                assert(files.files@[m as int].wf());
                let e = PageEntry { vaddr: page, paddr: pa, flags: leaf_bits(vma) };
                lemma_install(es, pm, e);
                lemma_put(es, e);
            },
            Ok(None) => {
                if pm.has_free() {
                    let i = pm.lowest_free();
                    let pa = pm.addr_of(i) as u64;
                    let e = PageEntry { vaddr: page, paddr: pa, flags: leaf_bits(vma) };
                    lemma_allocate(pm, false);
                    lemma_install(es, pm.allocate(false), e);
                    lemma_put(es, e);
                }
            },
        }
    }
}

/// Handing out a frame keeps the pool well formed and gives a
/// page-aligned address inside it.
pub proof fn lemma_allocate(pm: PmView, zeroed: bool)
    requires
        pm.wf(),
        pm.has_free(),
    ensures
        pm.allocate(zeroed).wf(),
        pm.allocate(zeroed).base == pm.base,
        pm.allocate(zeroed).frames() == pm.frames(),
        pm.first_free(pm.lowest_free()),
        frame_ok(pm.addr_of(pm.lowest_free())),
        pm.is_frame(pm.addr_of(pm.lowest_free())),
        0 <= pm.addr_of(pm.lowest_free()) <= u64::MAX,
        pm.allocate(zeroed).is_live(pm.addr_of(pm.lowest_free())),
        pm.index_of(pm.addr_of(pm.lowest_free())) == pm.lowest_free(),
{
    let k = choose|k: int| 0 <= k < pm.frames() && !#[trigger] pm.live[k];
    lemma_has_first_free(pm, k);
    let i = pm.lowest_free();
    assert(pm.first_free(i));
    assert(pm.refs[i] == 0);
}

/// A pool with a free frame has a free frame of lowest number.
pub proof fn lemma_has_first_free(pm: PmView, k: int)
    requires
        0 <= k < pm.frames(),
        !pm.live[k],
    ensures
        exists|i: int| pm.first_free(i),
    decreases k,
{
    if forall|j: int| 0 <= j < k ==> #[trigger] pm.live[j] {
        assert(pm.first_free(k));
    } else {
        let j = choose|j: int| 0 <= j < k && !#[trigger] pm.live[j];
        lemma_has_first_free(pm, j);
    }
}

/// A write fault that is resolved keeps the page table and the pool well
/// formed, leaves the page with a writable leaf and every other page as it
/// is; one that is not resolved changes nothing.
pub proof fn lemma_cow_page(es: Seq<PageEntry>, pm: PmView, page: u64, vma: VMA)
    requires
        pt_wf(es),
        pm.wf(),
    ensures
        pt_wf(cow_page(es, pm, page, vma).0),
        cow_page(es, pm, page, vma).1.wf(),
        cow_page(es, pm, page, vma).1.base == pm.base,
        cow_page(es, pm, page, vma).1.frames() == pm.frames(),
        cow_page(es, pm, page, vma).2.is_some() ==> cow_page(es, pm, page, vma).0 == es
            && cow_page(es, pm, page, vma).1 == pm,
        cow_page(es, pm, page, vma).2.is_none() ==> {
            let l = lookup(cow_page(es, pm, page, vma).0, page_down(page as int));
            l.is_some() && pte_writable(l.unwrap().flags)
        },
        forall|va: int|
            va != page_down(page as int) ==> lookup(cow_page(es, pm, page, vma).0, va)
                == #[trigger] lookup(es, va),
{
    let pg = page_down(page as int);
    assert(pte_writable(user_rw_bits())) by {
        assert(7u64 & 2 != 0) by (bit_vector);
    }
    match lookup(es, pg) {
        None => {},
        Some(e) => {
            lemma_lookup(es, pg);
            if !pte_writable(e.flags) && pm.is_live(e.paddr as int) {
                if pm.ref_of(e.paddr as int) == 1 && vma.mappable.is_none() {
                    lemma_put(es, PageEntry { flags: user_rw_bits(), ..e });
                } else if pm.has_free() {
                    let fresh = pm.addr_of(pm.lowest_free());
                    lemma_allocate(pm, false);
                    let pm1 = pm.allocate(false).copy_page(e.paddr as int, fresh);
                    let n = PageEntry { vaddr: e.vaddr, paddr: fresh as u64, flags: user_rw_bits() };
                    lemma_install(es, pm1, n);
                    lemma_put(es, n);
                }
            }
        },
    }
}

/// The check of one page keeps the page table and the pool well formed and
/// leaves every other page as it is; a page that passes has a leaf, which
/// is writable when write access was asked for.
pub proof fn lemma_fix_page(
    es: Seq<PageEntry>,
    pm: PmView,
    vmas: &AreaSet,
    files: &MappableTable,
    page: u64,
    writeReq: bool,
)
    requires
        pt_wf(es),
        pm.wf(),
        files.wf(),
        page % 4096 == 0,
    ensures
        pt_wf(fix_page(es, pm, vmas, files, page, writeReq).0),
        fix_page(es, pm, vmas, files, page, writeReq).1.wf(),
        fix_page(es, pm, vmas, files, page, writeReq).1.base == pm.base,
        fix_page(es, pm, vmas, files, page, writeReq).1.frames() == pm.frames(),
        fix_page(es, pm, vmas, files, page, writeReq).2 == FixStep::Next ==> {
            let l = lookup(fix_page(es, pm, vmas, files, page, writeReq).0, page as int);
            l.is_some() && (writeReq ==> pte_writable(l.unwrap().flags))
        },
        forall|va: int|
            va != page ==> lookup(fix_page(es, pm, vmas, files, page, writeReq).0, va)
                == #[trigger] lookup(es, va),
{
    let area = vmas.area_at(page as int);
    if lookup(es, page as int).is_none() && area.is_some() {
        lemma_fault_in(es, pm, area.unwrap().vma, area.unwrap().range, page, files);
    }
    let a = if lookup(es, page as int).is_some() {
        (es, pm, None::<Error>)
    } else {
        match area {
            None => (es, pm, Some(Error::SysError(SysErr::EFAULT))),
            Some(ar) => fault_in(es, pm, ar.vma, ar.range, page, files),
        }
    };
    if area.is_some() {
        lemma_cow_page(a.0, a.1, page, area.unwrap().vma);
    }
}

/// The state of one address space.
pub struct MemoryManagerInternal {
    pub inited: bool,
    pub pt: PageTables,
    pub vmas: AreaSet,
    pub brkInfo: BrkInfointernal,
    /// Total length of the areas that are not the kernel's.
    pub usageAS: u64,
    pub layout: MmapLayout,
    pub curRSS: u64,
    pub maxRSS: u64,
    pub sharedLoadsOffset: u64,
    pub auxv: Vec<AuxEntry>,
    pub argv: Range,
    pub envv: Range,
    pub executable: Option<Dirent>,
    pub dumpability: Dumpability,
}

impl Default for MemoryManagerInternal {
    /// The state of a placeholder: no area, no leaf, no page table.
    fn default() -> (r: Self)
        ensures
            r.wf(),
            !r.inited,
            r.pt.root == 0,
            r.pt.entries@.len() == 0,
            r.vmas.range == (Range { start: 0, len: MemoryDef::LOWER_TOP }),
            r.vmas.segs@.len() == 0,
            r.brkInfo == (BrkInfointernal { brkStart: 0, brkEnd: 0, brkMemEnd: 0 }),
            r.usageAS == 0,
            r.curRSS == 0,
            r.maxRSS == 0,
            r.sharedLoadsOffset == MemoryDef::SHARED_START,
            r.auxv@.len() == 0,
            r.argv == (Range { start: 0, len: 0 }),
            r.envv == (Range { start: 0, len: 0 }),
            r.executable.is_none(),
            r.dumpability == Dumpability::NOT_DUMPABLE,
    {
        let r = MemoryManagerInternal {
            inited: false,
            pt: PageTables::Empty(),
            vmas: AreaSet::New(0, MemoryDef::LOWER_TOP),
            brkInfo: BrkInfointernal { brkStart: 0, brkEnd: 0, brkMemEnd: 0 },
            usageAS: 0,
            layout: MmapLayout::default(),
            curRSS: 0,
            maxRSS: 0,
            sharedLoadsOffset: MemoryDef::SHARED_START,
            auxv: Vec::new(),
            argv: Range { start: 0, len: 0 },
            envv: Range { start: 0, len: 0 },
            executable: None,
            dumpability: Dumpability::NOT_DUMPABLE,
        };
        r
    }
}

impl MemoryManagerInternal {
    /// The invariant of an address space: a well-formed page table and set
    /// of areas, a usage that is the total length of the areas that are not
    /// the kernel's, and a resident size that never exceeds its maximum.
    pub open spec fn wf(&self) -> bool {
        &&& self.pt.wf()
        &&& self.vmas.wf()
        &&& self.usageAS == self.vmas.span()
        &&& self.curRSS <= self.maxRSS
    }

    /// Everything but the leaves of the page table is as in `o`, and the
    /// list of pages to invalidate has followed the change of the leaves.
    pub open spec fn same_but_pt(&self, o: &Self) -> bool {
        &&& self.pt.tlb_step(&o.pt)
        &&& self.inited == o.inited
        &&& self.vmas == o.vmas
        &&& self.brkInfo == o.brkInfo
        &&& self.usageAS == o.usageAS
        &&& self.layout == o.layout
        &&& self.curRSS == o.curRSS
        &&& self.maxRSS == o.maxRSS
        &&& self.sharedLoadsOffset == o.sharedLoadsOffset
        &&& self.auxv == o.auxv
        &&& self.argv == o.argv
        &&& self.envv == o.envv
        &&& self.executable == o.executable
        &&& self.dumpability == o.dumpability
        &&& self.pt.root == o.pt.root
    }

    /// The area of the guest kernel.
    pub open spec fn kernel_area() -> AreaEntry {
        AreaEntry {
            range: Range {
                start: MemoryDef::PHY_LOWER_ADDR,
                len: (MemoryDef::PHY_UPPER_ADDR - MemoryDef::PHY_LOWER_ADDR) as u64,
            },
            vma: VMA {
                mappable: None,
                offset: 0,
                fixed: true,
                realPerms: AccessType { read: true, write: true, execute: false },
                effectivePerms: AccessType { read: true, write: true, execute: false },
                maxPerms: AccessType { read: true, write: true, execute: false },
                private: true,
                growsDown: false,
                kernel: true,
                hint: "Kernel Space",
                id: None,
            },
        }
    }

    /// The state of the root address space: the kernel's area over the
    /// kernel window and a page table forked from the kernel's. Fails with
    /// `ENOMEM`, changing nothing, when no frame is free for the root of the
    /// page table.
    pub fn Init(kernel: &mut PageTables, pm: &mut PageMgr) -> (r: Result<Self, Error>)
        requires
            old(kernel).wf(),
            old(pm).wf(),
        ensures
            final(kernel).wf(),
            final(pm).wf(),
            final(kernel).root == old(kernel).root,
            final(kernel).tlb_step(old(kernel)),
            r.is_ok() <==> old(pm)@.has_free(),
            r.is_err() ==> r == Err::<Self, Error>(Error::SysError(SysErr::ENOMEM)) && final(pm)@
                == old(pm)@ && final(kernel).entries@ == old(kernel).entries@,
            r.is_ok() ==> {
                let m = r.unwrap();
                let root = old(pm)@.addr_of(old(pm)@.lowest_free());
                &&& m.wf()
                &&& m.inited
                &&& m.pt.root == root
                &&& m.pt.entries@ == cow_run(old(kernel).entries@)
                &&& final(kernel).entries@ == cow_run(old(kernel).entries@)
                &&& final(pm)@ == retain_all(
                    old(pm)@.allocate(true).retain(root),
                    old(kernel).entries@,
                )
                &&& m.vmas.range == (Range { start: 0, len: u64::MAX })
                &&& m.vmas.segs@ == seq![Self::kernel_area()]
                &&& m.brkInfo == (BrkInfointernal { brkStart: 0, brkEnd: 0, brkMemEnd: 0 })
                &&& m.usageAS == 0
                &&& m.layout == (MmapLayout {
                    MinAddr: MemoryDef::VIR_MMAP_START,
                    MaxAddr: MemoryDef::LOWER_TOP,
                    BottomUpBase: MemoryDef::VIR_MMAP_START,
                    TopDownBase: MemoryDef::LOWER_TOP,
                    DefaultDirection: MmapDirection::MmapBottomUp,
                    StackAddr: 0,
                })
                &&& m.curRSS == 0
                &&& m.maxRSS == 0
                &&& m.sharedLoadsOffset == MemoryDef::SHARED_START
                &&& m.auxv@.len() == 0
                &&& m.argv == (Range { start: 0, len: 0 })
                &&& m.envv == (Range { start: 0, len: 0 })
                &&& m.executable.is_none()
                &&& m.dumpability == Dumpability::NOT_DUMPABLE
            },
    {
        let pt = match kernel.Fork(pm) {
            Err(e) => {
                return Err(e);
            },
            Ok(pt) => pt,
        };
        let mut vmas = AreaSet::New(0, u64::MAX);
        let vma = VMA {
            mappable: None,
            offset: 0,
            fixed: true,
            realPerms: AccessType::ReadWrite(),
            effectivePerms: AccessType::ReadWrite(),
            maxPerms: AccessType::ReadWrite(),
            private: true,
            growsDown: false,
            kernel: true,
            hint: "Kernel Space",
            id: None,
        };
        let gap = vmas.FindGap(MemoryDef::PHY_LOWER_ADDR);
        let r = Range::New(
            MemoryDef::PHY_LOWER_ADDR,
            MemoryDef::PHY_UPPER_ADDR - MemoryDef::PHY_LOWER_ADDR,
        );
        assert(!vmas.covers(MemoryDef::PHY_LOWER_ADDR as int));
        vmas.Insert(&gap, &r, vma);
        let layout = MmapLayout {
            MinAddr: MemoryDef::VIR_MMAP_START,
            MaxAddr: MemoryDef::LOWER_TOP,
            BottomUpBase: MemoryDef::VIR_MMAP_START,
            TopDownBase: MemoryDef::LOWER_TOP,
            DefaultDirection: MmapDirection::MmapBottomUp,
            StackAddr: 0,
        };
        proof {
            assert(vmas.segs@ =~= seq![Self::kernel_area()]);
            crate::areaset::lemma_sum_one(Self::kernel_area(), crate::areaset::user_weight());
        }
        Ok(
            MemoryManagerInternal {
                inited: true,
                pt,
                vmas,
                brkInfo: BrkInfointernal { brkStart: 0, brkEnd: 0, brkMemEnd: 0 },
                usageAS: 0,
                layout,
                curRSS: 0,
                maxRSS: 0,
                sharedLoadsOffset: MemoryDef::SHARED_START,
                auxv: Vec::new(),
                argv: Range { start: 0, len: 0 },
                envv: Range { start: 0, len: 0 },
                executable: None,
                dumpability: Dumpability::NOT_DUMPABLE,
            },
        )
    }

    /// The address at which the stack is anchored.
    pub fn MapStackAddr(&self) -> (r: u64)
        ensures
            r == self.layout.StackAddr,
    {
        self.layout.MapStackAddr()
    }

    /// The physical address behind `vAddr` and whether its page can be
    /// written; `AddressNotMap` when the page has no leaf.
    pub fn VirtualToPhy(&self, vAddr: u64) -> (r: Result<(u64, bool), Error>)
        requires
            self.pt.wf(),
        ensures
            r == match self.pt.leaf(page_down(vAddr as int)) {
                Some(e) => Ok::<(u64, bool), Error>(
                    ((e.paddr + vAddr % 4096) as u64, pte_writable(e.flags)),
                ),
                None => Err::<(u64, bool), Error>(Error::AddressNotMap(vAddr)),
            },
    {
        self.pt.VirtualToPhy(vAddr)
    }

    /// Sets the program break to the empty interval at `addr`.
    pub fn BrkSetup(&mut self, addr: u64)
        ensures
            final(self).brkInfo == (BrkInfointernal {
                brkStart: addr,
                brkEnd: addr,
                brkMemEnd: addr,
            }),
            *final(self) == (MemoryManagerInternal { brkInfo: final(self).brkInfo, ..*old(self) }),
    {
        self.brkInfo = BrkInfointernal { brkStart: addr, brkEnd: addr, brkMemEnd: addr };
    }

    /// Counts the bytes of `ar` as resident; the maximum follows when the
    /// resident size passes it.
    pub fn AddRssLock(&mut self, ar: &Range)
        requires
            old(self).curRSS + ar.len <= u64::MAX,
            old(self).curRSS <= old(self).maxRSS,
        ensures
            final(self).curRSS == old(self).curRSS + ar.len,
            final(self).maxRSS == if old(self).curRSS + ar.len > old(self).maxRSS {
                (old(self).curRSS + ar.len) as u64
            } else {
                old(self).maxRSS
            },
            final(self).maxRSS >= old(self).maxRSS,
            final(self).curRSS <= final(self).maxRSS,
            *final(self) == (MemoryManagerInternal {
                curRSS: final(self).curRSS,
                maxRSS: final(self).maxRSS,
                ..*old(self)
            }),
    {
        self.curRSS = self.curRSS + ar.Len();
        if self.curRSS > self.maxRSS {
            self.maxRSS = self.curRSS;
        }
    }

    /// Takes the bytes of `ar` from the resident size, which never drops
    /// below 0; the maximum stays.
    pub fn RemoveRssLock(&mut self, ar: &Range)
        ensures
            final(self).curRSS == if old(self).curRSS >= ar.len {
                (old(self).curRSS - ar.len) as u64
            } else {
                0
            },
            *final(self) == (MemoryManagerInternal { curRSS: final(self).curRSS, ..*old(self) }),
    {
        if self.curRSS >= ar.Len() {
            self.curRSS = self.curRSS - ar.Len();
        } else {
            self.curRSS = 0;
        }
    }
}

/// A reference to an address space that does not keep it alive: its
/// identifier.
#[derive(Clone, Copy, Debug, PartialEq, Eq, Structural)]
pub struct MemoryManagerWeak {
    pub uid: u64,
}

impl MemoryManagerWeak {
    pub fn ID(&self) -> (r: u64)
        ensures
            r == self.uid,
    {
        self.uid
    }
}

/// One address space.
pub struct MemoryManager {
    pub uid: u64,
    pub data: MemoryManagerInternal,
}

impl MemoryManager {
    /// The invariant of the address space.
    pub open spec fn wf(&self) -> bool {
        self.data.wf()
    }

    /// Everything but the page table's leaves is as in `o`.
    pub open spec fn same_but_pt(&self, o: &Self) -> bool {
        self.uid == o.uid && self.data.same_but_pt(&o.data)
    }

    /// The leaves of the page table.
    pub open spec fn leaves(&self) -> Seq<PageEntry> {
        self.data.pt.entries@
    }

    /// A reference that does not keep the address space alive.
    pub fn Downgrade(&self) -> (r: MemoryManagerWeak)
        ensures
            r.uid == self.uid,
    {
        MemoryManagerWeak { uid: self.uid }
    }

    /// A placeholder: an address space with a new identifier and without
    /// areas, leaves or page table.
    pub fn Empty(uids: &mut UidService) -> (r: Self)
        requires
            old(uids).next < u64::MAX,
        ensures
            final(uids).next == old(uids).next + 1,
            r.uid == old(uids).next,
            r.wf(),
            !r.data.inited,
            r.data.pt.root == 0,
            r.leaves().len() == 0,
            r.data.vmas.range == (Range { start: 0, len: MemoryDef::LOWER_TOP }),
            r.data.vmas.segs@.len() == 0,
            r.data.usageAS == 0,
            r.data.curRSS == 0,
            r.data.maxRSS == 0,
            r.data.sharedLoadsOffset == MemoryDef::SHARED_START,
            r.data.auxv@.len() == 0,
            r.data.executable.is_none(),
            r.data.dumpability == Dumpability::NOT_DUMPABLE,
    {
        MemoryManager { uid: NewUID(uids), data: MemoryManagerInternal::default() }
    }

    /// The root address space, with a new identifier: see
    /// `MemoryManagerInternal::Init`.
    pub fn Init(uids: &mut UidService, kernel: &mut PageTables, pm: &mut PageMgr) -> (r: Result<
        Self,
        Error,
    >)
        requires
            old(uids).next < u64::MAX,
            old(kernel).wf(),
            old(pm).wf(),
        ensures
            final(kernel).wf(),
            final(pm).wf(),
            final(kernel).root == old(kernel).root,
            final(kernel).tlb_step(old(kernel)),
            r.is_ok() <==> old(pm)@.has_free(),
            r.is_err() ==> r == Err::<Self, Error>(Error::SysError(SysErr::ENOMEM)) && final(pm)@
                == old(pm)@ && final(kernel).entries@ == old(kernel).entries@ && final(uids).next
                == old(uids).next,
            r.is_ok() ==> {
                let m = r.unwrap();
                let root = old(pm)@.addr_of(old(pm)@.lowest_free());
                &&& m.wf()
                &&& m.uid == old(uids).next
                &&& final(uids).next == old(uids).next + 1
                &&& m.data.inited
                &&& m.data.pt.root == root
                &&& m.leaves() == cow_run(old(kernel).entries@)
                &&& final(kernel).entries@ == cow_run(old(kernel).entries@)
                &&& final(pm)@ == retain_all(
                    old(pm)@.allocate(true).retain(root),
                    old(kernel).entries@,
                )
                &&& m.data.vmas.range == (Range { start: 0, len: u64::MAX })
                &&& m.data.vmas.segs@ == seq![MemoryManagerInternal::kernel_area()]
                &&& m.data.usageAS == 0
                &&& m.data.curRSS == 0
                &&& m.data.maxRSS == 0
            },
    {
        match MemoryManagerInternal::Init(kernel, pm) {
            Err(e) => Err(e),
            Ok(internal) => Ok(MemoryManager { uid: NewUID(uids), data: internal }),
        }
    }

    pub fn ID(&self) -> (r: u64)
        ensures
            r == self.uid,
    {
        self.uid
    }

    /// The physical address of the root of the page table.
    pub fn GetRoot(&self) -> (r: u64)
        ensures
            r == self.data.pt.root,
    {
        self.data.pt.GetRoot()
    }

    /// Stores the handle of the program that runs in the address space.
    pub fn SetExecutable(&mut self, dirent: &Dirent)
        ensures
            final(self).uid == old(self).uid,
            final(self).data == (MemoryManagerInternal {
                executable: Some(*dirent),
                ..old(self).data
            }),
    {
        self.data.executable = Some(*dirent);
    }

    /// Derives the layout for the given bounds and limits and stores it.
    /// Fails with `EINVAL`, changing nothing, as `NewMmapLayout` does.
    pub fn SetMmapLayout(&mut self, minUserAddr: u64, maxUserAddr: u64, r: &LimitSet) -> (res:
        Result<MmapLayout, Error>)
        ensures
            res.is_ok() <==> (crate::addr::page_up(minUserAddr as int) <= u64::MAX
                && crate::arch::layout_for(minUserAddr, maxUserAddr, *r).valid()),
            res.is_ok() ==> res.unwrap() == crate::arch::layout_for(minUserAddr, maxUserAddr, *r)
                && final(self).data.layout == res.unwrap(),
            res.is_err() ==> res == Err::<MmapLayout, Error>(Error::SysError(SysErr::EINVAL))
                && final(self).data.layout == old(self).data.layout,
            final(self).uid == old(self).uid,
            final(self).data == (MemoryManagerInternal {
                layout: final(self).data.layout,
                ..old(self).data
            }),
    {
        let layout = NewMmapLayout(minUserAddr, maxUserAddr, r)?;
        self.data.layout = layout;
        Ok(layout)
    }

    /// The area that holds `addr`, if there is one.
    pub fn GetVma(&self, addr: u64) -> (r: Option<VMA>)
        requires
            self.data.vmas.wf(),
        ensures
            r == match self.data.vmas.area_at(addr as int) {
                Some(e) => Some(e.vma),
                None => None,
            },
    {
        let vseg = self.data.vmas.FindSeg(addr);
        if !vseg.IsOk() {
            return None;
        }
        Some(vseg.Value())
    }

    /// The area that holds `addr` and its interval, if there is one.
    pub fn GetVmaAndRange(&self, addr: u64) -> (r: Option<(VMA, Range)>)
        requires
            self.data.vmas.wf(),
        ensures
            r == match self.data.vmas.area_at(addr as int) {
                Some(e) => Some((e.vma, e.range)),
                None => None,
            },
    {
        let vseg = self.data.vmas.FindSeg(addr);
        if !vseg.IsOk() {
            return None;
        }
        Some((vseg.Value(), vseg.Range()))
    }

    /// Maps the page at `vaddr` to the frame at `phyAddr`: see
    /// `PageTables::MapPage`.
    pub fn MapPage(&mut self, vaddr: Addr, phyAddr: Addr, flags: PageTableFlags, pm: &mut PageMgr)
        -> (r: Result<bool, Error>)
        requires
            old(self).data.pt.wf(),
            old(pm).wf(),
        ensures
            final(self).data.pt.wf(),
            final(pm).wf(),
            final(self).same_but_pt(old(self)),
            (vaddr.0 % 4096 != 0 || !frame_ok(phyAddr.0 as int)) ==> r == Err::<bool, Error>(
                Error::SysError(SysErr::EINVAL),
            ),
            (vaddr.0 % 4096 == 0 && frame_ok(phyAddr.0 as int) && old(pm)@.is_frame(phyAddr.0 as int)
                && !old(pm)@.is_live(phyAddr.0 as int)) ==> r == Err::<bool, Error>(
                Error::SysError(SysErr::EFAULT),
            ),
            (vaddr.0 % 4096 == 0 && frame_ok(phyAddr.0 as int) && (old(pm)@.is_frame(phyAddr.0 as int)
                ==> old(pm)@.is_live(phyAddr.0 as int))) ==> r == Ok::<bool, Error>(
                old(self).data.pt.leaf(vaddr.0 as int).is_some(),
            ),
            r.is_err() ==> final(self).leaves() == old(self).leaves() && final(pm)@ == old(pm)@,
            r.is_ok() ==> (final(self).leaves(), final(pm)@) == install(
                old(self).leaves(),
                old(pm)@,
                PageEntry { vaddr: vaddr.0, paddr: phyAddr.0, flags: flag_bits(flags) },
            ),
    {
        self.data.pt.MapPage(vaddr, phyAddr, flags, pm)
    }

    /// The physical address behind `vAddr` and whether its page can be
    /// written. Fails with `EFAULT` for the null address and with
    /// `AddressNotMap` when the page has no leaf.
    pub fn VirtualToPhy(&self, vAddr: u64) -> (r: Result<(u64, bool), Error>)
        requires
            self.data.pt.wf(),
        ensures
            vAddr == 0 ==> r == Err::<(u64, bool), Error>(Error::SysError(SysErr::EFAULT)),
            vAddr != 0 ==> r == match self.data.pt.leaf(page_down(vAddr as int)) {
                Some(e) => Ok::<(u64, bool), Error>(
                    ((e.paddr + vAddr % 4096) as u64, pte_writable(e.flags)),
                ),
                None => Err::<(u64, bool), Error>(Error::AddressNotMap(vAddr)),
            },
    {
        if vAddr == 0 {
            return Err(Error::SysError(SysErr::EFAULT));
        }
        self.data.pt.VirtualToPhy(vAddr)
    }

    /// Makes the leaf of the page at `addr` a writable user leaf. Returns
    /// whether the page has a leaf; without one nothing changes.
    pub fn EnableWrite(&mut self, addr: u64) -> (found: bool)
        requires
            old(self).data.pt.wf(),
        ensures
            final(self).data.pt.wf(),
            final(self).same_but_pt(old(self)),
            found == old(self).data.pt.leaf(addr as int).is_some(),
            found ==> final(self).leaves() == put(
                old(self).leaves(),
                PageEntry { flags: user_rw_bits(), ..old(self).data.pt.leaf(addr as int).unwrap() },
            ),
            !found ==> final(self).leaves() == old(self).leaves(),
    {
        self.data.pt.SetPageFlags(Addr(addr), PageOpts::UserReadWrite().Val())
    }

    /// Maps the page at `vAddr` to the frame at `pAddr` as a writable user
    /// page. Fails as `MapPage` does.
    pub fn MapPageWrite(&mut self, vAddr: u64, pAddr: u64, pm: &mut PageMgr) -> (r: Result<
        bool,
        Error,
    >)
        requires
            old(self).data.pt.wf(),
            old(pm).wf(),
        ensures
            final(self).data.pt.wf(),
            final(pm).wf(),
            final(self).same_but_pt(old(self)),
            r.is_ok() <==> (vAddr % 4096 == 0 && frame_ok(pAddr as int) && (old(pm)@.is_frame(
                pAddr as int,
            ) ==> old(pm)@.is_live(pAddr as int))),
            r.is_err() ==> final(self).leaves() == old(self).leaves() && final(pm)@ == old(pm)@,
            r.is_ok() ==> (final(self).leaves(), final(pm)@) == install(
                old(self).leaves(),
                old(pm)@,
                PageEntry { vaddr: vAddr, paddr: pAddr, flags: user_rw_bits() },
            ),
    {
        self.data.pt.MapPage(Addr(vAddr), Addr(pAddr), PageOpts::UserReadWrite().Val(), pm)
    }

    /// Maps the page at `vAddr` to the frame at `pAddr` as a read-only user
    /// page. Fails as `MapPage` does.
    pub fn MapPageRead(&mut self, vAddr: u64, pAddr: u64, pm: &mut PageMgr) -> (r: Result<
        bool,
        Error,
    >)
        requires
            old(self).data.pt.wf(),
            old(pm).wf(),
        ensures
            final(self).data.pt.wf(),
            final(pm).wf(),
            final(self).same_but_pt(old(self)),
            r.is_ok() <==> (vAddr % 4096 == 0 && frame_ok(pAddr as int) && (old(pm)@.is_frame(
                pAddr as int,
            ) ==> old(pm)@.is_live(pAddr as int))),
            r.is_err() ==> final(self).leaves() == old(self).leaves() && final(pm)@ == old(pm)@,
            r.is_ok() ==> (final(self).leaves(), final(pm)@) == install(
                old(self).leaves(),
                old(pm)@,
                PageEntry { vaddr: vAddr, paddr: pAddr, flags: user_ro_bits() },
            ),
    {
        self.data.pt.MapPage(Addr(vAddr), Addr(pAddr), PageOpts::UserReadOnly().Val(), pm)
    }

    /// Serves a fault on the page at `pageAddr` of the area `vma`, which
    /// occupies `range`: a page without leaf gets the frame that backs it, a
    /// fresh one for anonymous memory, read-only when the area is private or
    /// may not be written. On an error nothing changes.
    pub fn InstallPage(
        &mut self,
        pm: &mut PageMgr,
        files: &MappableTable,
        vma: &VMA,
        pageAddr: u64,
        range: &Range,
    ) -> (r: Result<(), Error>)
        requires
            old(self).data.pt.wf(),
            old(pm).wf(),
            files.wf(),
        ensures
            final(self).data.pt.wf(),
            final(pm).wf(),
            final(self).same_but_pt(old(self)),
            (final(self).leaves(), final(pm)@, match r {
                Ok(_) => None,
                Err(e) => Some(e),
            }) == fault_in(old(self).leaves(), old(pm)@, *vma, *range, pageAddr, files),
            r.is_err() ==> final(self).leaves() == old(self).leaves() && final(pm)@ == old(pm)@,
    {
        if pageAddr % MemoryDef::PAGE_SIZE != 0 {
            return Err(Error::SysError(SysErr::EINVAL));
        }
        if self.data.pt.Leaf(pageAddr).is_some() {
            return Ok(());
        }
        let writeable = !vma.private && vma.effectivePerms.Write();
        let pa = match vma.mappable {
            Some(m) => {
                if pageAddr < range.start || pageAddr - range.start > u64::MAX - vma.offset {
                    return Err(Error::SysError(SysErr::EFAULT));
                }
                let fileOffset = vma.offset + (pageAddr - range.start);
                files.MapFilePage(m, fileOffset)?
            },
            None => pm.AllocPage(false)?,
        };
        let opts = if writeable {
            PageOpts::UserReadWrite()
        } else {
            PageOpts::UserReadOnly()
        };
        let _ = self.data.pt.Install(
            PageEntry { vaddr: pageAddr, paddr: pa, flags: opts.Bits() },
            pm,
        );
        Ok(())
    }

    /// Serves a fault on the page at `pageAddr`: finds the area that holds
    /// it and installs the page. Fails with `EFAULT` when no area holds the
    /// address, and as `InstallPage` does.
    pub fn InstallPageWithAddr(&mut self, pm: &mut PageMgr, files: &MappableTable, pageAddr: u64)
        -> (r: Result<(), Error>)
        requires
            old(self).data.pt.wf(),
            old(self).data.vmas.wf(),
            old(pm).wf(),
            files.wf(),
        ensures
            final(self).data.pt.wf(),
            final(pm).wf(),
            final(self).same_but_pt(old(self)),
            (final(self).leaves(), final(pm)@, match r {
                Ok(_) => None,
                Err(e) => Some(e),
            }) == match old(self).data.vmas.area_at(pageAddr as int) {
                None => (old(self).leaves(), old(pm)@, Some(Error::SysError(SysErr::EFAULT))),
                Some(a) => fault_in(old(self).leaves(), old(pm)@, a.vma, a.range, pageAddr, files),
            },
            r.is_err() ==> final(self).leaves() == old(self).leaves() && final(pm)@ == old(pm)@,
    {
        let (vma, range) = match self.GetVmaAndRange(pageAddr) {
            None => {
                return Err(Error::SysError(SysErr::EFAULT));
            },
            Some(data) => data,
        };
        self.InstallPage(pm, files, &vma, pageAddr, &range)
    }

    /// Resolves a write fault on the page at `pageAddr` of the area `vma`.
    /// A page that is writable already stays as it is. A frame that nobody
    /// else holds and that backs anonymous memory becomes writable in place.
    /// Any other page gets a fresh frame with the same bytes, mapped
    /// writable, and gives up its reference to the old one. Fails, changing
    /// nothing, with `EFAULT` when the page has no leaf or its frame is not
    /// an allocated frame of the pool, and with `ENOMEM` when a frame is
    /// needed and none is free.
    pub fn CopyOnWriteLocked(&mut self, pm: &mut PageMgr, pageAddr: u64, vma: &VMA) -> (r: Result<
        (),
        Error,
    >)
        requires
            old(self).data.pt.wf(),
            old(pm).wf(),
        ensures
            final(self).data.pt.wf(),
            final(pm).wf(),
            final(self).same_but_pt(old(self)),
            (final(self).leaves(), final(pm)@, match r {
                Ok(_) => None,
                Err(e) => Some(e),
            }) == cow_page(old(self).leaves(), old(pm)@, pageAddr, *vma),
            r.is_err() ==> final(self).leaves() == old(self).leaves() && final(pm)@ == old(pm)@,
    {
        let page = pageAddr - pageAddr % MemoryDef::PAGE_SIZE;
        let e = match self.data.pt.Leaf(page) {
            None => {
                return Err(Error::SysError(SysErr::EFAULT));
            },
            Some(e) => e,
        };
        proof {
            lemma_lookup(self.leaves(), page as int);
        }
        if crate::pageopts::IsWritable(e.flags) {
            return Ok(());
        }
        let refCount = match pm.GetRef(e.paddr) {
            Err(_) => {
                return Err(Error::SysError(SysErr::EFAULT));
            },
            Ok(c) => c,
        };
        if refCount == 1 && vma.mappable.is_none() {
            let _ = self.EnableWrite(page);
        } else {
            let fresh = pm.AllocPage(false)?;
            pm.CopyPage(e.paddr, fresh);
            let _ = self.data.pt.Install(
                PageEntry { vaddr: page, paddr: fresh, flags: PageOpts::UserReadWrite().Bits() },
                pm,
            );
        }
        Ok(())
    }

    /// Resolves a write fault on the page at `pageAddr`: see
    /// `CopyOnWriteLocked`.
    pub fn CopyOnWrite(&mut self, pm: &mut PageMgr, pageAddr: u64, vma: &VMA) -> (r: Result<
        (),
        Error,
    >)
        requires
            old(self).data.pt.wf(),
            old(pm).wf(),
        ensures
            final(self).data.pt.wf(),
            final(pm).wf(),
            final(self).same_but_pt(old(self)),
            (final(self).leaves(), final(pm)@, match r {
                Ok(_) => None,
                Err(e) => Some(e),
            }) == cow_page(old(self).leaves(), old(pm)@, pageAddr, *vma),
            r.is_err() ==> final(self).leaves() == old(self).leaves() && final(pm)@ == old(pm)@,
    {
        self.CopyOnWriteLocked(pm, pageAddr, vma)
    }

    /// Makes the pages that hold `[vAddr, vAddr + len)` accessible, for
    /// writing if `writeReq` is set: pages without leaf are faulted in, and
    /// read-only pages of areas that may be written are made writable.
    /// Returns the number of bytes from `vAddr` on that are accessible: see
    /// `fix_result`. Fails with `EFAULT` for the null address and for a
    /// range that does not end inside 64 bits; an empty range needs nothing.
    pub fn FixPermission(
        &mut self,
        pm: &mut PageMgr,
        files: &MappableTable,
        vAddr: u64,
        len: u64,
        writeReq: bool,
        allowPartial: bool,
    ) -> (r: Result<u64, Error>)
        requires
            old(self).wf(),
            old(pm).wf(),
            files.wf(),
        ensures
            final(self).wf(),
            final(pm).wf(),
            final(self).same_but_pt(old(self)),
            final(pm)@.base == old(pm)@.base,
            final(pm)@.frames() == old(pm)@.frames(),
            (final(self).leaves(), final(pm)@, r) == fix_step(
                old(self).leaves(),
                old(pm)@,
                &old(self).data.vmas,
                files,
                vAddr,
                len,
                writeReq,
                allowPartial,
            ),
            r.is_ok() ==> r.unwrap() <= len,
            (vAddr == 0 || vAddr + len > u64::MAX) ==> r == Err::<u64, Error>(
                Error::SysError(SysErr::EFAULT),
            ) && final(self).leaves() == old(self).leaves() && final(pm)@ == old(pm)@,
            (vAddr != 0 && vAddr + len <= u64::MAX) ==> {
                let p = fix_pages(
                    old(self).leaves(),
                    old(pm)@,
                    &old(self).data.vmas,
                    files,
                    page_down(vAddr as int) as u64,
                    pages_of(vAddr as int, len as int) as nat,
                    writeReq,
                );
                &&& final(self).leaves() == p.0
                &&& final(pm)@ == p.1
                &&& r == fix_result(vAddr, len, allowPartial, p.2, p.3)
                &&& pages_ok(final(self).leaves(), page_down(vAddr as int), p.2, writeReq)
                &&& same_outside(
                    final(self).leaves(),
                    old(self).leaves(),
                    page_down(vAddr as int),
                    page_down(vAddr as int) + 4096 * pages_of(vAddr as int, len as int),
                )
            },
    {
        reveal(fix_step);
        self.FixPermissionLocked(pm, files, vAddr, len, writeReq, allowPartial)
    }

    /// Makes the pages that hold `[vAddr, vAddr + len)` accessible: see
    /// `FixPermission`.
    #[verifier::rlimit(80)]
    pub fn FixPermissionLocked(
        &mut self,
        pm: &mut PageMgr,
        files: &MappableTable,
        vAddr: u64,
        len: u64,
        writeReq: bool,
        allowPartial: bool,
    ) -> (r: Result<u64, Error>)
        requires
            old(self).wf(),
            old(pm).wf(),
            files.wf(),
        ensures
            final(self).wf(),
            final(pm).wf(),
            final(self).same_but_pt(old(self)),
            final(pm)@.base == old(pm)@.base,
            final(pm)@.frames() == old(pm)@.frames(),
            r.is_ok() ==> r.unwrap() <= len,
            (vAddr == 0 || vAddr + len > u64::MAX) ==> r == Err::<u64, Error>(
                Error::SysError(SysErr::EFAULT),
            ) && final(self).leaves() == old(self).leaves() && final(pm)@ == old(pm)@,
            (vAddr != 0 && vAddr + len <= u64::MAX) ==> {
                let p = fix_pages(
                    old(self).leaves(),
                    old(pm)@,
                    &old(self).data.vmas,
                    files,
                    page_down(vAddr as int) as u64,
                    pages_of(vAddr as int, len as int) as nat,
                    writeReq,
                );
                &&& final(self).leaves() == p.0
                &&& final(pm)@ == p.1
                &&& r == fix_result(vAddr, len, allowPartial, p.2, p.3)
                &&& pages_ok(final(self).leaves(), page_down(vAddr as int), p.2, writeReq)
                &&& same_outside(
                    final(self).leaves(),
                    old(self).leaves(),
                    page_down(vAddr as int),
                    page_down(vAddr as int) + 4096 * pages_of(vAddr as int, len as int),
                )
            },
    {
        if u64::MAX - vAddr < len || vAddr == 0 {
            return Err(Error::SysError(SysErr::EFAULT));
        }
        if len == 0 {
            return Ok(0);
        }
        let first = vAddr - vAddr % MemoryDef::PAGE_SIZE;
        let last = vAddr + len - 1;
        proof {
            lemma_pages_of(vAddr as int, len as int);
        }
        let n: u64 = (last - last % MemoryDef::PAGE_SIZE - first) / MemoryDef::PAGE_SIZE + 1;
        let ghost es0 = self.leaves();
        let ghost pm0 = pm@;
        let mut k: u64 = 0;
        while k < n
            invariant
                self.wf(),
                pm.wf(),
                files.wf(),
                self.same_but_pt(old(self)),
                es0 == old(self).leaves(),
                pm0 == old(pm)@,
                pm@.base == pm0.base,
                pm@.frames() == pm0.frames(),
                vAddr != 0,
                vAddr + len <= u64::MAX,
                first == page_down(vAddr as int),
                first % 4096 == 0,
                n == pages_of(vAddr as int, len as int),
                first + 4096 * (n - 1) <= vAddr + len - 1,
                k <= n,
                (self.leaves(), pm@, k as int, FixStep::Next) == fix_pages(
                    es0,
                    pm0,
                    &self.data.vmas,
                    files,
                    first,
                    k as nat,
                    writeReq,
                ),
                pages_ok(self.leaves(), first as int, k as int, writeReq),
                same_outside(self.leaves(), es0, first as int, first + 4096 * k),
            decreases n - k,
        {
            let addr: u64 = first + MemoryDef::PAGE_SIZE * k;
            let ghost es1 = self.leaves();
            let ghost pm1 = pm@;
            proof {
                lemma_fix_page(es1, pm1, &self.data.vmas, files, addr, writeReq);
            }
            let step = self.FixPage(pm, files, addr, writeReq);
            proof {
                lemma_fix_step(
                    es0,
                    es1,
                    self.leaves(),
                    first as int,
                    k as int,
                    writeReq,
                    step == FixStep::Next,
                );
                let q = fix_pages(es0, pm0, &self.data.vmas, files, first, (k + 1) as nat, writeReq);
                assert(((k + 1) as nat - 1) as nat == k as nat);
                assert(q.0 == self.leaves() && q.1 == pm@ && q.3 == step);
                if step != FixStep::Next {
                    assert(q.2 == k);
                    lemma_fix_pages_end(
                        es0,
                        pm0,
                        &self.data.vmas,
                        files,
                        first,
                        n as nat,
                        (k + 1) as nat,
                        writeReq,
                    );
                    lemma_same_outside_wider(
                        self.leaves(),
                        es0,
                        first as int,
                        first + 4096 * (k + 1),
                        first + 4096 * n,
                    );
                }
            }
            match step {
                FixStep::Next => {},
                FixStep::Fail(e) => {
                    return Err(e);
                },
                FixStep::Stop => {
                    if allowPartial && addr > vAddr {
                        return Ok(addr - vAddr);
                    }
                    return Err(Error::SysError(SysErr::EFAULT));
                },
            }
            k = k + 1;
        }
        Ok(len)
    }

    /// Makes the page at `addr` accessible: see `fix_page`.
    pub fn FixPage(&mut self, pm: &mut PageMgr, files: &MappableTable, addr: u64, writeReq: bool)
        -> (step: FixStep)
        requires
            old(self).data.pt.wf(),
            old(self).data.vmas.wf(),
            old(pm).wf(),
            files.wf(),
            addr % 4096 == 0,
        ensures
            final(self).data.pt.wf(),
            final(pm).wf(),
            final(self).same_but_pt(old(self)),
            (final(self).leaves(), final(pm)@, step) == fix_page(
                old(self).leaves(),
                old(pm)@,
                &old(self).data.vmas,
                files,
                addr,
                writeReq,
            ),
    {
        if addr == 0 {
            return FixStep::Fail(Error::SysError(SysErr::EFAULT));
        }
        proof {
            let area = self.data.vmas.area_at(addr as int);
            if area.is_some() {
                lemma_fault_in(
                    self.leaves(),
                    pm@,
                    area.unwrap().vma,
                    area.unwrap().range,
                    addr,
                    files,
                );
            }
        }
        let leaf = match self.data.pt.Leaf(addr) {
            Some(e) => e,
            None => {
                match self.InstallPageWithAddr(pm, files, addr) {
                    Err(e) => {
                        return FixStep::Fail(e);
                    },
                    Ok(_) => {},
                }
                match self.data.pt.Leaf(addr) {
                    Some(e) => e,
                    None => {
                        return FixStep::Fail(Error::SysError(SysErr::EFAULT));
                    },
                }
            },
        };
        if !writeReq || crate::pageopts::IsWritable(leaf.flags) {
            return FixStep::Next;
        }
        let vma = match self.GetVma(addr) {
            None => {
                return FixStep::Stop;
            },
            Some(vma) => vma,
        };
        if !vma.effectivePerms.Write() {
            return FixStep::Stop;
        }
        match self.CopyOnWrite(pm, addr, &vma) {
            Err(e) => FixStep::Fail(e),
            Ok(_) => FixStep::Next,
        }
    }
}

/// Each of the first `k` pages from `first` has a leaf, which is writable
/// when write access was asked for.
pub open spec fn pages_ok(es: Seq<PageEntry>, first: int, k: int, writeReq: bool) -> bool {
    forall|j: int|
        0 <= j < k ==> {
            let l = #[trigger] lookup(es, first + 4096 * j);
            l.is_some() && (writeReq ==> pte_writable(l.unwrap().flags))
        }
}

/// Outside `[lo, hi)` the two tables translate alike.
pub open spec fn same_outside(a: Seq<PageEntry>, b: Seq<PageEntry>, lo: int, hi: int) -> bool {
    forall|va: int| !(lo <= va < hi) ==> lookup(a, va) == #[trigger] lookup(b, va)
}

/// What holds of the pages checked so far still holds after the check of
/// the next page.
pub proof fn lemma_fix_step(
    es0: Seq<PageEntry>,
    es1: Seq<PageEntry>,
    es2: Seq<PageEntry>,
    first: int,
    k: int,
    writeReq: bool,
    passed: bool,
)
    requires
        0 <= k,
        pages_ok(es1, first, k, writeReq),
        same_outside(es1, es0, first, first + 4096 * k),
        forall|va: int| va != first + 4096 * k ==> lookup(es2, va) == #[trigger] lookup(es1, va),
        passed ==> {
            let l = lookup(es2, first + 4096 * k);
            l.is_some() && (writeReq ==> pte_writable(l.unwrap().flags))
        },
    ensures
        pages_ok(es2, first, k, writeReq),
        passed ==> pages_ok(es2, first, k + 1, writeReq),
        same_outside(es2, es0, first, first + 4096 * (k + 1)),
{
    assert forall|j: int| 0 <= j < k implies {
        let l = #[trigger] lookup(es2, first + 4096 * j);
        l.is_some() && (writeReq ==> pte_writable(l.unwrap().flags))
    } by {
        assert(lookup(es2, first + 4096 * j) == lookup(es1, first + 4096 * j));
    }
    assert forall|va: int| !(first <= va < first + 4096 * (k + 1)) implies lookup(es2, va)
        == #[trigger] lookup(es0, va) by {
        assert(lookup(es2, va) == lookup(es1, va));
    }
}

/// The pages of a range that is not empty: there is one at least, the
/// last one starts inside the range, and the range ends in it.
pub proof fn lemma_pages_of(vAddr: int, len: int)
    requires
        0 <= vAddr,
        0 < len,
    ensures
        pages_of(vAddr, len) >= 1,
        page_down(vAddr) % 4096 == 0,
        0 <= page_down(vAddr) <= vAddr,
        page_down(vAddr) + 4096 * (pages_of(vAddr, len) - 1) == page_down(vAddr + len - 1),
        page_down(vAddr + len - 1) <= vAddr + len - 1,
        vAddr + len <= page_down(vAddr) + 4096 * pages_of(vAddr, len),
{
    let a = page_down(vAddr);
    let b = page_down(vAddr + len - 1);
    assert(a % 4096 == 0);
    assert(b % 4096 == 0);
    assert(a <= b);
    assert((b - a) % 4096 == 0);
    assert(4096 * ((b - a) / 4096) == b - a);
}

/// The checks of pages keep the page table and the pool well formed, and
/// every page that passed has a leaf, which is writable when write access
/// was asked for.
pub proof fn lemma_fix_pages(
    es: Seq<PageEntry>,
    pm: PmView,
    vmas: &AreaSet,
    files: &MappableTable,
    first: u64,
    n: nat,
    writeReq: bool,
)
    requires
        pt_wf(es),
        pm.wf(),
        files.wf(),
        first % 4096 == 0,
        first + 4096 * n <= u64::MAX + 4096,
    ensures
        pt_wf(fix_pages(es, pm, vmas, files, first, n, writeReq).0),
        fix_pages(es, pm, vmas, files, first, n, writeReq).1.wf(),
        fix_pages(es, pm, vmas, files, first, n, writeReq).1.base == pm.base,
        fix_pages(es, pm, vmas, files, first, n, writeReq).1.frames() == pm.frames(),
        0 <= fix_pages(es, pm, vmas, files, first, n, writeReq).2 <= n,
        pages_ok(
            fix_pages(es, pm, vmas, files, first, n, writeReq).0,
            first as int,
            fix_pages(es, pm, vmas, files, first, n, writeReq).2,
            writeReq,
        ),
        same_outside(
            fix_pages(es, pm, vmas, files, first, n, writeReq).0,
            es,
            first as int,
            first + 4096 * n,
        ),
    decreases n,
{
    if n > 0 {
        lemma_fix_pages(es, pm, vmas, files, first, (n - 1) as nat, writeReq);
        let p = fix_pages(es, pm, vmas, files, first, (n - 1) as nat, writeReq);
        if p.3 == FixStep::Next {
            lemma_fix_pages_count(es, pm, vmas, files, first, (n - 1) as nat, writeReq);
            let page = (first + 4096 * (n - 1)) as u64;
            lemma_fix_page(p.0, p.1, vmas, files, page, writeReq);
            let s = fix_page(p.0, p.1, vmas, files, page, writeReq);
            lemma_fix_step(es, p.0, s.0, first as int, n - 1, writeReq, s.2 == FixStep::Next);
        } else {
            lemma_same_outside_wider(p.0, es, first as int, first + 4096 * (n - 1), first + 4096 * n);
        }
    }
}

/// When every check has passed, every page was checked.
pub proof fn lemma_fix_pages_count(
    es: Seq<PageEntry>,
    pm: PmView,
    vmas: &AreaSet,
    files: &MappableTable,
    first: u64,
    n: nat,
    writeReq: bool,
)
    ensures
        fix_pages(es, pm, vmas, files, first, n, writeReq).3 == FixStep::Next ==> fix_pages(
            es,
            pm,
            vmas,
            files,
            first,
            n,
            writeReq,
        ).2 == n,
        0 <= fix_pages(es, pm, vmas, files, first, n, writeReq).2 <= n,
    decreases n,
{
    if n > 0 {
        lemma_fix_pages_count(es, pm, vmas, files, first, (n - 1) as nat, writeReq);
    }
}

/// Tables that translate alike outside an interval do so outside a wider
/// one.
pub proof fn lemma_same_outside_wider(
    a: Seq<PageEntry>,
    b: Seq<PageEntry>,
    lo: int,
    hi: int,
    hi2: int,
)
    requires
        same_outside(a, b, lo, hi),
        hi <= hi2,
    ensures
        same_outside(a, b, lo, hi2),
{
}

/// Once the check of a page has not passed, the pages after it change
/// nothing.
pub proof fn lemma_fix_pages_end(
    es: Seq<PageEntry>,
    pm: PmView,
    vmas: &AreaSet,
    files: &MappableTable,
    first: u64,
    n: nat,
    k: nat,
    writeReq: bool,
)
    requires
        k <= n,
        fix_pages(es, pm, vmas, files, first, k, writeReq).3 != FixStep::Next,
    ensures
        fix_pages(es, pm, vmas, files, first, n, writeReq) == fix_pages(
            es,
            pm,
            vmas,
            files,
            first,
            k,
            writeReq,
        ),
    decreases n - k,
{
    if k < n {
        lemma_fix_pages_end(es, pm, vmas, files, first, (n - 1) as nat, k, writeReq);
    }
}

} // verus!
