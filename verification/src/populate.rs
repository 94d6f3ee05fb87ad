//! Populating an area: its pages are counted as resident, and mapped at
//! once where that is asked for.
use vstd::prelude::*;
use crate::addr::frame_ok;
use crate::areaset::AreaSeg;
use crate::linux_def::{Error, IoVec, MemoryDef, SysErr};
use crate::mappable::MappableTable;
use crate::mm::{MemoryManager, MemoryManagerInternal};
use crate::pagemgr::PageMgr;
use crate::pageopts::PageOpts;
use crate::pagetable::{
    below, install_all, lemma_below, lemma_below_mono, pt_wf, release_all, within, without,
    PageEntry, PageTables,
};
use crate::range::Range;
use crate::vma::{AccessType, VMA};

verus! {

/// The flag bits of a present leaf with the rights `perms`, for user mode
/// if `user` is set.
pub open spec fn perm_bits(perms: AccessType, user: bool) -> u64 {
    (1u64 + (if perms.write {
        2u64
    } else {
        0u64
    }) + (if user {
        4u64
    } else {
        0u64
    })) as u64
}

/// The rights with which the pages of an area are mapped: its effective
/// rights, without the right to write for a private file mapping.
pub open spec fn map_perms(vma: VMA) -> AccessType {
    if vma.private && vma.mappable.is_some() {
        AccessType { write: false, ..vma.effectivePerms }
    } else {
        vma.effectivePerms
    }
}

/// The leaves that map `n` pages from `va` on to the `n` frames from `pa`
/// on.
pub open spec fn host_run(va: int, pa: int, n: int, bits: u64) -> Seq<PageEntry> {
    Seq::new(
        n as nat,
        |k: int|
            PageEntry { vaddr: (va + 4096 * k) as u64, paddr: (pa + 4096 * k) as u64, flags: bits },
    )
}

/// Each of the `n` pages of the object `m` from the offset `off` on has a
/// frame.
pub open spec fn file_pages_ok(files: &MappableTable, m: u64, off: int, n: int) -> bool {
    forall|k: int| 0 <= k < n ==> (#[trigger] files.frame_at(m, (off + 4096 * k) as u64)).is_ok()
}

/// The error of the first of the `n` pages of the object `m` from the
/// offset `off` on that has no frame, if there is such a page.
pub open spec fn file_error(files: &MappableTable, m: u64, off: int, n: int) -> Option<Error>
    decreases n,
{
    if n <= 0 {
        None
    } else {
        match file_error(files, m, off, n - 1) {
            Some(e) => Some(e),
            None => match files.frame_at(m, (off + 4096 * (n - 1)) as u64) {
                Ok(_) => None,
                Err(e) => Some(e),
            },
        }
    }
}

/// Every page has a frame exactly when no page has an error.
pub proof fn lemma_file_error(files: &MappableTable, m: u64, off: int, n: int)
    requires
        0 <= n,
    ensures
        file_error(files, m, off, n).is_none() <==> file_pages_ok(files, m, off, n),
    decreases n,
{
    if n > 0 {
        lemma_file_error(files, m, off, n - 1);
        if file_pages_ok(files, m, off, n) {
            assert(files.frame_at(m, (off + 4096 * (n - 1)) as u64).is_ok());
        }
    }
}

/// An error among the first pages is the error of all the pages.
pub proof fn lemma_file_error_stops(files: &MappableTable, m: u64, off: int, k: int, n: int)
    requires
        0 <= k <= n,
        file_error(files, m, off, k).is_some(),
    ensures
        file_error(files, m, off, n) == file_error(files, m, off, k),
    decreases n - k,
{
    if k < n {
        lemma_file_error_stops(files, m, off, k, n - 1);
    }
}

/// The leaves that map `n` pages from `va` on to the frames of the pages of
/// the object `m` from the offset `off` on.
pub open spec fn file_run(files: &MappableTable, m: u64, va: int, off: int, n: int, bits: u64)
    -> Seq<PageEntry> {
    Seq::new(
        n as nat,
        |k: int|
            PageEntry {
                vaddr: (va + 4096 * k) as u64,
                paddr: files.frame_at(m, (off + 4096 * k) as u64).unwrap(),
                flags: bits,
            },
    )
}

/// The leaves `run`, moved by `delta` and with the flag bits `bits`.
pub open spec fn moved_run(run: Seq<PageEntry>, delta: int, bits: u64) -> Seq<PageEntry> {
    Seq::new(
        run.len(),
        |k: int| PageEntry { vaddr: (run[k].vaddr + delta) as u64, paddr: run[k].paddr, flags: bits },
    )
}

/// The leaves of a run are page-aligned and their frames are whole pages.
pub open spec fn run_ok(run: Seq<PageEntry>) -> bool {
    forall|i: int|
        0 <= i < run.len() ==> (#[trigger] run[i]).vaddr % 4096 == 0 && frame_ok(run[i].paddr as int)
}

/// The result of mapping the pages of `[va, va + fr.len)` to the frames of
/// the object `m` from the offset `fr.start` on: `EINVAL` when `va` or the
/// length is not made of whole pages or a range does not end inside 64
/// bits, else the error of the first page of the object that has no frame,
/// else success.
pub open spec fn map_file_result(files: &MappableTable, m: u64, va: u64, fr: Range) -> Result<
    (),
    Error,
> {
    if !(va % 4096 == 0 && fr.len % 4096 == 0 && va + fr.len <= u64::MAX && fr.start + fr.len
        <= u64::MAX) {
        Err(Error::SysError(SysErr::EINVAL))
    } else {
        match file_error(files, m, fr.start as int, fr.len as int / 4096) {
            Some(e) => Err(e),
            None => Ok(()),
        }
    }
}

impl PageTables {
    /// Installs the leaves of `run`, in order.
    pub fn MapRun(&mut self, run: &Vec<PageEntry>, pm: &mut PageMgr)
        requires
            old(self).wf(),
            old(pm).wf(),
            run_ok(run@),
        ensures
            final(self).wf(),
            final(pm).wf(),
            final(self).root == old(self).root,
            final(self).tlb_step(old(self)),
            (final(self).entries@, final(pm)@) == install_all(old(self).entries@, old(pm)@, run@),
    {
        let n = run.len();
        let mut i: usize = 0;
        while i < n
            invariant
                self.wf(),
                pm.wf(),
                run_ok(run@),
                self.tlb_step(old(self)),
                self.root == old(self).root,
                n == run@.len(),
                i <= n,
                (self.entries@, pm@) == install_all(
                    old(self).entries@,
                    old(pm)@,
                    run@.take(i as int),
                ),
            decreases n - i,
        {
            proof {
                assert(run@.take(i + 1).drop_last() =~= run@.take(i as int));
            }
            let _ = self.Install(run[i], pm);
            i = i + 1;
        }
        proof {
            assert(run@.take(n as int) =~= run@);
        }
    }

    /// Maps the pages of `[va, va + iov.len)` to the memory at `iov.start`,
    /// page by page, with the rights `perms`. Fails with `EINVAL`, changing
    /// nothing, when an address or the length is not made of whole pages or
    /// a range does not end below the top of the address space.
    pub fn MapHost(
        &mut self,
        va: u64,
        iov: &IoVec,
        perms: &AccessType,
        user: bool,
        pm: &mut PageMgr,
    ) -> (r: Result<(), Error>)
        requires
            old(self).wf(),
            old(pm).wf(),
        ensures
            final(self).wf(),
            final(pm).wf(),
            final(self).root == old(self).root,
            final(self).tlb_step(old(self)),
            r.is_ok() <==> (va % 4096 == 0 && iov.start % 4096 == 0 && iov.len % 4096 == 0 && va
                + iov.len <= u64::MAX && iov.start + iov.len <= u64::MAX),
            r.is_err() ==> r == Err::<(), Error>(Error::SysError(SysErr::EINVAL)) && final(self).entries@ == old(self).entries@ && final(pm)@ == old(pm)@,
            r.is_ok() ==> (final(self).entries@, final(pm)@) == install_all(
                old(self).entries@,
                old(pm)@,
                host_run(va as int, iov.start as int, iov.len as int / 4096, perm_bits(*perms, user)),
            ),
    {
        let len = iov.len as u64;
        if va % MemoryDef::PAGE_SIZE != 0 || iov.start % MemoryDef::PAGE_SIZE != 0 || len
            % MemoryDef::PAGE_SIZE != 0 || len > u64::MAX - va || len > u64::MAX - iov.start {
            return Err(Error::SysError(SysErr::EINVAL));
        }
        let bits = PageOpts::New(user, perms.Write()).Bits();
        let n = len / MemoryDef::PAGE_SIZE;
        let ghost whole = host_run(va as int, iov.start as int, n as int, bits);
        let mut run: Vec<PageEntry> = Vec::new();
        let mut k: u64 = 0;
        assert(run@ =~= whole.take(0));
        while k < n
            invariant
                k <= n,
                n == len / 4096,
                len % 4096 == 0,
                va % 4096 == 0,
                iov.start % 4096 == 0,
                va + len <= u64::MAX,
                iov.start + len <= u64::MAX,
                whole == host_run(va as int, iov.start as int, n as int, bits),
                run@ == whole.take(k as int),
            decreases n - k,
        {
            run.push(
                PageEntry {
                    vaddr: va + MemoryDef::PAGE_SIZE * k,
                    paddr: iov.start + MemoryDef::PAGE_SIZE * k,
                    flags: bits,
                },
            );
            assert(run@ =~= whole.take(k + 1));
            k = k + 1;
        }
        proof {
            assert(whole.take(n as int) =~= whole);
        }
        self.MapRun(&run, pm);
        Ok(())
    }

    /// Maps the pages of `[va, va + fr.len)` to the frames of the object `m`
    /// from the offset `fr.start` on, with the rights `perms`. Fails,
    /// changing nothing: with `EINVAL` when `va` or the length is not made
    /// of whole pages or a range does not end inside 64 bits, and with the
    /// error of the first page of the object that has no frame.
    pub fn MapFile(
        &mut self,
        va: u64,
        files: &MappableTable,
        m: u64,
        fr: &Range,
        perms: &AccessType,
        precommit: bool,
        pm: &mut PageMgr,
    ) -> (r: Result<(), Error>)
        requires
            old(self).wf(),
            old(pm).wf(),
            files.wf(),
        ensures
            final(self).wf(),
            final(pm).wf(),
            final(self).root == old(self).root,
            final(self).tlb_step(old(self)),
            r.is_ok() <==> (va % 4096 == 0 && fr.len % 4096 == 0 && va + fr.len <= u64::MAX
                && fr.start + fr.len <= u64::MAX && file_pages_ok(
                files,
                m,
                fr.start as int,
                fr.len as int / 4096,
            )),
            r.is_err() ==> final(self).entries@ == old(self).entries@ && final(pm)@ == old(pm)@,
            r == map_file_result(files, m, va, *fr),
            r.is_ok() ==> (final(self).entries@, final(pm)@) == install_all(
                old(self).entries@,
                old(pm)@,
                file_run(
                    files,
                    m,
                    va as int,
                    fr.start as int,
                    fr.len as int / 4096,
                    perm_bits(*perms, true),
                ),
            ),
    {
        if va % MemoryDef::PAGE_SIZE != 0 || fr.len % MemoryDef::PAGE_SIZE != 0 || fr.len
            > u64::MAX - va || fr.len > u64::MAX - fr.start {
            return Err(Error::SysError(SysErr::EINVAL));
        }
        let bits = PageOpts::New(true, perms.Write()).Bits();
        let n = fr.len / MemoryDef::PAGE_SIZE;
        let ghost whole = file_run(files, m, va as int, fr.start as int, n as int, bits);
        let mut run: Vec<PageEntry> = Vec::new();
        let mut k: u64 = 0;
        assert(run@ =~= whole.take(0));
        while k < n
            invariant
                files.wf(),
                k <= n,
                n == fr.len / 4096,
                fr.len % 4096 == 0,
                va % 4096 == 0,
                va + fr.len <= u64::MAX,
                fr.start + fr.len <= u64::MAX,
                self.entries@ == old(self).entries@,
                pm@ == old(pm)@,
                self.wf(),
                pm.wf(),
                self.root == old(self).root,
                whole == file_run(files, m, va as int, fr.start as int, n as int, bits),
                file_pages_ok(files, m, fr.start as int, k as int),
                run_ok(run@),
                run@ == whole.take(k as int),
            decreases n - k,
        {
            proof {
                lemma_file_error(files, m, fr.start as int, k as int);
            }
            let pa = match files.MapFilePage(m, fr.start + MemoryDef::PAGE_SIZE * k) {
                Err(e) => {
                    proof {
                        lemma_file_error_stops(files, m, fr.start as int, k + 1, n as int);
                        lemma_file_error(files, m, fr.start as int, n as int);
                    }
                    return Err(e);
                },
                Ok(pa) => pa,
            };
            run.push(PageEntry { vaddr: va + MemoryDef::PAGE_SIZE * k, paddr: pa, flags: bits });
            assert(run@ =~= whole.take(k + 1));
            k = k + 1;
        }
        proof {
            assert(whole.take(n as int) =~= whole);
            lemma_file_error(files, m, fr.start as int, n as int);
        }
        self.MapRun(&run, pm);
        Ok(())
    }

    /// Maps the pages of `[va, va + fr.len)` anew to the frames of the
    /// object `m`: as `MapFile`, which replaces what copy-on-write had put in
    /// their place.
    pub fn ResetFileMapping(
        &mut self,
        va: u64,
        files: &MappableTable,
        m: u64,
        fr: &Range,
        perms: &AccessType,
        pm: &mut PageMgr,
    ) -> (r: Result<(), Error>)
        requires
            old(self).wf(),
            old(pm).wf(),
            files.wf(),
        ensures
            final(self).wf(),
            final(pm).wf(),
            final(self).root == old(self).root,
            final(self).tlb_step(old(self)),
            r.is_ok() <==> (va % 4096 == 0 && fr.len % 4096 == 0 && va + fr.len <= u64::MAX
                && fr.start + fr.len <= u64::MAX && file_pages_ok(
                files,
                m,
                fr.start as int,
                fr.len as int / 4096,
            )),
            r == map_file_result(files, m, va, *fr),
            r.is_err() ==> final(self).entries@ == old(self).entries@ && final(pm)@ == old(pm)@,
            r.is_ok() ==> (final(self).entries@, final(pm)@) == install_all(
                old(self).entries@,
                old(pm)@,
                file_run(
                    files,
                    m,
                    va as int,
                    fr.start as int,
                    fr.len as int / 4096,
                    perm_bits(*perms, true),
                ),
            ),
    {
        self.MapFile(va, files, m, fr, perms, true, pm)
    }

    /// Moves the leaves of the pages from `oldStart` on to the pages of
    /// `ar`, with the rights `perms`: each leaf is installed at its new
    /// place, and then the old pages are unmapped. Fails with `EINVAL`,
    /// changing nothing, when a range does not end inside 64 bits or a start
    /// is not page-aligned.
    pub fn RemapAna(
        &mut self,
        ar: &Range,
        oldStart: u64,
        perms: &AccessType,
        user: bool,
        pm: &mut PageMgr,
    ) -> (r: Result<(), Error>)
        requires
            old(self).wf(),
            old(pm).wf(),
        ensures
            final(self).wf(),
            final(pm).wf(),
            final(self).root == old(self).root,
            final(self).tlb_step(old(self)),
            r.is_ok() <==> (ar.start % 4096 == 0 && oldStart % 4096 == 0 && ar.start + ar.len
                <= u64::MAX && oldStart + ar.len <= u64::MAX),
            r.is_err() ==> r == Err::<(), Error>(Error::SysError(SysErr::EINVAL)) && final(self).entries@ == old(self).entries@ && final(pm)@ == old(pm)@,
            r.is_ok() ==> {
                let run = moved_run(
                    within(old(self).entries@, oldStart as int, oldStart + ar.len),
                    ar.start - oldStart,
                    perm_bits(*perms, user),
                );
                let p = install_all(old(self).entries@, old(pm)@, run);
                &&& final(self).entries@ == without(p.0, oldStart as int, oldStart + ar.len)
                &&& final(pm)@ == release_all(p.1, within(p.0, oldStart as int, oldStart + ar.len))
            },
    {
        if ar.start % MemoryDef::PAGE_SIZE != 0 || oldStart % MemoryDef::PAGE_SIZE != 0 || ar.len
            > u64::MAX - ar.start || ar.len > u64::MAX - oldStart {
            return Err(Error::SysError(SysErr::EINVAL));
        }
        let bits = PageOpts::New(user, perms.Write()).Bits();
        let i = self.Lower(oldStart);
        let j = self.Lower(oldStart + ar.len);
        let ghost es = self.entries@;
        let ghost src = within(es, oldStart as int, oldStart + ar.len);
        let ghost whole = moved_run(src, ar.start - oldStart, bits);
        proof {
            lemma_below(es, oldStart as int);
            lemma_below(es, oldStart + ar.len);
            lemma_below_mono(es, oldStart as int, oldStart + ar.len);
        }
        let mut run: Vec<PageEntry> = Vec::new();
        let mut k: usize = i;
        assert(run@ =~= whole.take(0));
        while k < j
            invariant
                i <= k <= j,
                j <= es.len(),
                es == self.entries@,
                pt_wf(es),
                i == below(es, oldStart as int),
                j == below(es, oldStart + ar.len),
                src == es.subrange(i as int, j as int),
                whole == moved_run(src, ar.start - oldStart, bits),
                ar.start % 4096 == 0,
                oldStart % 4096 == 0,
                ar.start + ar.len <= u64::MAX,
                oldStart + ar.len <= u64::MAX,
                forall|a: int| i <= a < j ==> oldStart <= (#[trigger] es[a]).vaddr < oldStart + ar.len,
                run_ok(run@),
                run@ == whole.take(k - i),
            decreases j - k,
        {
            let e = self.entries[k];
            assert(e == src[k - i]);
            assert(oldStart <= e.vaddr < oldStart + ar.len);
            run.push(PageEntry { vaddr: e.vaddr - oldStart + ar.start, paddr: e.paddr, flags: bits });
            assert(run@ =~= whole.take(k - i + 1));
            k = k + 1;
        }
        proof {
            assert(whole.take(j - i) =~= whole);
        }
        self.MapRun(&run, pm);
        let _ = self.MUnmap(oldStart, ar.len, pm);
        Ok(())
    }

    /// Moves a file mapping: the pages of `oldar` are unmapped, and the
    /// pages of `[va, va + fr.len)` are mapped to the frames of the object
    /// `m` as `MapFile` does. Fails, changing nothing, as `MapFile` does and
    /// with `EINVAL` when `oldar` does not end inside 64 bits.
    pub fn RemapFile(
        &mut self,
        va: u64,
        files: &MappableTable,
        m: u64,
        fr: &Range,
        oldar: &Range,
        perms: &AccessType,
        precommit: bool,
        pm: &mut PageMgr,
    ) -> (r: Result<(), Error>)
        requires
            old(self).wf(),
            old(pm).wf(),
            files.wf(),
        ensures
            final(self).wf(),
            final(pm).wf(),
            final(self).root == old(self).root,
            final(self).tlb_step(old(self)),
            r.is_ok() <==> (oldar.wf() && va % 4096 == 0 && fr.len % 4096 == 0 && va + fr.len
                <= u64::MAX && fr.start + fr.len <= u64::MAX && file_pages_ok(
                files,
                m,
                fr.start as int,
                fr.len as int / 4096,
            )),
            r == (if !oldar.wf() {
                Err::<(), Error>(Error::SysError(SysErr::EINVAL))
            } else {
                map_file_result(files, m, va, *fr)
            }),
            r.is_err() ==> final(self).entries@ == old(self).entries@ && final(pm)@ == old(pm)@,
            r.is_ok() ==> {
                let run = file_run(
                    files,
                    m,
                    va as int,
                    fr.start as int,
                    fr.len as int / 4096,
                    perm_bits(*perms, true),
                );
                let p = install_all(old(self).entries@, old(pm)@, run);
                &&& final(self).entries@ == without(p.0, oldar.start as int, oldar.end())
                &&& final(pm)@ == release_all(p.1, within(p.0, oldar.start as int, oldar.end()))
            },
    {
        if oldar.len > u64::MAX - oldar.start {
            return Err(Error::SysError(SysErr::EINVAL));
        }
        self.MapFile(va, files, m, fr, perms, precommit, pm)?;
        let _ = self.MUnmap(oldar.start, oldar.len, pm);
        Ok(())
    }
}

/// The offset in its backing object of the first byte of `ar`, which lies
/// in the area at `seg`.
pub open spec fn file_offset(seg: AreaSeg, ar: Range) -> int {
    seg.value.offset + (ar.start - seg.range.start)
}

/// The part `ar` of the area at `seg` can be mapped from its backing
/// object: it lies in the area, and its offsets fit in 64 bits.
pub open spec fn file_part_ok(seg: AreaSeg, ar: Range) -> bool {
    seg.range.is_superset_of(ar) && file_offset(seg, ar) + ar.len <= u64::MAX
}

impl MemoryManager {
    /// Marks the pages of the part `ar` of the area at `vmaSeg` resident.
    ///
    /// Anonymous memory is counted as resident, and its frames come with
    /// the faults; but for the page of the system calls (`vdso`), whose
    /// pages are mapped at once to the memory at the area's offset and are
    /// not counted. A file mapping is counted as resident, and its pages are
    /// mapped at once if `precommit` is set and the area is shorter than
    /// 2 MiB; a private file mapping is mapped read-only.
    ///
    /// Fails, changing nothing: with `ENOMEM` when the resident size cannot
    /// grow by the length of `ar`; with `EINVAL` when `ar` is no part of a
    /// file mapping's area or its offsets do not fit, or as `MapHost` says;
    /// and as `MapFile` says.
    pub fn PopulateVMA(
        &mut self,
        pm: &mut PageMgr,
        files: &MappableTable,
        vmaSeg: &AreaSeg,
        ar: &Range,
        precommit: bool,
        vdso: bool,
    ) -> (r: Result<(), Error>)
        requires
            old(self).wf(),
            old(pm).wf(),
            files.wf(),
            vmaSeg.range.wf(),
            ar.wf(),
        ensures
            final(self).wf(),
            final(pm).wf(),
            final(self).uid == old(self).uid,
            final(self).data == (MemoryManagerInternal {
                pt: final(self).data.pt,
                curRSS: final(self).data.curRSS,
                maxRSS: final(self).data.maxRSS,
                ..old(self).data
            }),
            final(self).data.pt.root == old(self).data.pt.root,
            final(self).data.pt.tlb_step(&old(self).data.pt),
            r.is_err() ==> final(self).leaves() == old(self).leaves() && final(pm)@ == old(pm)@
                && final(self).data.curRSS == old(self).data.curRSS && final(self).data.maxRSS
                == old(self).data.maxRSS,
            ({
                let vma = vmaSeg.value;
                let counted = !(vma.mappable.is_none() && vdso);
                let mapped = if vma.mappable.is_none() {
                    vdso
                } else {
                    precommit && vmaSeg.range.len < 0x200000
                };
                let run = match vma.mappable {
                    None => host_run(
                        ar.start as int,
                        vma.offset as int,
                        ar.len as int / 4096,
                        perm_bits(map_perms(vma), true),
                    ),
                    Some(m) => file_run(
                        files,
                        m,
                        ar.start as int,
                        file_offset(*vmaSeg, *ar),
                        ar.len as int / 4096,
                        perm_bits(map_perms(vma), true),
                    ),
                };
                &&& r == populate_result(
                    old(self).data.curRSS,
                    files,
                    *vmaSeg,
                    *ar,
                    precommit,
                    vdso,
                )
                &&& r.is_ok() ==> {
                    &&& (final(self).leaves(), final(pm)@) == (if mapped {
                        install_all(old(self).leaves(), old(pm)@, run)
                    } else {
                        (old(self).leaves(), old(pm)@)
                    })
                    &&& final(self).data.curRSS == old(self).data.curRSS + (if counted {
                        ar.len as int
                    } else {
                        0
                    })
                    &&& final(self).data.maxRSS == if final(self).data.curRSS > old(self).data.maxRSS {
                        final(self).data.curRSS
                    } else {
                        old(self).data.maxRSS
                    }
                }
            }),
    {
        let vma = vmaSeg.Value();
        let mut perms = vma.effectivePerms;
        if vma.private && vma.mappable.is_some() {
            perms.ClearWrite();
        }
        let segAr = vmaSeg.Range();
        match vma.mappable {
            None => {
                if !vdso {
                    if ar.Len() > u64::MAX - self.data.curRSS {
                        return Err(Error::SysError(SysErr::ENOMEM));
                    }
                    self.data.AddRssLock(ar);
                } else {
                    if ar.Len() > usize::MAX as u64 {
                        return Err(Error::SysError(SysErr::EINVAL));
                    }
                    self.data.pt.MapHost(
                        ar.Start(),
                        &IoVec::NewFromAddr(vma.offset, ar.Len() as usize),
                        &perms,
                        true,
                        pm,
                    )?;
                }
            },
            Some(mappable) => {
                if ar.Len() > u64::MAX - self.data.curRSS {
                    return Err(Error::SysError(SysErr::ENOMEM));
                }
                if !segAr.IsSupersetOf(ar) || ar.Start() - segAr.Start() > u64::MAX - vma.offset
                    || ar.Len() > u64::MAX - (vma.offset + (ar.Start() - segAr.Start())) {
                    return Err(Error::SysError(SysErr::EINVAL));
                }
                if precommit && segAr.Len() < 0x200000 {
                    self.data.pt.MapFile(
                        ar.Start(),
                        files,
                        mappable,
                        &Range::New(vma.offset + (ar.Start() - segAr.Start()), ar.Len()),
                        &perms,
                        precommit,
                        pm,
                    )?;
                }
                self.data.AddRssLock(ar);
            },
        }
        Ok(())
    }

    /// Marks the pages of the part `ar` of the area at `vmaSeg` resident
    /// after the area was moved there from `oldar`: the leaves of anonymous
    /// memory move along, and a file mapping is unmapped at the old place,
    /// mapped at the new one, and counted as resident.
    ///
    /// Fails, changing nothing: with `ENOMEM` when the resident size cannot
    /// grow by the length of `ar`; with `EINVAL` when `ar` is no part of a
    /// file mapping's area or its offsets do not fit; and as `RemapAna` and
    /// `RemapFile` say.
    pub fn PopulateVMARemap(
        &mut self,
        pm: &mut PageMgr,
        files: &MappableTable,
        vmaSeg: &AreaSeg,
        ar: &Range,
        oldar: &Range,
        precommit: bool,
    ) -> (r: Result<(), Error>)
        requires
            old(self).wf(),
            old(pm).wf(),
            files.wf(),
            vmaSeg.range.wf(),
            ar.wf(),
        ensures
            final(self).wf(),
            final(pm).wf(),
            final(self).uid == old(self).uid,
            final(self).data == (MemoryManagerInternal {
                pt: final(self).data.pt,
                curRSS: final(self).data.curRSS,
                maxRSS: final(self).data.maxRSS,
                ..old(self).data
            }),
            final(self).data.pt.root == old(self).data.pt.root,
            final(self).data.pt.tlb_step(&old(self).data.pt),
            r.is_err() ==> final(self).leaves() == old(self).leaves() && final(pm)@ == old(pm)@
                && final(self).data.curRSS == old(self).data.curRSS && final(self).data.maxRSS
                == old(self).data.maxRSS,
            vmaSeg.value.mappable.is_none() ==> {
                &&& r.is_ok() <==> (ar.start % 4096 == 0 && oldar.start % 4096 == 0 && oldar.start
                    + ar.len <= u64::MAX)
                &&& r.is_err() ==> r == Err::<(), Error>(Error::SysError(SysErr::EINVAL))
                &&& r.is_ok() ==> {
                    let run = moved_run(
                        within(old(self).leaves(), oldar.start as int, oldar.start + ar.len),
                        ar.start - oldar.start,
                        perm_bits(map_perms(vmaSeg.value), true),
                    );
                    let p = install_all(old(self).leaves(), old(pm)@, run);
                    &&& final(self).leaves() == without(
                        p.0,
                        oldar.start as int,
                        oldar.start + ar.len,
                    )
                    &&& final(pm)@ == release_all(
                        p.1,
                        within(p.0, oldar.start as int, oldar.start + ar.len),
                    )
                    &&& final(self).data.curRSS == old(self).data.curRSS
                    &&& final(self).data.maxRSS == old(self).data.maxRSS
                }
            },
            vmaSeg.value.mappable.is_some() ==> {
                let m = vmaSeg.value.mappable.unwrap();
                &&& r.is_ok() <==> (old(self).data.curRSS + ar.len <= u64::MAX && file_part_ok(
                    *vmaSeg,
                    *ar,
                ) && oldar.wf() && ar.start % 4096 == 0 && ar.len % 4096 == 0 && file_pages_ok(
                    files,
                    m,
                    file_offset(*vmaSeg, *ar),
                    ar.len as int / 4096,
                ))
                &&& r == (if old(self).data.curRSS + ar.len > u64::MAX {
                    Err::<(), Error>(Error::SysError(SysErr::ENOMEM))
                } else if !file_part_ok(*vmaSeg, *ar) || !oldar.wf() {
                    Err::<(), Error>(Error::SysError(SysErr::EINVAL))
                } else {
                    map_file_result(
                        files,
                        m,
                        ar.start,
                        Range { start: file_offset(*vmaSeg, *ar) as u64, len: ar.len },
                    )
                })
                &&& r.is_ok() ==> {
                    let run = file_run(
                        files,
                        m,
                        ar.start as int,
                        file_offset(*vmaSeg, *ar),
                        ar.len as int / 4096,
                        perm_bits(map_perms(vmaSeg.value), true),
                    );
                    let p = install_all(old(self).leaves(), old(pm)@, run);
                    &&& final(self).leaves() == without(p.0, oldar.start as int, oldar.end())
                    &&& final(pm)@ == release_all(
                        p.1,
                        within(p.0, oldar.start as int, oldar.end()),
                    )
                    &&& final(self).data.curRSS == old(self).data.curRSS + ar.len
                    &&& final(self).data.maxRSS == if final(self).data.curRSS > old(self).data.maxRSS {
                        final(self).data.curRSS
                    } else {
                        old(self).data.maxRSS
                    }
                }
            },
    {
        let segAr = vmaSeg.Range();
        let vma = vmaSeg.Value();
        let mut perms = vma.effectivePerms;
        if vma.private && vma.mappable.is_some() {
            perms.ClearWrite();
        }
        match vma.mappable {
            None => {
                self.data.pt.RemapAna(ar, oldar.Start(), &perms, true, pm)?;
            },
            Some(mappable) => {
                if ar.Len() > u64::MAX - self.data.curRSS {
                    return Err(Error::SysError(SysErr::ENOMEM));
                }
                if !segAr.IsSupersetOf(ar) || ar.Start() - segAr.Start() > u64::MAX - vma.offset
                    || ar.Len() > u64::MAX - (vma.offset + (ar.Start() - segAr.Start())) {
                    return Err(Error::SysError(SysErr::EINVAL));
                }
                self.data.pt.RemapFile(
                    ar.Start(),
                    files,
                    mappable,
                    &Range::New(vma.offset + (ar.Start() - segAr.Start()), ar.Len()),
                    oldar,
                    &perms,
                    precommit,
                    pm,
                )?;
                self.data.AddRssLock(ar);
            },
        }
        Ok(())
    }

    /// Maps the pages of `ar` anew to the frames of the object behind the
    /// file mapping that holds `ar`, with the area's rights; what
    /// copy-on-write had put in their place goes. Fails, changing nothing:
    /// with `EINVAL` when no area holds the start of `ar`, the area is no
    /// file mapping, or `ar` is no part of it; and as `MapFile` says.
    pub fn RetsetFileMapping(
        &mut self,
        pm: &mut PageMgr,
        files: &MappableTable,
        ar: &Range,
        _invalidatePrivate: bool,
    ) -> (r: Result<(), Error>)
        requires
            old(self).wf(),
            old(pm).wf(),
            files.wf(),
            ar.wf(),
        ensures
            final(self).wf(),
            final(pm).wf(),
            final(self).same_but_pt(old(self)),
            r.is_err() ==> final(self).leaves() == old(self).leaves() && final(pm)@ == old(pm)@,
            ({
                let area = old(self).data.vmas.area_at(ar.start as int);
                let valid = area.is_some() && area.unwrap().vma.mappable.is_some()
                    && area.unwrap().range.is_superset_of(*ar);
                &&& !valid ==> r == Err::<(), Error>(Error::SysError(SysErr::EINVAL))
                &&& valid ==> {
                    let e = area.unwrap();
                    let m = e.vma.mappable.unwrap();
                    let off = e.vma.offset + (ar.start - e.range.start);
                    &&& r == map_file_result(
                        files,
                        m,
                        ar.start,
                        Range { start: off as u64, len: ar.len },
                    )
                    &&& r.is_ok() ==> (final(self).leaves(), final(pm)@) == install_all(
                        old(self).leaves(),
                        old(pm)@,
                        file_run(
                            files,
                            m,
                            ar.start as int,
                            off,
                            ar.len as int / 4096,
                            perm_bits(e.vma.realPerms, true),
                        ),
                    )
                }
            }),
    {
        let vseg = self.data.vmas.FindSeg(ar.Start());
        if !vseg.IsOk() || vseg.Value().mappable.is_none() || !vseg.Range().IsSupersetOf(ar) {
            return Err(Error::SysError(SysErr::EINVAL));
        }
        let vr = vseg.Range();
        let offset = ar.Start() - vr.Start();
        let vma = vseg.Value();
        let mappable = vma.mappable.unwrap();
        proof {
            let k = vseg.index as int;
            assert(self.data.vmas.segs@[k].ok());
        }
        self.data.pt.ResetFileMapping(
            ar.Start(),
            files,
            mappable,
            &Range::New(vma.offset + offset, ar.Len()),
            &vma.realPerms,
            pm,
        )
    }
}

/// The result of populating the part `ar` of the area at `seg`.
pub open spec fn populate_result(
    curRSS: u64,
    files: &MappableTable,
    seg: AreaSeg,
    ar: Range,
    precommit: bool,
    vdso: bool,
) -> Result<(), Error> {
    let vma = seg.value;
    match vma.mappable {
        None => if !vdso {
            if curRSS + ar.len > u64::MAX {
                Err(Error::SysError(SysErr::ENOMEM))
            } else {
                Ok(())
            }
        } else if ar.len <= usize::MAX && ar.start % 4096 == 0 && vma.offset % 4096 == 0 && ar.len
            % 4096 == 0 && vma.offset + ar.len <= u64::MAX {
            Ok(())
        } else {
            Err(Error::SysError(SysErr::EINVAL))
        },
        Some(m) => if curRSS + ar.len > u64::MAX {
            Err(Error::SysError(SysErr::ENOMEM))
        } else if !file_part_ok(seg, ar) {
            Err(Error::SysError(SysErr::EINVAL))
        } else if !(precommit && seg.range.len < 0x200000) {
            Ok(())
        } else {
            map_file_result(
                files,
                m,
                ar.start,
                Range { start: file_offset(seg, ar) as u64, len: ar.len },
            )
        },
    }
}

} // verus!
