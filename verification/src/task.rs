//! A task: the unit that runs in an address space, and its view of guest
//! memory.
use vstd::prelude::*;
use vstd::utf8::encode_utf8;
use crate::addr::page_down;
use crate::areaset::AreaSet;
use crate::cstring::{text_of, CString};
use crate::linux_def::{Error, IoVec, SysErr};
use crate::mappable::MappableTable;
use crate::mm::MemoryManager;
use crate::pagemgr::{PageMgr, PmView};
use crate::pagetable::PageEntry;
use crate::plain::{decode_all, encode_all, Plain};
use crate::strings::{string_step, texts, vector_step};
use crate::translate::v2p_step;
use crate::usermem::{check_step, error_of, read_step, write_step};

verus! {

/// A sequence of runs of memory.
pub struct BlockSeq {
    pub data: Vec<IoVec>,
}

impl View for BlockSeq {
    type V = Seq<IoVec>;

    open spec fn view(&self) -> Seq<IoVec> {
        self.data@
    }
}

impl BlockSeq {
    /// The runs of `slice`, in order.
    pub fn NewFromSlice(slice: &[IoVec]) -> (r: Self)
        ensures
            r@ == slice@,
    {
        let n = slice.len();
        let mut data: Vec<IoVec> = Vec::new();
        let mut i: usize = 0;
        while i < n
            invariant
                n == slice@.len(),
                i <= n,
                data@ == slice@.take(i as int),
            decreases n - i,
        {
            data.push(slice[i]);
            assert(slice@.take(i + 1) =~= slice@.take(i as int).push(slice@[i as int]));
            i = i + 1;
        }
        assert(slice@.take(n as int) =~= slice@);
        BlockSeq { data }
    }

    pub fn IsEmpty(&self) -> (r: bool)
        ensures
            r == (self@.len() == 0),
    {
        self.data.len() == 0
    }

    /// The first run.
    pub fn Head(&self) -> (r: IoVec)
        requires
            self@.len() > 0,
        ensures
            r == self@[0],
    {
        self.data[0]
    }

    /// The runs after the first.
    pub fn Tail(&self) -> (r: Self)
        requires
            self@.len() > 0,
        ensures
            r@ == self@.skip(1),
    {
        let n = self.data.len();
        let mut data: Vec<IoVec> = Vec::new();
        let mut i: usize = 1;
        assert(data@ =~= self@.subrange(1, 1));
        while i < n
            invariant
                n == self@.len(),
                1 <= i <= n,
                data@ == self@.subrange(1, i as int),
            decreases n - i,
        {
            data.push(self.data[i]);
            assert(self@.subrange(1, i + 1) =~= self@.subrange(1, i as int).push(self@[i as int]));
            i = i + 1;
        }
        assert(self@.subrange(1, n as int) =~= self@.skip(1));
        BlockSeq { data }
    }
}

/// What checking the runs `iovs` one after the other does: the page table
/// and the pool after the pages of the runs were made accessible, up to the
/// first run that is not, and the error of that run if there is one.
pub open spec fn check_all(
    es: Seq<PageEntry>,
    pm: PmView,
    vmas: &AreaSet,
    files: &MappableTable,
    iovs: Seq<IoVec>,
    writeReq: bool,
) -> (Seq<PageEntry>, PmView, Option<Error>)
    decreases iovs.len(),
{
    if iovs.len() == 0 {
        (es, pm, None)
    } else {
        let p = check_all(es, pm, vmas, files, iovs.drop_last(), writeReq);
        if p.2.is_some() {
            p
        } else {
            let s = check_step(
                p.0,
                p.1,
                vmas,
                files,
                iovs.last().start,
                iovs.last().len as u64,
                writeReq,
                false,
            );
            (s.0, s.1, error_of(s.2))
        }
    }
}

/// Once a run is not accessible, the runs after it change nothing.
pub proof fn lemma_check_all_stops(
    es: Seq<PageEntry>,
    pm: PmView,
    vmas: &AreaSet,
    files: &MappableTable,
    iovs: Seq<IoVec>,
    n: int,
    writeReq: bool,
)
    requires
        0 <= n <= iovs.len(),
        check_all(es, pm, vmas, files, iovs.take(n), writeReq).2.is_some(),
    ensures
        check_all(es, pm, vmas, files, iovs, writeReq) == check_all(
            es,
            pm,
            vmas,
            files,
            iovs.take(n),
            writeReq,
        ),
    decreases iovs.len() - n,
{
    if n == iovs.len() {
        assert(iovs.take(n) =~= iovs);
    } else {
        assert(iovs.take(n + 1).drop_last() =~= iovs.take(n));
        lemma_check_all_stops(es, pm, vmas, files, iovs, n + 1, writeReq);
    }
}

/// What translating the runs `iovs` one after the other does and gives:
/// the page table and the pool, the physical runs behind the runs that
/// could be translated, and the error of the first run that could not.
pub open spec fn v2p_all(
    es: Seq<PageEntry>,
    pm: PmView,
    vmas: &AreaSet,
    files: &MappableTable,
    iovs: Seq<IoVec>,
    writable: bool,
) -> (Seq<PageEntry>, PmView, Seq<IoVec>, Option<Error>)
    decreases iovs.len(),
{
    if iovs.len() == 0 {
        (es, pm, Seq::empty(), None)
    } else {
        let p = v2p_all(es, pm, vmas, files, iovs.drop_last(), writable);
        if p.3.is_some() {
            p
        } else {
            let s = v2p_step(
                p.0,
                p.1,
                vmas,
                files,
                iovs.last().start,
                iovs.last().len as u64,
                writable,
            );
            match s.2 {
                Ok(runs) => (s.0, s.1, p.2 + runs, None),
                Err(e) => (s.0, s.1, p.2, Some(e)),
            }
        }
    }
}

/// Once a run cannot be translated, the runs after it change nothing.
pub proof fn lemma_v2p_all_stops(
    es: Seq<PageEntry>,
    pm: PmView,
    vmas: &AreaSet,
    files: &MappableTable,
    iovs: Seq<IoVec>,
    n: int,
    writable: bool,
)
    requires
        0 <= n <= iovs.len(),
        v2p_all(es, pm, vmas, files, iovs.take(n), writable).3.is_some(),
    ensures
        v2p_all(es, pm, vmas, files, iovs, writable) == v2p_all(
            es,
            pm,
            vmas,
            files,
            iovs.take(n),
            writable,
        ),
    decreases iovs.len() - n,
{
    if n == iovs.len() {
        assert(iovs.take(n) =~= iovs);
    } else {
        assert(iovs.take(n + 1).drop_last() =~= iovs.take(n));
        lemma_v2p_all_stops(es, pm, vmas, files, iovs, n + 1, writable);
    }
}

/// A task and its address space.
pub struct Task {
    pub taskId: u64,
    pub mm: MemoryManager,
    /// Scratch room for translations.
    pub iovs: Vec<IoVec>,
}

impl Task {
    /// The task's invariant: that of its address space.
    pub open spec fn wf(&self) -> bool {
        self.mm.wf()
    }

    /// Everything but the leaves of the page table is as in `o`.
    pub open spec fn same_but_pt(&self, o: &Self) -> bool {
        &&& self.taskId == o.taskId
        &&& self.iovs == o.iovs
        &&& self.mm.same_but_pt(&o.mm)
    }

    /// The leaves of the page table of the task's address space.
    pub open spec fn leaves(&self) -> Seq<PageEntry> {
        self.mm.leaves()
    }

    /// A task in the address space `mm`.
    pub fn New(taskId: u64, mm: MemoryManager) -> (r: Self)
        ensures
            r.taskId == taskId,
            r.mm == mm,
            r.iovs@.len() == 0,
    {
        Task { taskId, mm, iovs: Vec::new() }
    }

    /// Reads `size` values from guest memory at `addr`: see
    /// `MemoryManager::CopyInVec`.
    pub fn CopyInVec<T: Plain>(
        &mut self,
        pm: &mut PageMgr,
        files: &MappableTable,
        addr: u64,
        size: usize,
    ) -> (r: Result<Vec<T>, Error>)
        requires
            old(self).wf(),
            old(pm).wf(),
            files.wf(),
        ensures
            final(self).wf(),
            final(pm).wf(),
            final(self).same_but_pt(old(self)),
            T::size() * size > usize::MAX ==> final(self).leaves() == old(self).leaves() && final(pm)@ == old(pm)@ && r.is_err() && error_of(r) == Some(Error::SysError(SysErr::EFAULT)),
            T::size() * size <= usize::MAX ==> {
                let s = read_step(
                    old(self).leaves(),
                    old(pm)@,
                    &old(self).mm.data.vmas,
                    files,
                    addr,
                    (T::size() * size) as usize,
                );
                &&& final(self).leaves() == s.0
                &&& final(pm)@ == s.1
                &&& match s.2 {
                    Ok(bytes) => r.is_ok() && r.unwrap()@ == decode_all::<T>(bytes, size as nat),
                    Err(e) => r.is_err() && error_of(r) == Some(e),
                }
            },
    {
        self.mm.CopyInVec(pm, files, addr, size)
    }

    /// Writes the values of `src` to guest memory at `dst`: see
    /// `MemoryManager::CopyOutSlice`.
    pub fn CopyOutSlice<T: Plain>(
        &mut self,
        pm: &mut PageMgr,
        files: &MappableTable,
        src: &[T],
        dst: u64,
        len: usize,
    ) -> (r: Result<(), Error>)
        requires
            old(self).wf(),
            old(pm).wf(),
            files.wf(),
        ensures
            final(self).wf(),
            final(pm).wf(),
            final(self).same_but_pt(old(self)),
            len < src@.len() ==> r == Err::<(), Error>(Error::SysError(SysErr::ERANGE)) && final(self).leaves() == old(self).leaves() && final(pm)@ == old(pm)@,
            len >= src@.len() ==> (final(self).leaves(), final(pm)@, error_of(r)) == write_step(
                old(self).leaves(),
                old(pm)@,
                &old(self).mm.data.vmas,
                files,
                encode_all(src@),
                dst,
            ),
    {
        self.mm.CopyOutSlice(pm, files, src, dst, len)
    }

    /// Reads one value from guest memory at `src`.
    pub fn CopyInObj<T: Plain>(&mut self, pm: &mut PageMgr, files: &MappableTable, src: u64) -> (r:
        Result<T, Error>)
        requires
            old(self).wf(),
            old(pm).wf(),
            files.wf(),
        ensures
            final(self).wf(),
            final(pm).wf(),
            final(self).same_but_pt(old(self)),
            ({
                let s = read_step(
                    old(self).leaves(),
                    old(pm)@,
                    &old(self).mm.data.vmas,
                    files,
                    src,
                    T::size() as usize,
                );
                &&& final(self).leaves() == s.0
                &&& final(pm)@ == s.1
                &&& r == match s.2 {
                    Ok(bytes) => Ok::<T, Error>(T::decode(bytes)),
                    Err(e) => Err::<T, Error>(e),
                }
            }),
    {
        self.mm.CopyInObj(pm, files, src)
    }

    /// Writes one value to guest memory at `dst`.
    pub fn CopyOutObj<T: Plain>(
        &mut self,
        pm: &mut PageMgr,
        files: &MappableTable,
        src: &T,
        dst: u64,
    ) -> (r: Result<(), Error>)
        requires
            old(self).wf(),
            old(pm).wf(),
            files.wf(),
        ensures
            final(self).wf(),
            final(pm).wf(),
            final(self).same_but_pt(old(self)),
            (final(self).leaves(), final(pm)@, error_of(r)) == write_step(
                old(self).leaves(),
                old(pm)@,
                &old(self).mm.data.vmas,
                files,
                src.encode(),
                dst,
            ),
    {
        self.mm.CopyOutObj(pm, files, src, dst)
    }

    /// Writes the bytes of `s` and a NUL byte to guest memory at `vAddr`,
    /// which has room for `len` bytes. Fails with `ERANGE`, changing
    /// nothing, when that is not enough.
    pub fn CopyOutString(
        &mut self,
        pm: &mut PageMgr,
        files: &MappableTable,
        vAddr: u64,
        len: usize,
        s: &str,
    ) -> (r: Result<(), Error>)
        requires
            old(self).wf(),
            old(pm).wf(),
            files.wf(),
        ensures
            final(self).wf(),
            final(pm).wf(),
            final(self).same_but_pt(old(self)),
            len < encode_utf8(s@).len() + 1 ==> r == Err::<(), Error>(
                Error::SysError(SysErr::ERANGE),
            ) && final(self).leaves() == old(self).leaves() && final(pm)@ == old(pm)@,
            len >= encode_utf8(s@).len() + 1 ==> (final(self).leaves(), final(pm)@, error_of(r))
                == write_step(
                old(self).leaves(),
                old(pm)@,
                &old(self).mm.data.vmas,
                files,
                encode_utf8(s@).push(0u8),
                vAddr,
            ),
    {
        let str = CString::New(s);
        proof {
            lemma_encode_bytes(str.data@);
        }
        self.CopyOutSlice(pm, files, str.Slice(), vAddr, len)
    }

    /// Reads a NUL-terminated string of at most `maxlen` bytes at `addr`:
    /// see `MemoryManager::CopyInString`.
    pub fn CopyInString(
        &mut self,
        pm: &mut PageMgr,
        files: &MappableTable,
        addr: u64,
        maxlen: usize,
    ) -> (r: (String, Result<(), Error>))
        requires
            old(self).wf(),
            old(pm).wf(),
            files.wf(),
        ensures
            final(self).wf(),
            final(pm).wf(),
            final(self).same_but_pt(old(self)),
            ({
                let s = string_step(
                    old(self).leaves(),
                    old(pm)@,
                    &old(self).mm.data.vmas,
                    files,
                    addr,
                    maxlen,
                );
                &&& final(self).leaves() == s.0
                &&& final(pm)@ == s.1
                &&& match s.2 {
                    Err(e) => r.0@ == Seq::<char>::empty() && r.1 == Err::<(), Error>(e),
                    Ok(b) => (r.0@, r.1) == text_of(b),
                }
            }),
    {
        self.mm.CopyInString(pm, files, addr, maxlen)
    }

    /// Reads a vector of strings at `addr`: see
    /// `MemoryManager::CopyInVector`.
    pub fn CopyInVector(
        &mut self,
        pm: &mut PageMgr,
        files: &MappableTable,
        addr: u64,
        maxElemSize: usize,
        maxTotalSize: i32,
    ) -> (r: Result<Vec<String>, Error>)
        requires
            old(self).wf(),
            old(pm).wf(),
            files.wf(),
        ensures
            final(self).wf(),
            final(pm).wf(),
            final(self).same_but_pt(old(self)),
            ({
                let s = vector_step(
                    old(self).leaves(),
                    old(pm)@,
                    &old(self).mm.data.vmas,
                    files,
                    addr,
                    maxElemSize,
                    maxTotalSize,
                );
                &&& final(self).leaves() == s.0
                &&& final(pm)@ == s.1
                &&& match s.2 {
                    Err(e) => error_of(r) == Some(e),
                    Ok(out) => r.is_ok() && texts(r.unwrap()@) == out,
                }
            }),
    {
        self.mm.CopyInVector(pm, files, addr, maxElemSize, maxTotalSize)
    }

    /// Checks that every run of `iovs` is accessible, one after the other,
    /// up to the first that is not: see `check_all`.
    pub fn CheckIOVecPermission(
        &mut self,
        pm: &mut PageMgr,
        files: &MappableTable,
        iovs: &[IoVec],
        writeReq: bool,
    ) -> (r: Result<(), Error>)
        requires
            old(self).wf(),
            old(pm).wf(),
            files.wf(),
        ensures
            final(self).wf(),
            final(pm).wf(),
            final(self).same_but_pt(old(self)),
            (final(self).leaves(), final(pm)@, error_of(r)) == check_all(
                old(self).leaves(),
                old(pm)@,
                &old(self).mm.data.vmas,
                files,
                iovs@,
                writeReq,
            ),
    {
        let n = iovs.len();
        let mut i: usize = 0;
        while i < n
            invariant
                self.wf(),
                pm.wf(),
                files.wf(),
                self.same_but_pt(old(self)),
                n == iovs@.len(),
                i <= n,
                (self.leaves(), pm@, None::<Error>) == check_all(
                    old(self).leaves(),
                    old(pm)@,
                    &self.mm.data.vmas,
                    files,
                    iovs@.take(i as int),
                    writeReq,
                ),
            decreases n - i,
        {
            proof {
                assert(iovs@.take(i + 1).drop_last() =~= iovs@.take(i as int));
            }
            match self.CheckPermission(pm, files, iovs[i].start, iovs[i].len as u64, writeReq, false) {
                Err(e) => {
                    proof {
                        lemma_check_all_stops(
                            old(self).leaves(),
                            old(pm)@,
                            &self.mm.data.vmas,
                            files,
                            iovs@,
                            i + 1,
                            writeReq,
                        );
                    }
                    return Err(e);
                },
                Ok(_) => {},
            }
            i = i + 1;
        }
        proof {
            assert(iovs@.take(n as int) =~= iovs@);
        }
        Ok(())
    }

    /// Checks that `[vAddr, vAddr + len)` is accessible: see `check_step`.
    pub fn CheckPermission(
        &mut self,
        pm: &mut PageMgr,
        files: &MappableTable,
        vAddr: u64,
        len: u64,
        writeReq: bool,
        allowPartial: bool,
    ) -> (r: Result<u64, Error>)
        requires
            old(self).wf(),
            old(pm).wf(),
            files.wf(),
        ensures
            final(self).wf(),
            final(pm).wf(),
            final(self).same_but_pt(old(self)),
            (final(self).leaves(), final(pm)@, r) == check_step(
                old(self).leaves(),
                old(pm)@,
                &old(self).mm.data.vmas,
                files,
                vAddr,
                len,
                writeReq,
                allowPartial,
            ),
            r.is_ok() ==> r.unwrap() <= len,
    {
        self.mm.CheckPermissionLocked(pm, files, vAddr, len, writeReq, allowPartial)
    }

    /// The physical address behind `vAddr`. Fails with `EFAULT` for the null
    /// address and with `AddressNotMap` when the page has no leaf.
    pub fn VirtualToPhy(&self, vAddr: u64) -> (r: Result<u64, Error>)
        requires
            self.mm.data.pt.wf(),
        ensures
            vAddr == 0 ==> r == Err::<u64, Error>(Error::SysError(SysErr::EFAULT)),
            vAddr != 0 ==> r == match self.mm.data.pt.leaf(page_down(vAddr as int)) {
                Some(e) => Ok::<u64, Error>((e.paddr + vAddr % 4096) as u64),
                None => Err::<u64, Error>(Error::AddressNotMap(vAddr)),
            },
    {
        let (addr, _) = self.mm.VirtualToPhy(vAddr)?;
        Ok(addr)
    }

    /// Reads the `iovsnum` runs that guest memory holds at `iovs`, which
    /// must be writable as a whole. Fails with `EFAULT`, changing nothing,
    /// when the runs are more than a length can say.
    pub fn IovsFromAddr(
        &mut self,
        pm: &mut PageMgr,
        files: &MappableTable,
        iovs: u64,
        iovsnum: usize,
    ) -> (r: Result<Vec<IoVec>, Error>)
        requires
            old(self).wf(),
            old(pm).wf(),
            files.wf(),
        ensures
            final(self).wf(),
            final(pm).wf(),
            final(self).same_but_pt(old(self)),
            iovsnum * 16 > usize::MAX ==> final(self).leaves() == old(self).leaves() && final(pm)@
                == old(pm)@ && error_of(r) == Some(Error::SysError(SysErr::EFAULT)),
            iovsnum * 16 <= usize::MAX ==> {
                let c = check_step(
                    old(self).leaves(),
                    old(pm)@,
                    &old(self).mm.data.vmas,
                    files,
                    iovs,
                    (iovsnum * 16) as u64,
                    true,
                    false,
                );
                match c.2 {
                    Err(e) => final(self).leaves() == c.0 && final(pm)@ == c.1 && error_of(r)
                        == Some(e),
                    Ok(n) => {
                        let s = read_step(
                            c.0,
                            c.1,
                            &old(self).mm.data.vmas,
                            files,
                            iovs,
                            (n / 16 * 16) as usize,
                        );
                        &&& final(self).leaves() == s.0
                        &&& final(pm)@ == s.1
                        &&& match s.2 {
                            Ok(bytes) => r.is_ok() && r.unwrap()@ == decode_all::<IoVec>(
                                bytes,
                                (n / 16) as nat,
                            ),
                            Err(e) => error_of(r) == Some(e),
                        }
                    },
                }
            },
    {
        if iovsnum > usize::MAX / 16 {
            return Err(Error::SysError(SysErr::EFAULT));
        }
        let len = self.CheckPermission(pm, files, iovs, (iovsnum * 16) as u64, true, false)?;
        let count = (len / 16) as usize;
        self.mm.CopyInVec(pm, files, iovs, count)
    }

    /// Translates `[start, start + len)`: see `MemoryManager::V2PIov`.
    pub fn V2P(
        &mut self,
        pm: &mut PageMgr,
        files: &MappableTable,
        start: u64,
        len: u64,
        output: &mut Vec<IoVec>,
        writable: bool,
    ) -> (r: Result<(), Error>)
        requires
            old(self).wf(),
            old(pm).wf(),
            files.wf(),
        ensures
            final(self).wf(),
            final(pm).wf(),
            final(self).same_but_pt(old(self)),
            ({
                let s = v2p_step(
                    old(self).leaves(),
                    old(pm)@,
                    &old(self).mm.data.vmas,
                    files,
                    start,
                    len,
                    writable,
                );
                &&& final(self).leaves() == s.0
                &&& final(pm)@ == s.1
                &&& match s.2 {
                    Ok(runs) => r == Ok::<(), Error>(()) && final(output)@ == old(output)@ + runs,
                    Err(e) => r == Err::<(), Error>(e) && final(output)@ == old(output)@,
                }
            }),
    {
        self.mm.V2PIov(pm, files, start, len, output, writable)
    }

    /// Translates the run `iov`: see `V2P`.
    pub fn V2PIov(
        &mut self,
        pm: &mut PageMgr,
        files: &MappableTable,
        iov: &IoVec,
        output: &mut Vec<IoVec>,
        writable: bool,
    ) -> (r: Result<(), Error>)
        requires
            old(self).wf(),
            old(pm).wf(),
            files.wf(),
        ensures
            final(self).wf(),
            final(pm).wf(),
            final(self).same_but_pt(old(self)),
            ({
                let s = v2p_step(
                    old(self).leaves(),
                    old(pm)@,
                    &old(self).mm.data.vmas,
                    files,
                    iov.start,
                    iov.len as u64,
                    writable,
                );
                &&& final(self).leaves() == s.0
                &&& final(pm)@ == s.1
                &&& match s.2 {
                    Ok(runs) => r == Ok::<(), Error>(()) && final(output)@ == old(output)@ + runs,
                    Err(e) => r == Err::<(), Error>(e) && final(output)@ == old(output)@,
                }
            }),
    {
        self.V2P(pm, files, iov.start, iov.len as u64, output, writable)
    }

    /// Translates the runs `iovs` one after the other, up to the first that
    /// cannot be translated: see `v2p_all`.
    pub fn V2PIovs(
        &mut self,
        pm: &mut PageMgr,
        files: &MappableTable,
        iovs: &[IoVec],
        writable: bool,
        output: &mut Vec<IoVec>,
    ) -> (r: Result<(), Error>)
        requires
            old(self).wf(),
            old(pm).wf(),
            files.wf(),
        ensures
            final(self).wf(),
            final(pm).wf(),
            final(self).same_but_pt(old(self)),
            ({
                let s = v2p_all(
                    old(self).leaves(),
                    old(pm)@,
                    &old(self).mm.data.vmas,
                    files,
                    iovs@,
                    writable,
                );
                &&& final(self).leaves() == s.0
                &&& final(pm)@ == s.1
                &&& final(output)@ == old(output)@ + s.2
                &&& error_of(r) == s.3
            }),
    {
        let n = iovs.len();
        let mut i: usize = 0;
        proof {
            assert(output@ =~= old(output)@ + Seq::<IoVec>::empty());
        }
        while i < n
            invariant
                self.wf(),
                pm.wf(),
                files.wf(),
                self.same_but_pt(old(self)),
                n == iovs@.len(),
                i <= n,
                ({
                    let s = v2p_all(
                        old(self).leaves(),
                        old(pm)@,
                        &self.mm.data.vmas,
                        files,
                        iovs@.take(i as int),
                        writable,
                    );
                    &&& self.leaves() == s.0
                    &&& pm@ == s.1
                    &&& output@ == old(output)@ + s.2
                    &&& s.3.is_none()
                }),
            decreases n - i,
        {
            let ghost prev = v2p_all(
                old(self).leaves(),
                old(pm)@,
                &self.mm.data.vmas,
                files,
                iovs@.take(i as int),
                writable,
            );
            proof {
                assert(iovs@.take(i + 1).drop_last() =~= iovs@.take(i as int));
            }
            let ghost before = output@;
            match self.V2PIov(pm, files, &iovs[i], output, writable) {
                Err(e) => {
                    proof {
                        lemma_v2p_all_stops(
                            old(self).leaves(),
                            old(pm)@,
                            &self.mm.data.vmas,
                            files,
                            iovs@,
                            i + 1,
                            writable,
                        );
                    }
                    return Err(e);
                },
                Ok(_) => {
                    proof {
                        let s = v2p_all(
                            old(self).leaves(),
                            old(pm)@,
                            &self.mm.data.vmas,
                            files,
                            iovs@.take(i + 1),
                            writable,
                        );
                        assert(output@ =~= old(output)@ + s.2);
                    }
                },
            }
            i = i + 1;
        }
        proof {
            assert(iovs@.take(n as int) =~= iovs@);
        }
        Ok(())
    }

    /// Translates the runs of `bs` one after the other: see `V2PIovs`.
    pub fn V2PBlockSeq(
        &mut self,
        pm: &mut PageMgr,
        files: &MappableTable,
        bs: BlockSeq,
        output: &mut Vec<IoVec>,
        writable: bool,
    ) -> (r: Result<(), Error>)
        requires
            old(self).wf(),
            old(pm).wf(),
            files.wf(),
        ensures
            final(self).wf(),
            final(pm).wf(),
            final(self).same_but_pt(old(self)),
            ({
                let s = v2p_all(
                    old(self).leaves(),
                    old(pm)@,
                    &old(self).mm.data.vmas,
                    files,
                    bs@,
                    writable,
                );
                &&& final(self).leaves() == s.0
                &&& final(pm)@ == s.1
                &&& final(output)@ == old(output)@ + s.2
                &&& error_of(r) == s.3
            }),
    {
        self.V2PIovs(pm, files, bs.data.as_slice(), writable, output)
    }
}

/// The bytes that stand for bytes are the bytes themselves.
pub proof fn lemma_encode_bytes(b: Seq<u8>)
    ensures
        encode_all::<u8>(b) == b,
    decreases b.len(),
{
    if b.len() > 0 {
        lemma_encode_bytes(b.drop_last());
        assert(encode_all::<u8>(b) =~= b);
    } else {
        assert(encode_all::<u8>(b) =~= b);
    }
}

} // verus!
