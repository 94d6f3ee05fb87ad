//! The user-memory access layer: bytes, typed values and strings move
//! between the kernel and guest memory through the page table.
use vstd::prelude::*;
use crate::areaset::AreaSet;
use crate::linux_def::{Error, IoVec, SysErr};
use crate::mappable::MappableTable;
use crate::mm::{fix_step, MemoryManager};
use crate::pagemgr::{PageMgr, PmView};
use crate::pagetable::PageEntry;
use crate::plain::{decode_all, encode_all, Plain};
use crate::translate::{lemma_v2p, v2p_step};

verus! {

/// Every run lies inside the pool.
pub open spec fn all_held(pm: PmView, iovs: Seq<IoVec>) -> bool {
    forall|i: int| 0 <= i < iovs.len() ==> pm.holds((#[trigger] iovs[i]).start as int, iovs[i].len as int)
}

/// The bytes of the runs, one run after the other.
pub open spec fn gather(pm: PmView, iovs: Seq<IoVec>) -> Seq<u8>
    decreases iovs.len(),
{
    if iovs.len() == 0 {
        Seq::<u8>::empty()
    } else {
        gather(pm, iovs.drop_last()) + pm.bytes(iovs.last().start as int, iovs.last().len as int)
    }
}

/// The pool after `data` was written over the runs, one run after the
/// other.
pub open spec fn scatter(pm: PmView, iovs: Seq<IoVec>, data: Seq<u8>) -> PmView
    decreases iovs.len(),
{
    if iovs.len() == 0 {
        pm
    } else {
        let k = IoVec::total(iovs.drop_last());
        scatter(pm, iovs.drop_last(), data).write(
            iovs.last().start as int,
            data.subrange(k, k + iovs.last().len),
        )
    }
}

/// The bytes of runs inside the pool are as many as the runs are long.
pub proof fn lemma_gather_len(pm: PmView, iovs: Seq<IoVec>)
    requires
        pm.wf(),
        all_held(pm, iovs),
    ensures
        gather(pm, iovs).len() == IoVec::total(iovs),
    decreases iovs.len(),
{
    if iovs.len() > 0 {
        let d = iovs.drop_last();
        assert forall|i: int| 0 <= i < d.len() implies pm.holds(
            (#[trigger] d[i]).start as int,
            d[i].len as int,
        ) by {
            assert(d[i] == iovs[i]);
        }
        lemma_gather_len(pm, d);
        assert(pm.holds(iovs[iovs.len() - 1].start as int, iovs[iovs.len() - 1].len as int));
    }
}

/// Writing over runs changes nothing of the pool but its bytes.
pub proof fn lemma_scatter(pm: PmView, iovs: Seq<IoVec>, data: Seq<u8>)
    requires
        pm.wf(),
    ensures
        scatter(pm, iovs, data).wf(),
        scatter(pm, iovs, data).base == pm.base,
        scatter(pm, iovs, data).refs == pm.refs,
        scatter(pm, iovs, data).live == pm.live,
        scatter(pm, iovs, data).mem.len() == pm.mem.len(),
    decreases iovs.len(),
{
    if iovs.len() > 0 {
        lemma_scatter(pm, iovs.drop_last(), data);
    }
}

/// What reading `len` bytes at `vaddr` does and gives: the page table and
/// the pool after the pages were made accessible, and the bytes behind the
/// range, or the error: that of the translation, or `EFAULT` when a page of
/// the range is backed by memory outside the pool.
#[verifier::opaque]
pub open spec fn read_step(
    es: Seq<PageEntry>,
    pm: PmView,
    vmas: &AreaSet,
    files: &MappableTable,
    vaddr: u64,
    len: usize,
) -> (Seq<PageEntry>, PmView, Result<Seq<u8>, Error>) {
    let s = v2p_step(es, pm, vmas, files, vaddr, len as u64, false);
    (
        s.0,
        s.1,
        match s.2 {
            Err(e) => Err(e),
            Ok(runs) => if all_held(s.1, runs) {
                Ok(gather(s.1, runs))
            } else {
                Err(Error::SysError(SysErr::EFAULT))
            },
        },
    )
}

/// What writing `data` at `vaddr` does: the page table and the pool after
/// the pages were made writable and the bytes were written, and the error if
/// there is one: that of the translation, or `EFAULT` when a page of the
/// range is backed by memory outside the pool, in which case nothing is
/// written.
#[verifier::opaque]
pub open spec fn write_step(
    es: Seq<PageEntry>,
    pm: PmView,
    vmas: &AreaSet,
    files: &MappableTable,
    data: Seq<u8>,
    vaddr: u64,
) -> (Seq<PageEntry>, PmView, Option<Error>) {
    let s = v2p_step(es, pm, vmas, files, vaddr, data.len() as u64, true);
    match s.2 {
        Err(e) => (s.0, s.1, Some(e)),
        Ok(runs) => if all_held(s.1, runs) {
            (s.0, scatter(s.1, runs, data), None)
        } else {
            (s.0, s.1, Some(Error::SysError(SysErr::EFAULT)))
        },
    }
}

/// The result of an operation without the value: the error, if any.
pub open spec fn error_of<T>(r: Result<T, Error>) -> Option<Error> {
    match r {
        Ok(_) => None,
        Err(e) => Some(e),
    }
}

impl MemoryManager {
    /// Copies `len` bytes from guest memory at `vaddr`: see `read_step`. On
    /// success the bytes returned are `len`.
    pub fn CopyDataIn(&mut self, pm: &mut PageMgr, files: &MappableTable, vaddr: u64, len: usize)
        -> (r: Result<Vec<u8>, Error>)
        requires
            old(self).wf(),
            old(pm).wf(),
            files.wf(),
        ensures
            final(self).wf(),
            final(pm).wf(),
            final(self).same_but_pt(old(self)),
            ({
                let s = read_step(
                    old(self).leaves(),
                    old(pm)@,
                    &old(self).data.vmas,
                    files,
                    vaddr,
                    len,
                );
                &&& final(self).leaves() == s.0
                &&& final(pm)@ == s.1
                &&& match s.2 {
                    Ok(bytes) => r.is_ok() && r.unwrap()@ == bytes,
                    Err(e) => r.is_err() && error_of(r) == Some(e),
                }
            }),
            r.is_ok() ==> r.unwrap()@.len() == len,
    {
        self.CopyDataInLocked(pm, files, vaddr, len)
    }

    /// Copies `len` bytes from guest memory at `vaddr`: see `read_step`.
    #[verifier::loop_isolation(false)]
    pub fn CopyDataInLocked(
        &mut self,
        pm: &mut PageMgr,
        files: &MappableTable,
        vaddr: u64,
        len: usize,
    ) -> (r: Result<Vec<u8>, Error>)
        requires
            old(self).wf(),
            old(pm).wf(),
            files.wf(),
        ensures
            final(self).wf(),
            final(pm).wf(),
            final(self).same_but_pt(old(self)),
            ({
                let s = read_step(
                    old(self).leaves(),
                    old(pm)@,
                    &old(self).data.vmas,
                    files,
                    vaddr,
                    len,
                );
                &&& final(self).leaves() == s.0
                &&& final(pm)@ == s.1
                &&& match s.2 {
                    Ok(bytes) => r.is_ok() && r.unwrap()@ == bytes,
                    Err(e) => r.is_err() && error_of(r) == Some(e),
                }
            }),
            r.is_ok() ==> r.unwrap()@.len() == len,
    {
        reveal(read_step);
        let mut iovs: Vec<IoVec> = Vec::new();
        self.V2PIov(pm, files, vaddr, len as u64, &mut iovs, false)?;
        let n = iovs.len();
        let mut i: usize = 0;
        while i < n
            invariant
                pm.wf(),
                n == iovs@.len(),
                i <= n,
                forall|k: int| 0 <= k < i ==> pm@.holds((#[trigger] iovs@[k]).start as int, iovs@[k].len as int),
            decreases n - i,
        {
            if !pm.Holds(iovs[i].start, iovs[i].len) {
                return Err(Error::SysError(SysErr::EFAULT));
            }
            i = i + 1;
        }
        let mut out: Vec<u8> = Vec::new();
        let mut i: usize = 0;
        assert(out@ =~= gather(pm@, iovs@.take(0)));
        while i < n
            invariant
                pm.wf(),
                n == iovs@.len(),
                i <= n,
                all_held(pm@, iovs@),
                out@ == gather(pm@, iovs@.take(i as int)),
            decreases n - i,
        {
            proof {
                assert(iovs@.take(i + 1).drop_last() =~= iovs@.take(i as int));
            }
            pm.ReadBytes(iovs[i].start, iovs[i].len, &mut out);
            i = i + 1;
        }
        proof {
            assert(iovs@.take(n as int) =~= iovs@);
            lemma_gather_len(pm@, iovs@);
            lemma_v2p(self.leaves(), vaddr as int, len as int);
        }
        Ok(out)
    }

    /// Copies the first `len` bytes of `from` to guest memory at `vaddr`:
    /// see `write_step`.
    pub fn CopyDataOut(
        &mut self,
        pm: &mut PageMgr,
        files: &MappableTable,
        from: &[u8],
        vaddr: u64,
        len: usize,
    ) -> (r: Result<(), Error>)
        requires
            old(self).wf(),
            old(pm).wf(),
            files.wf(),
            len <= from@.len(),
        ensures
            final(self).wf(),
            final(pm).wf(),
            final(self).same_but_pt(old(self)),
            (final(self).leaves(), final(pm)@, error_of(r)) == write_step(
                old(self).leaves(),
                old(pm)@,
                &old(self).data.vmas,
                files,
                from@.take(len as int),
                vaddr,
            ),
    {
        self.CopyDataOutLocked(pm, files, from, vaddr, len)
    }

    /// Copies the first `len` bytes of `from` to guest memory at `vaddr`:
    /// see `write_step`.
    #[verifier::loop_isolation(false)]
    #[verifier::rlimit(40)]
    pub fn CopyDataOutLocked(
        &mut self,
        pm: &mut PageMgr,
        files: &MappableTable,
        from: &[u8],
        vaddr: u64,
        len: usize,
    ) -> (r: Result<(), Error>)
        requires
            old(self).wf(),
            old(pm).wf(),
            files.wf(),
            len <= from@.len(),
        ensures
            final(self).wf(),
            final(pm).wf(),
            final(self).same_but_pt(old(self)),
            (final(self).leaves(), final(pm)@, error_of(r)) == write_step(
                old(self).leaves(),
                old(pm)@,
                &old(self).data.vmas,
                files,
                from@.take(len as int),
                vaddr,
            ),
    {
        reveal(write_step);
        let mut iovs: Vec<IoVec> = Vec::new();
        self.V2PIov(pm, files, vaddr, len as u64, &mut iovs, true)?;
        let n = iovs.len();
        let mut i: usize = 0;
        while i < n
            invariant
                pm.wf(),
                n == iovs@.len(),
                i <= n,
                forall|k: int| 0 <= k < i ==> pm@.holds((#[trigger] iovs@[k]).start as int, iovs@[k].len as int),
            decreases n - i,
        {
            if !pm.Holds(iovs[i].start, iovs[i].len) {
                return Err(Error::SysError(SysErr::EFAULT));
            }
            i = i + 1;
        }
        let ghost pm1 = pm@;
        let ghost data = from@.take(len as int);
        proof {
            lemma_v2p(self.leaves(), vaddr as int, len as int);
            IoVec::lemma_total_prefix(iovs@, 0);
        }
        let mut offset: usize = 0;
        let mut i: usize = 0;
        while i < n
            invariant
                pm.wf(),
                n == iovs@.len(),
                i <= n,
                all_held(pm1, iovs@),
                pm@.base == pm1.base,
                pm@.frames() == pm1.frames(),
                IoVec::total(iovs@) == len,
                len <= from@.len(),
                data == from@.take(len as int),
                offset == IoVec::total(iovs@.take(i as int)),
                pm@ == scatter(pm1, iovs@.take(i as int), data),
            decreases n - i,
        {
            proof {
                assert(iovs@.take(i + 1).drop_last() =~= iovs@.take(i as int));
                IoVec::lemma_total_prefix(iovs@, i + 1);
                assert(data.subrange(offset as int, offset + iovs@[i as int].len) =~= from@.subrange(
                    offset as int,
                    offset + iovs@[i as int].len,
                ));
                lemma_scatter(pm1, iovs@.take(i as int), data);
            }
            pm.WriteBytes(iovs[i].start, from, offset, iovs[i].len);
            offset = offset + iovs[i].len;
            i = i + 1;
        }
        proof {
            assert(iovs@.take(n as int) =~= iovs@);
        }
        Ok(())
    }

    /// Checks that `[vAddr, vAddr + len)` is accessible: an empty range
    /// always is, and any other is checked as `FixPermission` does.
    pub fn CheckPermissionLocked(
        &mut self,
        pm: &mut PageMgr,
        files: &MappableTable,
        vAddr: u64,
        len: u64,
        writeReq: bool,
        allowPartial: bool,
    ) -> (r: Result<u64, Error>)
        requires
            old(self).wf(),
            old(pm).wf(),
            files.wf(),
        ensures
            final(self).wf(),
            final(pm).wf(),
            final(self).same_but_pt(old(self)),
            (final(self).leaves(), final(pm)@, r) == check_step(
                old(self).leaves(),
                old(pm)@,
                &old(self).data.vmas,
                files,
                vAddr,
                len,
                writeReq,
                allowPartial,
            ),
            r.is_ok() ==> r.unwrap() <= len,
    {
        reveal(fix_step);
        if len == 0 {
            return Ok(0);
        }
        if vAddr == 0 {
            return Err(Error::SysError(SysErr::EFAULT));
        }
        self.FixPermission(pm, files, vAddr, len, writeReq, allowPartial)
    }

    /// Reads one value from guest memory at `src`: the value that the bytes
    /// there stand for.
    pub fn CopyInObj<T: Plain>(&mut self, pm: &mut PageMgr, files: &MappableTable, src: u64) -> (r:
        Result<T, Error>)
        requires
            old(self).wf(),
            old(pm).wf(),
            files.wf(),
        ensures
            final(self).wf(),
            final(pm).wf(),
            final(self).same_but_pt(old(self)),
            ({
                let s = read_step(
                    old(self).leaves(),
                    old(pm)@,
                    &old(self).data.vmas,
                    files,
                    src,
                    T::size() as usize,
                );
                &&& final(self).leaves() == s.0
                &&& final(pm)@ == s.1
                &&& r == match s.2 {
                    Ok(bytes) => Ok::<T, Error>(T::decode(bytes)),
                    Err(e) => Err::<T, Error>(e),
                }
            }),
    {
        self.CopyInObjLocked(pm, files, src)
    }

    /// Reads one value from guest memory at `src`: the value that the bytes
    /// there stand for.
    pub fn CopyInObjLocked<T: Plain>(
        &mut self,
        pm: &mut PageMgr,
        files: &MappableTable,
        src: u64,
    ) -> (r: Result<T, Error>)
        requires
            old(self).wf(),
            old(pm).wf(),
            files.wf(),
        ensures
            final(self).wf(),
            final(pm).wf(),
            final(self).same_but_pt(old(self)),
            ({
                let s = read_step(
                    old(self).leaves(),
                    old(pm)@,
                    &old(self).data.vmas,
                    files,
                    src,
                    T::size() as usize,
                );
                &&& final(self).leaves() == s.0
                &&& final(pm)@ == s.1
                &&& r == match s.2 {
                    Ok(bytes) => Ok::<T, Error>(T::decode(bytes)),
                    Err(e) => Err::<T, Error>(e),
                }
            }),
    {
        let size = T::Size();
        let bytes = self.CopyDataInLocked(pm, files, src, size)?;
        assert(bytes@.subrange(0, size as int) =~= bytes@);
        Ok(T::FromBytes(bytes.as_slice(), 0))
    }

    /// Writes the bytes that stand for `data` to guest memory at `dst`.
    pub fn CopyOutObj<T: Plain>(
        &mut self,
        pm: &mut PageMgr,
        files: &MappableTable,
        data: &T,
        dst: u64,
    ) -> (r: Result<(), Error>)
        requires
            old(self).wf(),
            old(pm).wf(),
            files.wf(),
        ensures
            final(self).wf(),
            final(pm).wf(),
            final(self).same_but_pt(old(self)),
            (final(self).leaves(), final(pm)@, error_of(r)) == write_step(
                old(self).leaves(),
                old(pm)@,
                &old(self).data.vmas,
                files,
                data.encode(),
                dst,
            ),
    {
        self.CopyOutObjLocked(pm, files, data, dst)
    }

    /// Writes the bytes that stand for `data` to guest memory at `dst`.
    pub fn CopyOutObjLocked<T: Plain>(
        &mut self,
        pm: &mut PageMgr,
        files: &MappableTable,
        data: &T,
        dst: u64,
    ) -> (r: Result<(), Error>)
        requires
            old(self).wf(),
            old(pm).wf(),
            files.wf(),
        ensures
            final(self).wf(),
            final(pm).wf(),
            final(self).same_but_pt(old(self)),
            (final(self).leaves(), final(pm)@, error_of(r)) == write_step(
                old(self).leaves(),
                old(pm)@,
                &old(self).data.vmas,
                files,
                data.encode(),
                dst,
            ),
    {
        let mut bytes: Vec<u8> = Vec::new();
        data.ToBytes(&mut bytes);
        proof {
            T::lemma_plain(*data);
            assert(bytes@ =~= data.encode());
            assert(bytes@.take(bytes@.len() as int) =~= bytes@);
        }
        let n = bytes.len();
        self.CopyDataOutLocked(pm, files, bytes.as_slice(), dst, n)
    }

    /// Reads the value at `addr` and then writes `data` there. Returns the
    /// value that was read.
    pub fn SwapObj<T: Plain>(
        &mut self,
        pm: &mut PageMgr,
        files: &MappableTable,
        data: &T,
        addr: u64,
    ) -> (r: Result<T, Error>)
        requires
            old(self).wf(),
            old(pm).wf(),
            files.wf(),
        ensures
            final(self).wf(),
            final(pm).wf(),
            final(self).same_but_pt(old(self)),
            ({
                let s = read_step(
                    old(self).leaves(),
                    old(pm)@,
                    &old(self).data.vmas,
                    files,
                    addr,
                    T::size() as usize,
                );
                let w = write_step(s.0, s.1, &old(self).data.vmas, files, data.encode(), addr);
                match s.2 {
                    Err(e) => final(self).leaves() == s.0 && final(pm)@ == s.1 && r == Err::<
                        T,
                        Error,
                    >(e),
                    Ok(bytes) => final(self).leaves() == w.0 && final(pm)@ == w.1 && r == match w.2 {
                        None => Ok::<T, Error>(T::decode(bytes)),
                        Some(e) => Err::<T, Error>(e),
                    },
                }
            }),
    {
        let val: T = self.CopyInObjLocked(pm, files, addr)?;
        self.CopyOutObj(pm, files, data, addr)?;
        Ok(val)
    }

    /// Reads the value at `addr` and, if it is `expect`, writes `new` there.
    /// Returns the value that was read.
    pub fn CompareAndSwap<T: Plain>(
        &mut self,
        pm: &mut PageMgr,
        files: &MappableTable,
        addr: u64,
        expect: T,
        new: T,
    ) -> (r: Result<T, Error>)
        requires
            old(self).wf(),
            old(pm).wf(),
            files.wf(),
        ensures
            final(self).wf(),
            final(pm).wf(),
            final(self).same_but_pt(old(self)),
            ({
                let s = read_step(
                    old(self).leaves(),
                    old(pm)@,
                    &old(self).data.vmas,
                    files,
                    addr,
                    T::size() as usize,
                );
                let w = write_step(s.0, s.1, &old(self).data.vmas, files, new.encode(), addr);
                match s.2 {
                    Err(e) => final(self).leaves() == s.0 && final(pm)@ == s.1 && r == Err::<
                        T,
                        Error,
                    >(e),
                    Ok(bytes) => if T::decode(bytes) != expect {
                        final(self).leaves() == s.0 && final(pm)@ == s.1 && r == Ok::<T, Error>(
                            T::decode(bytes),
                        )
                    } else {
                        final(self).leaves() == w.0 && final(pm)@ == w.1 && r == match w.2 {
                            None => Ok::<T, Error>(T::decode(bytes)),
                            Some(e) => Err::<T, Error>(e),
                        }
                    },
                }
            }),
    {
        let val: T = self.CopyInObjLocked(pm, files, addr)?;
        if !val.Same(&expect) {
            return Ok(val);
        }
        self.CopyOutObjLocked(pm, files, &new, addr)?;
        Ok(val)
    }

    /// Reads `count` values from guest memory at `src`. Fails with `EFAULT`,
    /// changing nothing, when their bytes are more than a length can say.
    pub fn CopyInVec<T: Plain>(
        &mut self,
        pm: &mut PageMgr,
        files: &MappableTable,
        src: u64,
        count: usize,
    ) -> (r: Result<Vec<T>, Error>)
        requires
            old(self).wf(),
            old(pm).wf(),
            files.wf(),
        ensures
            final(self).wf(),
            final(pm).wf(),
            final(self).same_but_pt(old(self)),
            T::size() * count > usize::MAX ==> final(self).leaves() == old(self).leaves() && final(pm)@ == old(pm)@ && r.is_err() && error_of(r) == Some(Error::SysError(SysErr::EFAULT)),
            T::size() * count <= usize::MAX ==> {
                let s = read_step(
                    old(self).leaves(),
                    old(pm)@,
                    &old(self).data.vmas,
                    files,
                    src,
                    (T::size() * count) as usize,
                );
                &&& final(self).leaves() == s.0
                &&& final(pm)@ == s.1
                &&& match s.2 {
                    Ok(bytes) => r.is_ok() && r.unwrap()@ == decode_all::<T>(bytes, count as nat),
                    Err(e) => r.is_err() && error_of(r) == Some(e),
                }
            },
    {
        let recordLen = T::Size();
        proof {
            lemma_size_positive::<T>();
        }
        if count > usize::MAX / recordLen {
            proof {
                assert(recordLen * count > usize::MAX) by (nonlinear_arith)
                    requires
                        recordLen > 0,
                        count > usize::MAX / recordLen,
                {}
            }
            return Err(Error::SysError(SysErr::EFAULT));
        }
        proof {
            assert(recordLen * count <= usize::MAX) by (nonlinear_arith)
                requires
                    recordLen > 0,
                    count <= usize::MAX / recordLen,
            {}
        }
        let bytes = self.CopyDataInLocked(pm, files, src, recordLen * count)?;
        let mut vec: Vec<T> = Vec::with_capacity(count);
        let mut i: usize = 0;
        while i < count
            invariant
                i <= count,
                recordLen == T::size(),
                recordLen > 0,
                bytes@.len() == recordLen * count,
                recordLen * count <= usize::MAX,
                vec@ == decode_all::<T>(bytes@, i as nat),
            decreases count - i,
        {
            proof {
                assert(i * recordLen + recordLen <= recordLen * count) by (nonlinear_arith)
                    requires
                        i < count,
                        recordLen > 0,
                {}
                assert((i + 1) * recordLen == i * recordLen + recordLen) by (nonlinear_arith);
                assert(0 <= i * recordLen) by (nonlinear_arith)
                    requires
                        0 <= i,
                        0 < recordLen,
                {}
            }
            let x = T::FromBytes(bytes.as_slice(), i * recordLen);
            vec.push(x);
            proof {
                assert(vec@ =~= decode_all::<T>(bytes@, (i + 1) as nat));
            }
            i = i + 1;
        }
        Ok(vec)
    }

    /// Writes the values of `src` to guest memory at `dst`, which has room
    /// for `len` values. Fails with `ERANGE`, changing nothing, when `src`
    /// holds more than `len`.
    pub fn CopyOutSlice<T: Plain>(
        &mut self,
        pm: &mut PageMgr,
        files: &MappableTable,
        src: &[T],
        dst: u64,
        len: usize,
    ) -> (r: Result<(), Error>)
        requires
            old(self).wf(),
            old(pm).wf(),
            files.wf(),
        ensures
            final(self).wf(),
            final(pm).wf(),
            final(self).same_but_pt(old(self)),
            len < src@.len() ==> r == Err::<(), Error>(Error::SysError(SysErr::ERANGE)) && final(self).leaves() == old(self).leaves() && final(pm)@ == old(pm)@,
            len >= src@.len() ==> (final(self).leaves(), final(pm)@, error_of(r)) == write_step(
                old(self).leaves(),
                old(pm)@,
                &old(self).data.vmas,
                files,
                encode_all(src@),
                dst,
            ),
    {
        if len < src.len() {
            return Err(Error::SysError(SysErr::ERANGE));
        }
        let n = src.len();
        let mut bytes: Vec<u8> = Vec::new();
        let mut i: usize = 0;
        while i < n
            invariant
                i <= n,
                n == src@.len(),
                bytes@ == encode_all(src@.take(i as int)),
            decreases n - i,
        {
            proof {
                assert(src@.take(i + 1).drop_last() =~= src@.take(i as int));
            }
            src[i].ToBytes(&mut bytes);
            i = i + 1;
        }
        proof {
            assert(src@.take(n as int) =~= src@);
            assert(bytes@.take(bytes@.len() as int) =~= bytes@);
        }
        let total = bytes.len();
        self.CopyDataOut(pm, files, bytes.as_slice(), dst, total)
    }
}

/// What a check of `[vAddr, vAddr + len)` does and returns: nothing and 0
/// for an empty range, else what `fix_step` says.
pub open spec fn check_step(
    es: Seq<PageEntry>,
    pm: PmView,
    vmas: &AreaSet,
    files: &MappableTable,
    vAddr: u64,
    len: u64,
    writeReq: bool,
    allowPartial: bool,
) -> (Seq<PageEntry>, PmView, Result<u64, Error>) {
    if len == 0 {
        (es, pm, Ok(0))
    } else {
        fix_step(es, pm, vmas, files, vAddr, len, writeReq, allowPartial)
    }
}

/// A plain value has at least one byte.
pub proof fn lemma_size_positive<T: Plain>()
    ensures
        0 < T::size() <= 4096,
{
    let x: T = arbitrary();
    T::lemma_plain(x);
}

} // verus!
