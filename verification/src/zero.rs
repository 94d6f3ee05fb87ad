//! The zero device: reads give zeros, writes are thrown away, and nothing
//! of it can be mapped.
use vstd::prelude::*;
use crate::linux_def::{Error, IoVec, SysErr};
use crate::pagemgr::{PageMgr, PmView};
use crate::usermem::all_held;

verus! {

/// The pool after each of the runs was filled with zeros.
pub open spec fn zero_all(pm: PmView, iovs: Seq<IoVec>) -> PmView
    decreases iovs.len(),
{
    if iovs.len() == 0 {
        pm
    } else {
        zero_all(pm, iovs.drop_last()).write(
            iovs.last().start as int,
            Seq::new(iovs.last().len as nat, |i: int| 0u8),
        )
    }
}

/// The operations on an open zero device.
pub struct ZeroFileOperations {}

impl ZeroFileOperations {
    pub fn Seekable(&self) -> (r: bool)
        ensures
            !r,
    {
        false
    }

    /// The number of bytes of the runs; `EINVAL` when it is more than a
    /// result can say.
    pub fn Count(iovs: &[IoVec]) -> (r: Result<i64, Error>)
        ensures
            IoVec::total(iovs@) <= i64::MAX ==> r == Ok::<i64, Error>(IoVec::total(iovs@) as i64),
            IoVec::total(iovs@) > i64::MAX ==> r == Err::<i64, Error>(
                Error::SysError(SysErr::EINVAL),
            ),
    {
        let n = iovs.len();
        let mut sum: u64 = 0;
        let mut i: usize = 0;
        while i < n
            invariant
                n == iovs@.len(),
                i <= n,
                sum == IoVec::total(iovs@.take(i as int)),
                sum <= i64::MAX,
            decreases n - i,
        {
            proof {
                assert(iovs@.take(i + 1).drop_last() =~= iovs@.take(i as int));
                IoVec::lemma_total_prefix(iovs@, i + 1);
            }
            let l = iovs[i].len as u64;
            if l > 0x7fff_ffff_ffff_ffff - sum {
                return Err(Error::SysError(SysErr::EINVAL));
            }
            sum = sum + l;
            i = i + 1;
        }
        proof {
            assert(iovs@.take(n as int) =~= iovs@);
        }
        Ok(sum as i64)
    }

    /// Fills the runs `dsts` of the pool with zeros and returns their
    /// number of bytes. Fails, changing nothing, with `EFAULT` when a run
    /// does not lie inside the pool and with `EINVAL` when the bytes are
    /// more than a result can say.
    pub fn ReadAt(&self, pm: &mut PageMgr, dsts: &[IoVec]) -> (r: Result<i64, Error>)
        requires
            old(pm).wf(),
        ensures
            final(pm).wf(),
            !all_held(old(pm)@, dsts@) ==> r == Err::<i64, Error>(Error::SysError(SysErr::EFAULT))
                && final(pm)@ == old(pm)@,
            all_held(old(pm)@, dsts@) && IoVec::total(dsts@) > i64::MAX ==> r == Err::<i64, Error>(
                Error::SysError(SysErr::EINVAL),
            ) && final(pm)@ == old(pm)@,
            all_held(old(pm)@, dsts@) && IoVec::total(dsts@) <= i64::MAX ==> r == Ok::<i64, Error>(
                IoVec::total(dsts@) as i64,
            ) && final(pm)@ == zero_all(old(pm)@, dsts@),
    {
        let n = dsts.len();
        let mut i: usize = 0;
        while i < n
            invariant
                pm.wf(),
                pm@ == old(pm)@,
                n == dsts@.len(),
                i <= n,
                forall|k: int| 0 <= k < i ==> pm@.holds((#[trigger] dsts@[k]).start as int, dsts@[k].len as int),
            decreases n - i,
        {
            if !pm.Holds(dsts[i].start, dsts[i].len) {
                return Err(Error::SysError(SysErr::EFAULT));
            }
            i = i + 1;
        }
        let done = Self::Count(dsts)?;
        let mut i: usize = 0;
        while i < n
            invariant
                pm.wf(),
                n == dsts@.len(),
                i <= n,
                all_held(old(pm)@, dsts@),
                pm@.base == old(pm)@.base,
                pm@.frames() == old(pm)@.frames(),
                pm@ == zero_all(old(pm)@, dsts@.take(i as int)),
            decreases n - i,
        {
            proof {
                assert(dsts@.take(i + 1).drop_last() =~= dsts@.take(i as int));
            }
            pm.ZeroBytes(dsts[i].start, dsts[i].len);
            i = i + 1;
        }
        proof {
            assert(dsts@.take(n as int) =~= dsts@);
        }
        Ok(done)
    }

    /// Throws the bytes of the runs `srcs` away and returns their number;
    /// `EINVAL` when that is more than a result can say.
    pub fn WriteAt(&self, srcs: &[IoVec]) -> (r: Result<i64, Error>)
        ensures
            IoVec::total(srcs@) <= i64::MAX ==> r == Ok::<i64, Error>(IoVec::total(srcs@) as i64),
            IoVec::total(srcs@) > i64::MAX ==> r == Err::<i64, Error>(
                Error::SysError(SysErr::EINVAL),
            ),
    {
        Self::Count(srcs)
    }

    /// Writes at the end of the device: as `WriteAt`, and the device never
    /// grows.
    pub fn Append(&self, srcs: &[IoVec]) -> (r: Result<(i64, i64), Error>)
        ensures
            IoVec::total(srcs@) <= i64::MAX ==> r == Ok::<(i64, i64), Error>(
                (IoVec::total(srcs@) as i64, 0i64),
            ),
            IoVec::total(srcs@) > i64::MAX ==> r == Err::<(i64, i64), Error>(
                Error::SysError(SysErr::EINVAL),
            ),
    {
        let n = self.WriteAt(srcs)?;
        Ok((n, 0))
    }

    /// The device has nothing that can be mapped: an area over it is
    /// anonymous memory.
    pub fn Mappable(&self) -> (r: Result<u64, Error>)
        ensures
            r == Err::<u64, Error>(Error::SysError(SysErr::ENODEV)),
    {
        Err(Error::SysError(SysErr::ENODEV))
    }
}

} // verus!
