//! Constants, error values and the scatter/gather descriptor shared by the
//! whole memory manager.
use vstd::prelude::*;

verus! {

/// Sizes and fixed addresses of the guest address space.
pub struct MemoryDef {}

impl MemoryDef {
    pub const PAGE_SHIFT: u64 = 12;

    pub const PAGE_SIZE: u64 = 4096;

    pub const PAGE_MASK: u64 = 4095;

    pub const ONE_KB: u64 = 0x400;

    pub const ONE_MB: u64 = 0x10_0000;

    pub const ONE_GB: u64 = 0x4000_0000;

    pub const TWO_MB: u64 = 0x20_0000;

    /// Lower bound of the guest-kernel window (256 GiB).
    pub const PHY_LOWER_ADDR: u64 = 0x40_0000_0000;

    /// Upper bound of the guest-kernel window (512 GiB).
    pub const PHY_UPPER_ADDR: u64 = 0x80_0000_0000;

    /// Top of the lower canonical half.
    pub const LOWER_TOP: u64 = 0x0000_7fff_ffff_ffff;

    pub const UPPER_BOTTOM: u64 = 0xffff_8000_0000_0000;

    /// Lowest address handed out for application mappings.
    pub const VIR_MMAP_START: u64 = 0x80_0000_0000;

    /// First address of the window used for shared loads.
    pub const SHARED_START: u64 = 0x7000_0000_0000;
}

/// Linux error numbers used by the memory manager.
pub struct SysErr {}

impl SysErr {
    pub const ENOMEM: i32 = 12;

    pub const EFAULT: i32 = 14;

    pub const ENODEV: i32 = 19;

    pub const EINVAL: i32 = 22;

    pub const ERANGE: i32 = 34;

    pub const ENAMETOOLONG: i32 = 36;

    pub const EILSEQ: i32 = 84;
}

/// What an operation of the memory manager can fail with.
#[derive(Clone, Copy, Debug, PartialEq, Eq, Structural)]
pub enum Error {
    /// A Linux error number, as handed back to the guest.
    SysError(i32),
    /// The page holding the address has no translation. Internal: a fault-in
    /// is attempted before anything is reported to the guest.
    AddressNotMap(u64),
}

/// One run of bytes: a start address and a length.
#[derive(Clone, Copy, Debug, Default, PartialEq, Eq, Structural)]
pub struct IoVec {
    pub start: u64,
    pub len: usize,
}

pub type Block = IoVec;

impl IoVec {
    pub fn NewFromAddr(start: u64, len: usize) -> (r: Self)
        ensures
            r == (IoVec { start, len }),
    {
        IoVec { start, len }
    }

    pub fn Start(&self) -> (r: u64)
        ensures
            r == self.start,
    {
        self.start
    }

    pub fn Len(&self) -> (r: usize)
        ensures
            r == self.len,
    {
        self.len
    }

    /// One past the last byte, as a mathematical integer.
    pub open spec fn end(self) -> int {
        self.start + self.len
    }

    /// Sum of the lengths of a sequence of runs.
    pub open spec fn total(iovs: Seq<IoVec>) -> int
        decreases iovs.len(),
    {
        if iovs.len() == 0 {
            0
        } else {
            Self::total(iovs.drop_last()) + iovs.last().len
        }
    }

    /// Total number of bytes described by `iovs`.
    pub fn NumBytes(iovs: &[IoVec]) -> (r: usize)
        requires
            Self::total(iovs@) <= usize::MAX,
        ensures
            r == Self::total(iovs@),
    {
        let mut sum: usize = 0;
        let mut i: usize = 0;
        while i < iovs.len()
            invariant
                i <= iovs.len(),
                sum == Self::total(iovs@.take(i as int)),
                Self::total(iovs@) <= usize::MAX,
            decreases iovs.len() - i,
        {
            proof {
                assert(iovs@.take(i + 1).drop_last() =~= iovs@.take(i as int));
                Self::lemma_total_prefix(iovs@, i + 1);
            }
            sum = sum + iovs[i].len;
            i = i + 1;
        }
        proof {
            assert(iovs@.take(i as int) =~= iovs@);
        }
        sum
    }

    /// The total of a prefix never exceeds the total of the whole.
    pub proof fn lemma_total_prefix(iovs: Seq<IoVec>, n: int)
        requires
            0 <= n <= iovs.len(),
        ensures
            0 <= Self::total(iovs.take(n)) <= Self::total(iovs),
        decreases iovs.len() - n,
    {
        if n == iovs.len() {
            assert(iovs.take(n) =~= iovs);
            Self::lemma_total_nonneg(iovs);
        } else {
            Self::lemma_total_prefix(iovs, n + 1);
            Self::lemma_total_nonneg(iovs.take(n));
            assert(iovs.take(n + 1).drop_last() =~= iovs.take(n));
        }
    }

    pub proof fn lemma_total_nonneg(iovs: Seq<IoVec>)
        ensures
            0 <= Self::total(iovs),
        decreases iovs.len(),
    {
        if iovs.len() > 0 {
            Self::lemma_total_nonneg(iovs.drop_last());
        }
    }

}

} // verus!
