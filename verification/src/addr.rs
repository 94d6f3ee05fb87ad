//! Page arithmetic on guest addresses.
use vstd::prelude::*;
use crate::linux_def::{Error, MemoryDef, SysErr};

verus! {

/// The start of the page that holds `a`.
pub open spec fn page_down(a: int) -> int {
    a - a % 4096
}

/// The first page boundary at or above `a`.
pub open spec fn page_up(a: int) -> int {
    if a % 4096 == 0 {
        a
    } else {
        a - a % 4096 + 4096
    }
}

pub open spec fn page_aligned(a: int) -> bool {
    a % 4096 == 0
}

/// `pa` is the address of a whole page below the top of the address
/// space.
pub open spec fn frame_ok(pa: int) -> bool {
    pa % 4096 == 0 && pa + 4096 <= u64::MAX
}

/// A guest address.
#[derive(Clone, Copy, Debug, PartialEq, Eq, Structural)]
pub struct Addr(pub u64);

impl Addr {
    /// Rounds down to a page boundary. Never fails.
    pub fn RoundDown(&self) -> (r: Result<Addr, Error>)
        ensures
            r == Ok::<Addr, Error>(Addr(page_down(self.0 as int) as u64)),
            page_down(self.0 as int) >= 0,
    {
        Ok(Addr(self.0 - self.0 % MemoryDef::PAGE_SIZE))
    }

    /// Rounds up to a page boundary; fails with `EFAULT` when the boundary
    /// does not fit in 64 bits.
    pub fn RoundUp(&self) -> (r: Result<Addr, Error>)
        ensures
            page_up(self.0 as int) <= u64::MAX ==> r == Ok::<Addr, Error>(
                Addr(page_up(self.0 as int) as u64),
            ),
            page_up(self.0 as int) > u64::MAX ==> r == Err::<Addr, Error>(
                Error::SysError(SysErr::EFAULT),
            ),
    {
        let off = self.0 % MemoryDef::PAGE_SIZE;
        if off == 0 {
            Ok(Addr(self.0))
        } else if self.0 - off > u64::MAX - MemoryDef::PAGE_SIZE {
            Err(Error::SysError(SysErr::EFAULT))
        } else {
            Ok(Addr(self.0 - off + MemoryDef::PAGE_SIZE))
        }
    }

    pub fn IsPageAligned(&self) -> (r: bool)
        ensures
            r == page_aligned(self.0 as int),
    {
        self.0 % MemoryDef::PAGE_SIZE == 0
    }

    /// Offset of the address inside its page.
    pub fn PageOffset(&self) -> (r: u64)
        ensures
            r == self.0 % 4096,
    {
        self.0 % MemoryDef::PAGE_SIZE
    }
}

} // verus!
