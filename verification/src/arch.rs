//! The layout of an address space: where mappings are searched for and
//! where the stack is anchored.
use vstd::prelude::*;
use crate::addr::{page_down, page_up};
use crate::linux_def::{Error, MemoryDef, SysErr};

verus! {

/// One resource limit.
#[derive(Clone, Copy, Debug, Default, PartialEq, Eq, Structural)]
pub struct Limit {
    pub Cur: u64,
    pub Max: u64,
}

/// The resource limits that the memory manager reads.
#[derive(Clone, Copy, Debug, Default, PartialEq, Eq, Structural)]
pub struct LimitSet {
    /// Limit on the size of the stack.
    pub Stack: Limit,
    /// Limit on the size of the address space.
    pub AS: Limit,
}

/// The direction in which free space is searched for.
#[derive(Clone, Copy, Debug, PartialEq, Eq, Structural)]
pub enum MmapDirection {
    MmapBottomUp,
    MmapTopDown,
}

/// The layout of an address space.
#[derive(Clone, Copy, Debug, PartialEq, Eq, Structural)]
pub struct MmapLayout {
    pub MinAddr: u64,
    pub MaxAddr: u64,
    pub BottomUpBase: u64,
    pub TopDownBase: u64,
    pub DefaultDirection: MmapDirection,
    /// Where the stack is anchored.
    pub StackAddr: u64,
}

impl Default for MmapLayout {
    fn default() -> (r: Self)
        ensures
            r == (MmapLayout {
                MinAddr: 0,
                MaxAddr: 0,
                BottomUpBase: 0,
                TopDownBase: 0,
                DefaultDirection: MmapDirection::MmapBottomUp,
                StackAddr: 0,
            }),
    {
        MmapLayout {
            MinAddr: 0,
            MaxAddr: 0,
            BottomUpBase: 0,
            TopDownBase: 0,
            DefaultDirection: MmapDirection::MmapBottomUp,
            StackAddr: 0,
        }
    }
}

/// The highest address that a layout may reach.
pub const MAX_ADDR64: u64 = 0x7fff_ffff_f000;

/// The smallest gap kept under the stack: 128 MiB and room for 16 GiB of
/// stack.
pub const MIN_GAP64: u64 = 0x4_0800_0000;

/// A value that means "no limit".
pub const INFINITY: u64 = 0xffff_ffff_ffff_ffff;

/// The gap under the stack for a stack limit `stack` in a layout that ends
/// at `max`: the limit, but at least `MIN_GAP64` and at most five sixths of
/// the address space.
pub open spec fn stack_gap(stack: u64, max: u64) -> u64 {
    let cap = (max / 6 * 5) as u64;
    let g = if stack < MIN_GAP64 {
        MIN_GAP64
    } else {
        stack
    };
    if g > cap {
        cap
    } else {
        g
    }
}

/// The layout for the addresses from `min` to `max` under the limits `r`.
pub open spec fn layout_for(min: u64, max: u64, r: LimitSet) -> MmapLayout {
    let lo = page_up(min as int) as u64;
    let top = if max > MAX_ADDR64 {
        MAX_ADDR64
    } else {
        max
    };
    let hi = page_down(top as int) as u64;
    MmapLayout {
        MinAddr: lo,
        MaxAddr: hi,
        BottomUpBase: page_down(hi as int / 3) as u64,
        TopDownBase: page_down(hi - stack_gap(r.Stack.Cur, hi)) as u64,
        DefaultDirection: if r.Stack.Cur == INFINITY {
            MmapDirection::MmapBottomUp
        } else {
            MmapDirection::MmapTopDown
        },
        StackAddr: hi,
    }
}

impl MmapLayout {
    /// The bases lie between the bounds, and the bounds are in order.
    pub open spec fn valid(self) -> bool {
        &&& self.MinAddr <= self.MaxAddr
        &&& self.MinAddr <= self.BottomUpBase <= self.MaxAddr
        &&& self.MinAddr <= self.TopDownBase <= self.MaxAddr
    }

    pub fn Valid(&self) -> (r: bool)
        ensures
            r == self.valid(),
    {
        self.MinAddr <= self.MaxAddr && self.MinAddr <= self.BottomUpBase && self.BottomUpBase
            <= self.MaxAddr && self.MinAddr <= self.TopDownBase && self.TopDownBase
            <= self.MaxAddr
    }

    /// The address at which the stack is anchored.
    pub fn MapStackAddr(&self) -> (r: u64)
        ensures
            r == self.StackAddr,
    {
        self.StackAddr
    }
}

/// Derives the layout for the addresses from `minUserAddr` to
/// `maxUserAddr` under the limits `r`. Fails with `EINVAL` when the lower
/// bound cannot be rounded up to a page, or the layout that comes out is
/// not valid.
pub fn NewMmapLayout(minUserAddr: u64, maxUserAddr: u64, r: &LimitSet) -> (res: Result<
    MmapLayout,
    Error,
>)
    ensures
        (page_up(minUserAddr as int) <= u64::MAX && layout_for(
            minUserAddr,
            maxUserAddr,
            *r,
        ).valid()) ==> res == Ok::<MmapLayout, Error>(layout_for(minUserAddr, maxUserAddr, *r)),
        !(page_up(minUserAddr as int) <= u64::MAX && layout_for(
            minUserAddr,
            maxUserAddr,
            *r,
        ).valid()) ==> res == Err::<MmapLayout, Error>(Error::SysError(SysErr::EINVAL)),
{
    let off = minUserAddr % MemoryDef::PAGE_SIZE;
    if off != 0 && minUserAddr - off > u64::MAX - MemoryDef::PAGE_SIZE {
        return Err(Error::SysError(SysErr::EINVAL));
    }
    let lo = if off == 0 {
        minUserAddr
    } else {
        minUserAddr - off + MemoryDef::PAGE_SIZE
    };
    let top = if maxUserAddr > MAX_ADDR64 {
        MAX_ADDR64
    } else {
        maxUserAddr
    };
    let hi = top - top % MemoryDef::PAGE_SIZE;
    let cap = hi / 6 * 5;
    let mut gap = if r.Stack.Cur < MIN_GAP64 {
        MIN_GAP64
    } else {
        r.Stack.Cur
    };
    if gap > cap {
        gap = cap;
    }
    let third = hi / 3;
    let down = hi - gap;
    let l = MmapLayout {
        MinAddr: lo,
        MaxAddr: hi,
        BottomUpBase: third - third % MemoryDef::PAGE_SIZE,
        TopDownBase: down - down % MemoryDef::PAGE_SIZE,
        DefaultDirection: if r.Stack.Cur == INFINITY {
            MmapDirection::MmapBottomUp
        } else {
            MmapDirection::MmapTopDown
        },
        StackAddr: hi,
    };
    if !l.Valid() {
        return Err(Error::SysError(SysErr::EINVAL));
    }
    Ok(l)
}

} // verus!
