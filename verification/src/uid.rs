//! The source of identifiers for address spaces.
use vstd::prelude::*;

verus! {

pub type UniqueID = u64;

/// A counter that hands out each identifier once, starting at 1.
pub struct UidService {
    pub next: u64,
}

impl UidService {
    /// A source whose first identifier is 1.
    pub fn New() -> (r: Self)
        ensures
            r.next == 1,
    {
        UidService { next: 1 }
    }
}

/// The next identifier: larger than every one handed out before.
pub fn NewUID(uids: &mut UidService) -> (r: u64)
    requires
        old(uids).next < u64::MAX,
    ensures
        r == old(uids).next,
        final(uids).next == old(uids).next + 1,
{
    let r = uids.next;
    uids.next = r + 1;
    r
}

} // verus!
