//! Readiness of host file descriptors: which queue of waiters hears of the
//! events on a descriptor. The calls to the host are made by the caller;
//! here is what is decided before and after them.
use vstd::prelude::*;
use std::collections::HashMap;
use crate::qmsg::EpollEvent;

verus! {

/// A set of events, one bit each.
pub type EventMask = u64;

/// A queue of waiters, by its number.
#[derive(Debug, Default, Copy, Clone, PartialEq, Eq, Structural)]
pub struct Queue(pub u64);

/// Who waits for a file descriptor, and for which events.
#[derive(Debug, Default, Copy, Clone, PartialEq, Eq, Structural)]
pub struct FdWaitInfo {
    pub queue: Queue,
    pub mask: EventMask,
}

/// A queue to wake, and the events to tell it.
#[derive(Debug, Copy, Clone, PartialEq, Eq, Structural)]
pub struct Wakeup {
    pub queue: Queue,
    pub mask: EventMask,
}

/// How the host is to be told which events of a descriptor are awaited.
#[derive(Debug, Copy, Clone, PartialEq, Eq, Structural)]
pub enum FdUpdate {
    /// Through the asynchronous ring, for the poll descriptor `epollfd`.
    Async { fd: i32, epollfd: i32, info: FdWaitInfo },
    /// By a call that waits for the host.
    Sync { fd: i32, info: FdWaitInfo },
}

/// The number that a host call handed back, read as a set of events: its
/// sixty-four bits as they are.
pub open spec fn mask_of(ret: int) -> int {
    if ret >= 0 {
        ret
    } else {
        ret + 0x1_0000_0000_0000_0000
    }
}

/// The file descriptor that an event names: the low thirty-two bits of
/// its data, read as a signed number.
pub open spec fn event_fd(data: int) -> int {
    let low = data % 0x1_0000_0000;
    if low < 0x8000_0000 {
        low
    } else {
        low - 0x1_0000_0000
    }
}

/// The wakeup that the event `e` leads to with the waiters `fds`, if any.
pub open spec fn wakeup_of(fds: Map<i32, FdWaitInfo>, e: EpollEvent) -> Option<Wakeup> {
    let fd = event_fd(e.U64 as int) as i32;
    if fds.dom().contains(fd) {
        Some(Wakeup { queue: fds[fd].queue, mask: e.Event as u64 })
    } else {
        None
    }
}

/// The wakeups that the events lead to, in the order of the events.
pub open spec fn wakeups(fds: Map<i32, FdWaitInfo>, events: Seq<EpollEvent>) -> Seq<Wakeup>
    decreases events.len(),
{
    if events.len() == 0 {
        Seq::<Wakeup>::empty()
    } else {
        let before = wakeups(fds, events.drop_last());
        match wakeup_of(fds, events.last()) {
            Some(w) => before.push(w),
            None => before,
        }
    }
}

/// The events that the host reports for a descriptor, from the number
/// that its poll handed back.
pub fn NonBlockingPoll(ret: i64) -> (r: EventMask)
    ensures
        r == mask_of(ret as int),
{
    if ret >= 0 {
        ret as u64
    } else {
        let below: i64 = -(ret + 1);
        u64::MAX - (below as u64)
    }
}

/// The file descriptor that the event's data names.
pub fn EventFd(data: u64) -> (r: i32)
    ensures
        r == event_fd(data as int),
{
    let low: u64 = data % 0x1_0000_0000u64;
    if low < 0x8000_0000u64 {
        low as i32
    } else {
        let above: u64 = 0xffff_ffffu64 - low;
        -(above as i32) - 1
    }
}

/// The descriptors that the kernel has open on the host, each with its
/// waiters, and how the host is told of them.
pub struct IOMgr {
    pub fds: HashMap<i32, FdWaitInfo>,
    pub epollfd: i32,
    /// Whether updates go through the asynchronous ring.
    pub uringEpollCtl: bool,
}

impl IOMgr {
    /// A manager without descriptors.
    pub fn New(epollfd: i32, uringEpollCtl: bool) -> (r: IOMgr)
        ensures
            r.fds@ == Map::<i32, FdWaitInfo>::empty(),
            r.epollfd == epollfd,
            r.uringEpollCtl == uringEpollCtl,
    {
        IOMgr { fds: HashMap::new(), epollfd, uringEpollCtl }
    }

    /// Takes up the descriptor `fd`, with no queue that awaits anything
    /// yet; a descriptor that is known keeps its waiters.
    pub fn AddFd(&mut self, fd: i32)
        ensures
            final(self).epollfd == old(self).epollfd,
            final(self).uringEpollCtl == old(self).uringEpollCtl,
            old(self).fds@.dom().contains(fd) ==> final(self).fds@ == old(self).fds@,
            !old(self).fds@.dom().contains(fd) ==> final(self).fds@ == old(self).fds@.insert(
                fd,
                FdWaitInfo { queue: Queue(0), mask: 0 },
            ),
    {
        broadcast use vstd::std_specs::hash::group_hash_axioms;

        if !self.fds.contains_key(&fd) {
            self.fds.insert(fd, FdWaitInfo { queue: Queue(0), mask: 0 });
        } else {
            assert(self.fds@ =~= old(self).fds@);
        }
    }

    /// The poll descriptor of the host.
    pub fn Epollfd(&self) -> (r: i32)
        ensures
            r == self.epollfd,
    {
        self.epollfd
    }

    /// The number of the processor that the host woke, from what its wait
    /// handed back. The host's wait must not have failed.
    pub fn VcpuWait(&self, ret: i64) -> (r: u64)
        requires
            ret >= 0,
        ensures
            r == ret,
    {
        ret as u64
    }

    /// The wakeups that the host's events lead to, in their order: one for
    /// each event on a descriptor that is known.
    pub fn ProcessEvents(&self, events: &[EpollEvent]) -> (r: Vec<Wakeup>)
        ensures
            r@ == wakeups(self.fds@, events@),
    {
        let mut out: Vec<Wakeup> = Vec::new();
        let mut i: usize = 0;
        while i < events.len()
            invariant
                0 <= i <= events.len(),
                out@ == wakeups(self.fds@, events@.take(i as int)),
            decreases events.len() - i,
        {
            let e = events[i];
            proof {
                assert(events@.take(i + 1).drop_last() =~= events@.take(i as int));
                assert(events@.take(i + 1).last() == e);
            }
            match self.Notify(EventFd(e.U64), e.Event as u64) {
                Some(w) => {
                    out.push(w);
                },
                None => {},
            }
            i = i + 1;
        }
        proof {
            assert(events@.take(events.len() as int) =~= events@);
        }
        out
    }

    /// What the host is to be told of `fd`: nothing for a descriptor that
    /// is not known; else its waiters, through the ring where updates go
    /// that way, by a call that waits where they do not.
    pub fn UpdateFD(&self, fd: i32) -> (r: Option<FdUpdate>)
        ensures
            r == if !self.fds@.dom().contains(fd) {
                None::<FdUpdate>
            } else if self.uringEpollCtl {
                Some(FdUpdate::Async { fd, epollfd: self.epollfd, info: self.fds@[fd] })
            } else {
                Some(FdUpdate::Sync { fd, info: self.fds@[fd] })
            },
    {
        if self.uringEpollCtl {
            self.UpdateFDAsync(fd)
        } else {
            self.UpdateFDSync(fd)
        }
    }

    /// The waiters of `fd`, if the descriptor is known.
    pub fn FdWaitInfo(&self, fd: i32) -> (r: Option<FdWaitInfo>)
        ensures
            r == if self.fds@.dom().contains(fd) {
                Some(self.fds@[fd])
            } else {
                None::<FdWaitInfo>
            },
    {
        broadcast use vstd::std_specs::hash::group_hash_axioms;

        match self.fds.get(&fd) {
            Some(info) => Some(*info),
            None => None,
        }
    }

    /// The update of `fd` through the ring, if the descriptor is known.
    pub fn UpdateFDAsync(&self, fd: i32) -> (r: Option<FdUpdate>)
        ensures
            r == if self.fds@.dom().contains(fd) {
                Some(FdUpdate::Async { fd, epollfd: self.epollfd, info: self.fds@[fd] })
            } else {
                None::<FdUpdate>
            },
    {
        match self.FdWaitInfo(fd) {
            None => None,
            Some(info) => Some(FdUpdate::Async { fd, epollfd: self.Epollfd(), info }),
        }
    }

    /// The update of `fd` by a call that waits, if the descriptor is
    /// known.
    pub fn UpdateFDSync(&self, fd: i32) -> (r: Option<FdUpdate>)
        ensures
            r == if self.fds@.dom().contains(fd) {
                Some(FdUpdate::Sync { fd, info: self.fds@[fd] })
            } else {
                None::<FdUpdate>
            },
    {
        match self.FdWaitInfo(fd) {
            None => None,
            Some(info) => Some(FdUpdate::Sync { fd, info }),
        }
    }

    /// Makes `queue` the waiters of the descriptor `fd`, which must be
    /// known; they await no event yet.
    pub fn SetWaitInfo(&mut self, fd: i32, queue: Queue)
        requires
            old(self).fds@.dom().contains(fd),
        ensures
            final(self).epollfd == old(self).epollfd,
            final(self).uringEpollCtl == old(self).uringEpollCtl,
            final(self).fds@ == old(self).fds@.insert(fd, FdWaitInfo { queue, mask: 0 }),
    {
        broadcast use vstd::std_specs::hash::group_hash_axioms;

        self.fds.insert(fd, FdWaitInfo { queue, mask: 0 });
    }

    /// Whom to wake for the events `mask` on `fd`: the descriptor's
    /// queue, or nobody where the descriptor is not known.
    pub fn Notify(&self, fd: i32, mask: EventMask) -> (r: Option<Wakeup>)
        ensures
            r == if self.fds@.dom().contains(fd) {
                Some(Wakeup { queue: self.fds@[fd].queue, mask })
            } else {
                None::<Wakeup>
            },
    {
        match self.FdWaitInfo(fd) {
            None => None,
            Some(info) => Some(Wakeup { queue: info.queue, mask }),
        }
    }
}

/// Makes `queue` the waiters of the descriptor `fd` of the manager.
pub fn SetWaitInfo(mgr: &mut IOMgr, fd: i32, queue: Queue)
    requires
        old(mgr).fds@.dom().contains(fd),
    ensures
        final(mgr).epollfd == old(mgr).epollfd,
        final(mgr).uringEpollCtl == old(mgr).uringEpollCtl,
        final(mgr).fds@ == old(mgr).fds@.insert(fd, FdWaitInfo { queue, mask: 0 }),
{
    mgr.SetWaitInfo(fd, queue);
}

/// What the host is to be told of the descriptor `fd` of the manager.
pub fn UpdateFD(mgr: &IOMgr, fd: i32) -> (r: Option<FdUpdate>)
    ensures
        r == if !mgr.fds@.dom().contains(fd) {
            None::<FdUpdate>
        } else if mgr.uringEpollCtl {
            Some(FdUpdate::Async { fd, epollfd: mgr.epollfd, info: mgr.fds@[fd] })
        } else {
            Some(FdUpdate::Sync { fd, info: mgr.fds@[fd] })
        },
{
    mgr.UpdateFD(fd)
}

/// Whom to wake for the events `mask` on the descriptor `fd` of the
/// manager.
pub fn Notify(mgr: &IOMgr, fd: i32, mask: EventMask) -> (r: Option<Wakeup>)
    ensures
        r == if mgr.fds@.dom().contains(fd) {
            Some(Wakeup { queue: mgr.fds@[fd].queue, mask })
        } else {
            None::<Wakeup>
        },
{
    mgr.Notify(fd, mask)
}

} // verus!
