use memmgr::console::{ConsoleStep, NewWithSocket};
use memmgr::linux_def::{Error, SysErr};
use memmgr::notifier::{
    EventFd, FdUpdate, FdWaitInfo, IOMgr, NonBlockingPoll, Notify, Queue, SetWaitInfo, UpdateFD,
    Wakeup,
};
use memmgr::qmsg::EpollEvent;
use memmgr::rdma::{Count, RDMANotifyType, RDMA};

#[test]
fn poll_result_is_read_as_event_bits() {
    assert_eq!(NonBlockingPoll(0), 0);
    assert_eq!(NonBlockingPoll(0x19), 0x19);
    assert_eq!(NonBlockingPoll(i64::MAX), 0x7fff_ffff_ffff_ffff);
    assert_eq!(NonBlockingPoll(-1), u64::MAX);
    assert_eq!(NonBlockingPoll(-9), 0xffff_ffff_ffff_fff7);
    assert_eq!(NonBlockingPoll(i64::MIN), 0x8000_0000_0000_0000);
}

#[test]
fn event_names_descriptor_in_low_half() {
    assert_eq!(EventFd(0), 0);
    assert_eq!(EventFd(7), 7);
    assert_eq!(EventFd(0x1234_0000_0007), 7);
    assert_eq!(EventFd(0x7fff_ffff), i32::MAX);
    assert_eq!(EventFd(0x8000_0000), i32::MIN);
    assert_eq!(EventFd(0xffff_ffff), -1);
    assert_eq!(EventFd(u64::MAX), -1);
}

#[test]
fn vcpu_wait_hands_on_the_number() {
    let mgr = IOMgr::New(3, false);
    assert_eq!(mgr.VcpuWait(0), 0);
    assert_eq!(mgr.VcpuWait(5), 5);
    assert_eq!(mgr.VcpuWait(i64::MAX), i64::MAX as u64);
    assert_eq!(mgr.Epollfd(), 3);
}

#[test]
fn unknown_descriptor_has_no_waiters() {
    let mgr = IOMgr::New(3, true);
    assert_eq!(mgr.FdWaitInfo(4), None);
    assert_eq!(mgr.UpdateFD(4), None);
    assert_eq!(mgr.UpdateFDAsync(4), None);
    assert_eq!(mgr.UpdateFDSync(4), None);
    assert_eq!(mgr.Notify(4, 1), None);
    assert_eq!(UpdateFD(&mgr, 4), None);
    assert_eq!(Notify(&mgr, 4, 1), None);
}

#[test]
fn set_wait_info_replaces_the_queue() {
    let mut mgr = IOMgr::New(3, false);
    mgr.AddFd(4);
    mgr.AddFd(9);
    assert_eq!(mgr.FdWaitInfo(4), Some(FdWaitInfo { queue: Queue(0), mask: 0 }));
    mgr.SetWaitInfo(4, Queue(17));
    SetWaitInfo(&mut mgr, 9, Queue(18));
    assert_eq!(mgr.FdWaitInfo(4), Some(FdWaitInfo { queue: Queue(17), mask: 0 }));
    assert_eq!(mgr.FdWaitInfo(9), Some(FdWaitInfo { queue: Queue(18), mask: 0 }));
    // A descriptor that is taken up again keeps its waiters.
    mgr.AddFd(4);
    assert_eq!(mgr.FdWaitInfo(4), Some(FdWaitInfo { queue: Queue(17), mask: 0 }));
    assert_eq!(mgr.FdWaitInfo(9), Some(FdWaitInfo { queue: Queue(18), mask: 0 }));
    assert_eq!(mgr.FdWaitInfo(5), None);
}

#[test]
fn update_goes_the_configured_way() {
    let mut ring = IOMgr::New(3, true);
    ring.AddFd(4);
    ring.SetWaitInfo(4, Queue(17));
    let info = FdWaitInfo { queue: Queue(17), mask: 0 };
    assert_eq!(ring.UpdateFD(4), Some(FdUpdate::Async { fd: 4, epollfd: 3, info }));
    assert_eq!(UpdateFD(&ring, 4), Some(FdUpdate::Async { fd: 4, epollfd: 3, info }));
    assert_eq!(ring.UpdateFDSync(4), Some(FdUpdate::Sync { fd: 4, info }));

    let mut call = IOMgr::New(3, false);
    call.AddFd(4);
    call.SetWaitInfo(4, Queue(17));
    assert_eq!(call.UpdateFD(4), Some(FdUpdate::Sync { fd: 4, info }));
    assert_eq!(call.UpdateFDAsync(4), Some(FdUpdate::Async { fd: 4, epollfd: 3, info }));
}

#[test]
fn events_wake_the_queues_of_known_descriptors() {
    let mut mgr = IOMgr::New(3, false);
    mgr.AddFd(4);
    mgr.AddFd(-1);
    mgr.SetWaitInfo(4, Queue(17));
    mgr.SetWaitInfo(-1, Queue(99));
    assert_eq!(mgr.Notify(4, 0x5), Some(Wakeup { queue: Queue(17), mask: 0x5 }));
    assert_eq!(Notify(&mgr, 4, 0x5), Some(Wakeup { queue: Queue(17), mask: 0x5 }));
    let events = [
        EpollEvent { Event: 0x1, U64: 4 },
        EpollEvent { Event: 0x4, U64: 5 },
        EpollEvent { Event: 0x8000_0010, U64: 0x7_0000_0004 },
        EpollEvent { Event: 0x2, U64: 0xffff_ffff },
        EpollEvent { Event: 0x1, U64: 4 },
    ];
    assert_eq!(
        mgr.ProcessEvents(&events),
        vec![
            Wakeup { queue: Queue(17), mask: 0x1 },
            Wakeup { queue: Queue(17), mask: 0x8000_0010 },
            Wakeup { queue: Queue(99), mask: 0x2 },
            Wakeup { queue: Queue(17), mask: 0x1 },
        ]
    );
    assert_eq!(mgr.ProcessEvents(&[]), Vec::<Wakeup>::new());
    assert_eq!(IOMgr::New(3, false).ProcessEvents(&events), Vec::<Wakeup>::new());
}

#[test]
fn byte_count_as_signed_result() {
    assert_eq!(Count(0), 0);
    assert_eq!(Count(4096), 4096);
    assert_eq!(Count(usize::MAX), usize::MAX as i64);
}

#[test]
fn accept_hands_on_what_the_queue_gave() {
    let eagain = Error::SysError(11);
    assert_eq!(RDMA::Accept(7, (false, Ok(42u32))), (Ok(42u32), None));
    assert_eq!(RDMA::Accept(7, (true, Ok(42u32))), (Ok(42u32), Some((7, RDMANotifyType::Accept))));
    assert_eq!(RDMA::Accept::<u32>(7, (false, Err(eagain))), (Err(eagain), None));
    // The host hears of an empty queue too where the queue asks so.
    assert_eq!(
        RDMA::Accept::<u32>(7, (true, Err(eagain))),
        (Err(eagain), Some((7, RDMANotifyType::Accept)))
    );
}

#[test]
fn read_tells_the_host_where_the_buffer_asks() {
    let efault = Error::SysError(SysErr::EFAULT);
    assert_eq!(RDMA::Read(7, Ok((false, 100))), (Ok(100), None));
    assert_eq!(RDMA::Read(7, Ok((true, 100))), (Ok(100), Some((7, RDMANotifyType::Read))));
    assert_eq!(RDMA::Read(7, Ok((true, 0))), (Ok(0), Some((7, RDMANotifyType::Read))));
    assert_eq!(RDMA::Read(7, Err(efault)), (Err(efault), None));
}

#[test]
fn write_tells_the_host_where_something_is_to_send() {
    let efault = Error::SysError(SysErr::EFAULT);
    assert_eq!(RDMA::Write(7, Ok((100, None))), (Ok(100), None));
    assert_eq!(
        RDMA::Write(7, Ok((100, Some((0x1000, 100))))),
        (Ok(100), Some((7, RDMANotifyType::Write)))
    );
    assert_eq!(RDMA::Write(7, Ok((0, None))), (Ok(0), None));
    assert_eq!(RDMA::Write(7, Err(efault)), (Err(efault), None));
}

#[test]
fn console_opens_in_three_steps() {
    let s = NewWithSocket(ConsoleStep::OpenMaster, Ok(5));
    assert_eq!(s, ConsoleStep::Connect { master: 5 });
    let s = NewWithSocket(s, Ok(6));
    assert_eq!(s, ConsoleStep::SendFd { master: 5, client: 6 });
    let s = NewWithSocket(s, Ok(0));
    assert_eq!(s, ConsoleStep::Done(Ok(5)));
    assert_eq!(NewWithSocket(s, Ok(9)), ConsoleStep::Done(Ok(5)));
    assert_eq!(NewWithSocket(s, Err(Error::SysError(1))), ConsoleStep::Done(Ok(5)));
}

#[test]
fn console_stops_at_the_first_failure() {
    let enoent = Error::SysError(2);
    let epipe = Error::SysError(32);
    assert_eq!(NewWithSocket(ConsoleStep::OpenMaster, Err(enoent)), ConsoleStep::Done(Err(enoent)));
    assert_eq!(
        NewWithSocket(ConsoleStep::Connect { master: 5 }, Err(enoent)),
        ConsoleStep::Done(Err(enoent))
    );
    assert_eq!(
        NewWithSocket(ConsoleStep::SendFd { master: 5, client: 6 }, Err(epipe)),
        ConsoleStep::Done(Err(epipe))
    );
    assert_eq!(
        NewWithSocket(ConsoleStep::Done(Err(enoent)), Ok(1)),
        ConsoleStep::Done(Err(enoent))
    );
}
