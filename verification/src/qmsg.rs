//! Messages from the host to the guest kernel.
use vstd::prelude::*;

verus! {

/// The host tells the kernel that a timer has fired.
#[derive(Debug, Default, Copy, Clone, PartialEq, Eq, Structural)]
pub struct FireTimer {
    pub TimerId: u64,
    pub SeqNo: u64,
}

/// The host tells the kernel that a file descriptor is ready.
#[derive(Debug, Default, Copy, Clone, PartialEq, Eq, Structural)]
pub struct FdNotify {
    pub fd: i32,
    pub mask: u32,
}

/// The host's answer to a buffered write.
#[derive(Debug, Default, Copy, Clone, PartialEq, Eq, Structural)]
pub struct IOBufWriteResp {
    pub fd: i32,
    pub addr: u64,
    pub len: usize,
    pub ret: i64,
}

/// The host's answer to a request to print.
#[derive(Debug, Default, Copy, Clone, PartialEq, Eq, Structural)]
pub struct PrintStrResp {
    pub addr: u64,
    pub len: usize,
}

/// A message from the host.
#[derive(Debug, Copy, Clone, PartialEq, Eq)]
pub enum HostInputMsg {
    FireTimer(FireTimer),
    FdNotify(FdNotify),
    IOBufWriteResp(IOBufWriteResp),
    PrintStrResp(PrintStrResp),
    WakeIOThreadResp(()),
}

/// One event of the host's poll: the events that are ready, and the file
/// descriptor in the low half of `U64`.
#[derive(Default, Copy, Clone, Debug, PartialEq, Eq, Structural)]
pub struct EpollEvent {
    pub Event: u32,
    pub U64: u64,
}

} // verus!
