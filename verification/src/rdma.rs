//! Sockets over remote memory: what a socket hands back, and what it tells
//! the host, once its queue or its buffer has been asked.
use vstd::prelude::*;
use crate::linux_def::Error;

verus! {

/// What the host is told of a socket over remote memory.
#[derive(Debug, Copy, Clone, PartialEq, Eq, Structural)]
pub enum RDMANotifyType {
    Read,
    Write,
    Accept,
}

/// A number of bytes as a signed result: its sixty-four bits as they are.
pub open spec fn count_of(n: int) -> int {
    if n <= i64::MAX {
        n
    } else {
        n - 0x1_0000_0000_0000_0000
    }
}

/// A message to the host about the socket `fd`, where `wanted` holds.
pub open spec fn notice(wanted: bool, fd: i32, kind: RDMANotifyType) -> Option<
    (i32, RDMANotifyType),
> {
    if wanted {
        Some((fd, kind))
    } else {
        None
    }
}

/// A number of bytes as a signed result.
pub fn Count(n: usize) -> (r: i64)
    ensures
        r == count_of(n as int),
{
    let m: u64 = n as u64;
    if m <= 0x7fff_ffff_ffff_ffffu64 {
        m as i64
    } else {
        let above: u64 = u64::MAX - m;
        -(above as i64) - 1
    }
}

/// The operations of a socket over remote memory.
pub struct RDMA {}

impl RDMA {
    /// What taking a connection from the queue of the listening socket
    /// `fd` comes to. The queue handed back `taken`: whether the host is
    /// to hear of it, and the connection or why there is none. The result
    /// is the queue's; the host is told of it where the queue asked so.
    pub fn Accept<Item>(fd: i32, taken: (bool, Result<Item, Error>)) -> (r: (
        Result<Item, Error>,
        Option<(i32, RDMANotifyType)>,
    ))
        ensures
            r.0 == taken.1,
            r.1 == notice(taken.0, fd, RDMANotifyType::Accept),
    {
        let (trigger, item) = taken;
        if trigger {
            (item, Some((fd, RDMANotifyType::Accept)))
        } else {
            (item, None)
        }
    }

    /// What reading from the buffer of the socket `fd` comes to. The
    /// buffer handed back `read`: whether the host is to hear of it and
    /// the number of bytes, or why it failed. A failure is handed on and
    /// the host hears nothing; else the result is the number of bytes,
    /// and the host is told where the buffer asked so.
    pub fn Read(fd: i32, read: Result<(bool, usize), Error>) -> (r: (
        Result<i64, Error>,
        Option<(i32, RDMANotifyType)>,
    ))
        ensures
            r == match read {
                Ok((trigger, n)) => (
                    Ok::<i64, Error>(count_of(n as int) as i64),
                    notice(trigger, fd, RDMANotifyType::Read),
                ),
                Err(e) => (Err::<i64, Error>(e), None::<(i32, RDMANotifyType)>),
            },
    {
        match read {
            Ok((trigger, n)) => {
                if trigger {
                    (Ok(Count(n)), Some((fd, RDMANotifyType::Read)))
                } else {
                    (Ok(Count(n)), None)
                }
            },
            Err(e) => (Err(e), None),
        }
    }

    /// What writing to the buffer of the socket `fd` comes to. The buffer
    /// handed back `written`: the number of bytes and the part of the
    /// buffer that is now to be sent, if any, or why it failed. A failure
    /// is handed on and the host hears nothing; else the result is the
    /// number of bytes, and the host is told where there is something to
    /// send.
    pub fn Write(fd: i32, written: Result<(usize, Option<(u64, usize)>), Error>) -> (r: (
        Result<i64, Error>,
        Option<(i32, RDMANotifyType)>,
    ))
        ensures
            r == match written {
                Ok((n, part)) => (
                    Ok::<i64, Error>(count_of(n as int) as i64),
                    notice(part.is_some(), fd, RDMANotifyType::Write),
                ),
                Err(e) => (Err::<i64, Error>(e), None::<(i32, RDMANotifyType)>),
            },
    {
        match written {
            Ok((n, part)) => {
                if part.is_some() {
                    (Ok(Count(n)), Some((fd, RDMANotifyType::Write)))
                } else {
                    (Ok(Count(n)), None)
                }
            },
            Err(e) => (Err(e), None),
        }
    }
}

} // verus!
