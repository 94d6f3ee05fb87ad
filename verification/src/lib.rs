//! A guest-kernel memory manager: virtual memory areas, a page-table model,
//! demand paging, copy-on-write and the user-memory transfer layer, with
//! every operation specified and proved.
#![allow(non_snake_case)]
#![allow(non_camel_case_types)]
#![allow(non_upper_case_globals)]
#![allow(unused_imports)]

pub mod linux_def;
pub mod addr;
pub mod range;
pub mod vma;
pub mod areaset;
pub mod pagemgr;
pub mod pageopts;
pub mod stackvec;
pub mod pagetable;
pub mod mappable;
pub mod arch;
pub mod uid;
pub mod mm;
pub mod blocks;
pub mod translate;
pub mod lifecycle;
pub mod fork;
pub mod plain;
pub mod cstring;
pub mod usermem;
pub mod strings;
pub mod task;
pub mod populate;
pub mod snapshot;
pub mod zero;
pub mod laws;
pub mod roundtrip;
pub mod sharing;
pub mod afterfork;
pub mod qmsg;
pub mod notifier;
pub mod rdma;
pub mod console;
pub mod kernel;

