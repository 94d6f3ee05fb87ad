use memmgr::addr::Addr;
use memmgr::linux_def::{Error, MemoryDef, SysErr};
use memmgr::mappable::{Mappable, MappableTable};
use memmgr::mm::{FixStep, MemoryManager, MemoryManagerInternal};
use memmgr::pagemgr::PageMgr;
use memmgr::pageopts::PageOpts;
use memmgr::pagetable::PageTables;
use memmgr::range::Range;
use memmgr::uid::UidService;
use memmgr::vma::{AccessType, VMA};

const BASE: u64 = MemoryDef::PHY_LOWER_ADDR;

struct World {
    pm: PageMgr,
    files: MappableTable,
    mm: MemoryManager,
    frames: Vec<u64>,
}

/// An address space with a file of three pages mapped at 0x10000, shared or
/// private, and anonymous memory at 0x20000.
fn world(private: bool) -> World {
    let mut uids = UidService::New();
    let mut pm = PageMgr::New(BASE, 16).unwrap();
    let mut files = MappableTable::New();
    let mut mm = MemoryManager::Empty(&mut uids);
    let mut frames = Vec::new();
    for i in 0..3u8 {
        let f = pm.AllocPage(true).unwrap();
        pm.Ref(f).unwrap();
        pm.WriteBytes(f, &[i + 1], 0, 1);
        frames.push(f);
    }
    let m = files.Add(Mappable::New(1, 2, "/data", frames.clone()).unwrap());
    let mut v = VMA::Anonymous(AccessType::ReadWrite(), "");
    v.mappable = Some(m);
    v.private = private;
    mm.AddVMA(&mut files, &Range::New(0x10000, 0x3000), v).unwrap();
    mm.AddVMA(&mut files, &Range::New(0x20000, 0x2000), VMA::Anonymous(AccessType::ReadWrite(), ""))
        .unwrap();
    World { pm, files, mm, frames }
}

#[test]
fn populate_counts_anonymous_memory_and_maps_nothing() {
    let mut w = world(true);
    let seg = w.mm.data.vmas.FindSeg(0x20000);
    let ar = Range::New(0x20000, 0x2000);
    assert_eq!(w.mm.PopulateVMA(&mut w.pm, &w.files, &seg, &ar, true, false), Ok(()));
    assert_eq!((w.mm.data.curRSS, w.mm.data.maxRSS), (0x2000, 0x2000));
    assert_eq!(w.mm.data.pt.Count(), 0);
    w.mm.data.curRSS = u64::MAX;
    w.mm.data.maxRSS = u64::MAX;
    assert_eq!(
        w.mm.PopulateVMA(&mut w.pm, &w.files, &seg, &ar, true, false),
        Err(Error::SysError(SysErr::ENOMEM))
    );
}

#[test]
fn populate_maps_the_page_of_the_system_calls_at_once() {
    let mut w = world(true);
    let mut seg = w.mm.data.vmas.FindSeg(0x20000);
    seg.value.offset = 0x7000;
    seg.value.effectivePerms = AccessType::Executable();
    let ar = Range::New(0x20000, 0x2000);
    assert_eq!(w.mm.PopulateVMA(&mut w.pm, &w.files, &seg, &ar, false, true), Ok(()));
    assert_eq!(w.mm.data.curRSS, 0);
    assert_eq!(w.mm.VirtualToPhy(0x20000), Ok((0x7000, false)));
    assert_eq!(w.mm.VirtualToPhy(0x21008), Ok((0x8008, false)));
    seg.value.offset = 0x7001;
    assert_eq!(
        w.mm.PopulateVMA(&mut w.pm, &w.files, &seg, &ar, false, true),
        Err(Error::SysError(SysErr::EINVAL))
    );
}

#[test]
fn populate_maps_file_pages_when_asked_to() {
    let mut w = world(false);
    let seg = w.mm.data.vmas.FindSeg(0x10000);
    // Without precommit the pages come with the faults.
    let ar = Range::New(0x11000, 0x2000);
    assert_eq!(w.mm.PopulateVMA(&mut w.pm, &w.files, &seg, &ar, false, false), Ok(()));
    assert_eq!(w.mm.data.pt.Count(), 0);
    assert_eq!(w.mm.data.curRSS, 0x2000);
    assert_eq!(w.mm.PopulateVMA(&mut w.pm, &w.files, &seg, &ar, true, false), Ok(()));
    assert_eq!(w.mm.data.curRSS, 0x4000);
    assert_eq!(w.mm.VirtualToPhy(0x11000), Ok((w.frames[1], true)));
    assert_eq!(w.mm.VirtualToPhy(0x12000), Ok((w.frames[2], true)));
    assert_eq!(w.mm.VirtualToPhy(0x10000), Err(Error::AddressNotMap(0x10000)));
    assert_eq!(w.pm.GetRef(w.frames[1]), Ok(2));
    // A range that is no part of the area.
    assert_eq!(
        w.mm.PopulateVMA(&mut w.pm, &w.files, &seg, &Range::New(0x12000, 0x2000), true, false),
        Err(Error::SysError(SysErr::EINVAL))
    );
    assert_eq!(w.mm.data.curRSS, 0x4000);
}

#[test]
fn populate_maps_private_file_pages_read_only() {
    let mut w = world(true);
    let seg = w.mm.data.vmas.FindSeg(0x10000);
    let ar = Range::New(0x10000, 0x1000);
    assert_eq!(w.mm.PopulateVMA(&mut w.pm, &w.files, &seg, &ar, true, false), Ok(()));
    assert_eq!(w.mm.VirtualToPhy(0x10000), Ok((w.frames[0], false)));
    // A write gets a copy of the page; the object keeps its own.
    assert_eq!(w.mm.CopyInObj::<u8>(&mut w.pm, &w.files, 0x10000), Ok(1));
    assert_eq!(w.mm.CopyOutObj(&mut w.pm, &w.files, &9u8, 0x10000), Ok(()));
    let (copy, writable) = w.mm.VirtualToPhy(0x10000).unwrap();
    assert!(writable && copy != w.frames[0]);
    let mut out = Vec::new();
    w.pm.ReadBytes(w.frames[0], 1, &mut out);
    assert_eq!(out, vec![1]);
    assert_eq!(w.mm.CopyInObj::<u8>(&mut w.pm, &w.files, 0x10000), Ok(9));

    // Resetting the mapping brings the page of the object back.
    assert_eq!(
        w.mm.RetsetFileMapping(&mut w.pm, &w.files, &Range::New(0x10000, 0x1000), true),
        Ok(())
    );
    assert_eq!(w.mm.VirtualToPhy(0x10000), Ok((w.frames[0], true)));
    assert!(!w.pm.IsLive(copy));
    let einval = Err(Error::SysError(SysErr::EINVAL));
    assert_eq!(w.mm.RetsetFileMapping(&mut w.pm, &w.files, &Range::New(0x20000, 0x1000), true), einval);
    assert_eq!(w.mm.RetsetFileMapping(&mut w.pm, &w.files, &Range::New(0x30000, 0x1000), true), einval);
    assert_eq!(w.mm.RetsetFileMapping(&mut w.pm, &w.files, &Range::New(0x12000, 0x2000), true), einval);
}

#[test]
fn populate_after_a_move() {
    let mut w = world(false);
    // Anonymous memory: the leaves move.
    w.mm.FixPermission(&mut w.pm, &w.files, 0x20000, 0x2000, true, false).unwrap();
    let first = w.mm.VirtualToPhy(0x20000).unwrap().0;
    let seg = w.mm.data.vmas.FindSeg(0x20000);
    let ar = Range::New(0x40000, 0x2000);
    let old = Range::New(0x20000, 0x2000);
    assert_eq!(w.mm.PopulateVMARemap(&mut w.pm, &w.files, &seg, &ar, &old, false), Ok(()));
    assert_eq!(w.mm.VirtualToPhy(0x40000), Ok((first, true)));
    assert_eq!(w.mm.VirtualToPhy(0x20000), Err(Error::AddressNotMap(0x20000)));
    assert_eq!(w.pm.GetRef(first), Ok(1));
    assert_eq!(w.mm.data.curRSS, 0);

    // A file mapping: unmapped at the old place, mapped at the new one.
    w.mm.FixPermission(&mut w.pm, &w.files, 0x10000, 0x1000, false, false).unwrap();
    let mut seg = w.mm.data.vmas.FindSeg(0x10000);
    seg.range = Range::New(0x50000, 0x3000);
    let ar = Range::New(0x51000, 0x1000);
    let old = Range::New(0x10000, 0x3000);
    assert_eq!(w.mm.PopulateVMARemap(&mut w.pm, &w.files, &seg, &ar, &old, true), Ok(()));
    assert_eq!(w.mm.VirtualToPhy(0x51000), Ok((w.frames[1], true)));
    assert_eq!(w.mm.VirtualToPhy(0x10000), Err(Error::AddressNotMap(0x10000)));
    assert_eq!(w.mm.data.curRSS, 0x1000);
}

#[test]
fn faults_install_pages() {
    let mut w = world(false);
    // A shared file page that may be written is writable from the start.
    assert_eq!(w.mm.InstallPageWithAddr(&mut w.pm, &w.files, 0x12000), Ok(()));
    assert_eq!(w.mm.VirtualToPhy(0x12000), Ok((w.frames[2], true)));
    // A page that has a leaf stays as it is.
    assert_eq!(w.mm.InstallPageWithAddr(&mut w.pm, &w.files, 0x12000), Ok(()));
    assert_eq!(w.pm.GetRef(w.frames[2]), Ok(2));
    assert_eq!(
        w.mm.InstallPageWithAddr(&mut w.pm, &w.files, 0x30000),
        Err(Error::SysError(SysErr::EFAULT))
    );
    assert_eq!(
        w.mm.InstallPageWithAddr(&mut w.pm, &w.files, 0x20008),
        Err(Error::SysError(SysErr::EINVAL))
    );
    // A page past the end of the object.
    let mut v = VMA::Anonymous(AccessType::ReadWrite(), "");
    v.mappable = Some(0);
    v.offset = 0x2000;
    let r = Range::New(0x60000, 0x2000);
    assert_eq!(w.mm.InstallPage(&mut w.pm, &w.files, &v, 0x60000, &r), Ok(()));
    assert_eq!(
        w.mm.InstallPage(&mut w.pm, &w.files, &v, 0x61000, &r),
        Err(Error::SysError(SysErr::EFAULT))
    );
    // Anonymous memory without a free frame.
    while w.pm.AllocPage(false).is_ok() {}
    assert_eq!(
        w.mm.InstallPageWithAddr(&mut w.pm, &w.files, 0x20000),
        Err(Error::SysError(SysErr::ENOMEM))
    );
    assert_eq!(
        w.mm.FixPermission(&mut w.pm, &w.files, 0x20000, 8, false, true),
        Err(Error::SysError(SysErr::ENOMEM))
    );
    assert!(matches!(
        w.mm.FixPage(&mut w.pm, &w.files, 0x20000, false),
        FixStep::Fail(Error::SysError(SysErr::ENOMEM))
    ));
    assert!(matches!(w.mm.FixPage(&mut w.pm, &w.files, 0x12000, true), FixStep::Next));
}

#[test]
fn copy_on_write_by_hand() {
    let mut w = world(true);
    let vma = w.mm.GetVma(0x20000).unwrap();
    assert_eq!(
        w.mm.CopyOnWriteLocked(&mut w.pm, 0x20000, &vma),
        Err(Error::SysError(SysErr::EFAULT))
    );
    w.mm.FixPermission(&mut w.pm, &w.files, 0x20000, 1, false, false).unwrap();
    let (frame, writable) = w.mm.VirtualToPhy(0x20000).unwrap();
    assert!(!writable);
    // Nobody else holds the frame: it becomes writable in place.
    assert_eq!(w.mm.CopyOnWrite(&mut w.pm, 0x20000, &vma), Ok(()));
    assert_eq!(w.mm.VirtualToPhy(0x20000), Ok((frame, true)));
    assert_eq!(w.mm.CopyOnWrite(&mut w.pm, 0x20000, &vma), Ok(()));
    assert_eq!(w.mm.VirtualToPhy(0x20000), Ok((frame, true)));

    // A second holder: the page gets a frame of its own.
    w.pm.Ref(frame).unwrap();
    assert!(w.mm.MapPageRead(0x20000, frame, &mut w.pm).unwrap());
    assert_eq!(w.pm.GetRef(frame), Ok(2));
    assert_eq!(w.mm.CopyOnWriteLocked(&mut w.pm, 0x20000, &vma), Ok(()));
    let (copy, writable) = w.mm.VirtualToPhy(0x20000).unwrap();
    assert!(writable && copy != frame);
    assert_eq!(w.pm.GetRef(frame), Ok(1));

    assert!(!w.mm.EnableWrite(0x21000));
    assert_eq!(w.mm.MapPageWrite(0x21000, 0x9000, &mut w.pm), Ok(false));
    assert_eq!(w.mm.VirtualToPhy(0x21000), Ok((0x9000, true)));
    // A leaf whose memory is not the pool's cannot be copied.
    assert!(w.mm.MapPageRead(0x21000, 0x9000, &mut w.pm).unwrap());
    assert_eq!(
        w.mm.CopyOnWriteLocked(&mut w.pm, 0x21000, &vma),
        Err(Error::SysError(SysErr::EFAULT))
    );
    assert_eq!(
        w.mm.MapPage(Addr(0x21000), Addr(0x9001), PageOpts::UserReadOnly().Val(), &mut w.pm),
        Err(Error::SysError(SysErr::EINVAL))
    );
    assert_eq!(w.mm.data.VirtualToPhy(0x21004), Ok((0x9004, false)));
}

#[test]
fn the_root_address_space() {
    let mut uids = UidService::New();
    let mut pm = PageMgr::New(BASE, 4).unwrap();
    let mut kernel = PageTables::New(&mut pm).unwrap();
    let k = pm.AllocPage(true).unwrap();
    kernel
        .MapPage(Addr(MemoryDef::PHY_LOWER_ADDR), Addr(k), PageOpts::KernelReadWrite().Val(), &mut pm)
        .unwrap();
    let mm = MemoryManager::Init(&mut uids, &mut kernel, &mut pm).unwrap();
    assert!(mm.data.inited);
    assert_eq!(mm.uid, 1);
    assert_eq!(mm.data.vmas.Count(), 1);
    let area = mm.GetVmaAndRange(MemoryDef::PHY_LOWER_ADDR + 5).unwrap();
    assert!(area.0.kernel && area.0.fixed && area.0.private);
    assert_eq!(area.0.hint, "Kernel Space");
    assert_eq!(
        area.1,
        Range::New(MemoryDef::PHY_LOWER_ADDR, MemoryDef::PHY_UPPER_ADDR - MemoryDef::PHY_LOWER_ADDR)
    );
    assert_eq!(mm.GetVma(MemoryDef::PHY_UPPER_ADDR), None);
    assert_eq!(mm.data.vmas.range, Range::New(0, u64::MAX));
    assert_eq!(mm.data.usageAS, 0);
    assert_eq!(mm.data.layout.MinAddr, MemoryDef::VIR_MMAP_START);
    assert_eq!(mm.data.layout.MaxAddr, MemoryDef::LOWER_TOP);
    assert_eq!(mm.data.sharedLoadsOffset, MemoryDef::SHARED_START);
    // The table is a fork of the kernel's.
    assert_eq!(mm.VirtualToPhy(MemoryDef::PHY_LOWER_ADDR), Ok((k, true)));
    assert_eq!(pm.GetRef(k), Ok(2));
    assert_ne!(mm.GetRoot(), kernel.GetRoot());

    while pm.AllocPage(false).is_ok() {}
    assert!(matches!(
        MemoryManagerInternal::Init(&mut kernel, &mut pm),
        Err(Error::SysError(SysErr::ENOMEM))
    ));
    assert_eq!(MemoryManagerInternal::default().vmas.range, Range::New(0, MemoryDef::LOWER_TOP));
}
