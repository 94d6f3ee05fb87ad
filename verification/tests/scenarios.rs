use memmgr::areaset::AreaEntry;
use memmgr::linux_def::{Error, MemoryDef, SysErr};
use memmgr::mappable::{Mappable, MappableTable};
use memmgr::mm::MemoryManager;
use memmgr::pagemgr::PageMgr;
use memmgr::pagetable::{Cpu, PageTables};
use memmgr::range::Range;
use memmgr::uid::UidService;
use memmgr::vma::{AccessType, VMA};

const BASE: u64 = MemoryDef::PHY_LOWER_ADDR;

fn world(frames: usize) -> (UidService, PageMgr, MappableTable, MemoryManager) {
    let mut uids = UidService::New();
    let pm = PageMgr::New(BASE, frames).unwrap();
    let files = MappableTable::New();
    let mm = MemoryManager::Empty(&mut uids);
    (uids, pm, files, mm)
}

fn anon_rw() -> VMA {
    VMA::Anonymous(AccessType::ReadWrite(), "")
}

#[test]
fn fault_in_anonymous_pages() {
    let (_uids, mut pm, mut files, mut mm) = world(16);
    let addr: u64 = 0x40_000_000;
    mm.AddVMA(&mut files, &Range::New(addr, 0x4000), anon_rw()).unwrap();
    assert_eq!(mm.VirtualToPhy(addr), Err(Error::AddressNotMap(addr)));

    let n = mm.FixPermission(&mut pm, &files, addr, 8192, true, false);
    assert_eq!(n, Ok(8192));

    assert_eq!(mm.data.pt.Count(), 2);
    assert_eq!(mm.VirtualToPhy(addr), Ok((BASE, true)));
    assert_eq!(mm.VirtualToPhy(addr + 4096 + 5), Ok((BASE + 4096 + 5, true)));
    assert_eq!(mm.VirtualToPhy(addr + 8192), Err(Error::AddressNotMap(addr + 8192)));
    assert_eq!(pm.GetRef(BASE), Ok(1));
    assert_eq!(pm.GetRef(BASE + 4096), Ok(1));
    assert_eq!(pm.GetRef(BASE + 8192), Err(Error::SysError(SysErr::EFAULT)));
}

#[test]
fn fault_in_for_reading_leaves_private_pages_read_only() {
    let (_uids, mut pm, mut files, mut mm) = world(16);
    let addr: u64 = 0x40_000_000;
    mm.AddVMA(&mut files, &Range::New(addr, 0x2000), anon_rw()).unwrap();
    assert_eq!(mm.FixPermission(&mut pm, &files, addr + 1, 10, false, false), Ok(10));
    assert_eq!(mm.VirtualToPhy(addr + 1), Ok((BASE + 1, false)));
    assert_eq!(mm.data.pt.Count(), 1);
}

#[test]
fn copy_on_write_after_fork() {
    let (mut uids, mut pm, mut files, mut parent) = world(16);
    let page: u64 = 0x40_000_000;
    parent.AddVMA(&mut files, &Range::New(page, 0x1000), anon_rw()).unwrap();

    parent.CopyOutObj(&mut pm, &files, &0xAAu8, page).unwrap();
    let (frame, writable) = parent.VirtualToPhy(page).unwrap();
    assert!(writable);
    assert_eq!(pm.GetRef(frame), Ok(1));

    let mut child = parent.Fork(&mut uids, &mut files, &mut pm).unwrap();
    assert_eq!(child.data.vmas.segs, parent.data.vmas.segs);
    assert_eq!(parent.VirtualToPhy(page), Ok((frame, false)));
    assert_eq!(child.VirtualToPhy(page), Ok((frame, false)));
    assert_eq!(pm.GetRef(frame), Ok(2));

    assert_eq!(child.CopyInObj::<u8>(&mut pm, &files, page), Ok(0xAA));

    parent.CopyOutObj(&mut pm, &files, &0xBBu8, page).unwrap();
    let (copy, writable) = parent.VirtualToPhy(page).unwrap();
    assert!(writable);
    assert_ne!(copy, frame);
    assert_eq!(pm.GetRef(frame), Ok(1));
    assert_eq!(pm.GetRef(copy), Ok(1));

    assert_eq!(child.CopyInObj::<u8>(&mut pm, &files, page), Ok(0xAA));
    assert_eq!(parent.CopyInObj::<u8>(&mut pm, &files, page), Ok(0xBB));
    assert_eq!(child.VirtualToPhy(page), Ok((frame, false)));

    // The child is the only holder now: its write goes to the frame itself.
    child.CopyOutObj(&mut pm, &files, &0xCCu8, page).unwrap();
    assert_eq!(child.VirtualToPhy(page), Ok((frame, true)));
    assert_eq!(parent.CopyInObj::<u8>(&mut pm, &files, page), Ok(0xBB));
}

#[test]
fn fork_gives_the_child_the_parents_areas_and_accounting() {
    let (mut uids, mut pm, mut files, mut parent) = world(16);
    parent.AddVMA(&mut files, &Range::New(0x10000, 0x3000), anon_rw()).unwrap();
    parent
        .AddVMA(
            &mut files,
            &Range::New(0x40000, 0x1000),
            VMA::Anonymous(AccessType::ReadOnly(), "[stack]"),
        )
        .unwrap();
    parent.data.BrkSetup(0x5000);
    let child = parent.Fork(&mut uids, &mut files, &mut pm).unwrap();
    assert_eq!(child.uid, parent.uid + 1);
    assert!(child.data.inited);
    assert_eq!(child.data.vmas.segs, parent.data.vmas.segs);
    assert_eq!(child.data.vmas.range, parent.data.vmas.range);
    assert_eq!(child.data.usageAS, 0x4000);
    assert_eq!(child.data.brkInfo, parent.data.brkInfo);
    assert_eq!(child.data.layout, parent.data.layout);
    assert_ne!(child.GetRoot(), 0);
    assert_eq!(pm.GetRef(child.GetRoot()), Ok(1));
}

#[test]
fn fork_fails_without_a_frame_for_the_root() {
    let (mut uids, mut pm, mut files, mut parent) = world(1);
    let page: u64 = 0x40_000_000;
    parent.AddVMA(&mut files, &Range::New(page, 0x1000), anon_rw()).unwrap();
    parent.CopyOutObj(&mut pm, &files, &1u8, page).unwrap();
    let before = parent.VirtualToPhy(page);
    let r = parent.Fork(&mut uids, &mut files, &mut pm);
    assert!(matches!(r, Err(Error::SysError(SysErr::ENOMEM))));
    assert_eq!(parent.VirtualToPhy(page), before);
}

#[test]
fn clear_on_exec() {
    let mut uids = UidService::New();
    let mut pm = PageMgr::New(BASE, 32).unwrap();
    let mut files = MappableTable::New();
    let mut kernel = PageTables::New(&mut pm).unwrap();
    let mut mm = MemoryManager::Init(&mut uids, &mut kernel, &mut pm).unwrap();
    assert_eq!(mm.data.vmas.Count(), 1);

    let frame = pm.AllocPage(true).unwrap();
    // The object holds a reference of its own to its frame.
    assert_eq!(pm.Ref(frame), Ok(1));
    let file = Mappable::New(3, 7, "/bin/app", vec![frame]).unwrap();
    let m = files.Add(file);

    let mut file_vma = anon_rw();
    file_vma.mappable = Some(m);
    file_vma.private = false;
    mm.AddVMA(&mut files, &Range::New(0x10000, 0x1000), file_vma).unwrap();
    mm.AddVMA(&mut files, &Range::New(0x20000, 0x2000), anon_rw()).unwrap();
    mm.AddVMA(&mut files, &Range::New(0x80_0000_0000, 0x1000), anon_rw()).unwrap();
    assert_eq!(mm.data.vmas.Count(), 4);
    assert_eq!(mm.data.usageAS, 0x4000);
    assert_eq!(files.files[0].MappedBy(mm.uid), 0x1000);

    assert_eq!(mm.FixPermission(&mut pm, &files, 0x10000, 1, true, false), Ok(1));
    assert_eq!(mm.FixPermission(&mut pm, &files, 0x20000, 0x2000, true, false), Ok(0x2000));
    assert_eq!(mm.VirtualToPhy(0x10000), Ok((frame, true)));
    assert_eq!(mm.data.pt.Count(), 3);
    let anon = mm.VirtualToPhy(0x20000).unwrap().0;

    let mut cpu = Cpu { cr3: mm.GetRoot() };
    assert_eq!(mm.Clear(&mut cpu, &kernel, &mut files, &mut pm), Ok(()));

    assert_eq!(cpu.cr3, kernel.GetRoot());
    assert_eq!(mm.data.vmas.Count(), 1);
    assert!(mm.data.vmas.segs[0].vma.kernel);
    assert_eq!(mm.data.usageAS, 0);
    assert_eq!(mm.data.pt.Count(), 0);
    assert_eq!(files.files[0].MappedBy(mm.uid), 0);
    assert_eq!(mm.GetVma(0x10000), None);
    assert_eq!(mm.GetVma(0x20000), None);
    assert_eq!(mm.GetVma(0x80_0000_0000), None);
    assert!(mm.GetVma(MemoryDef::PHY_LOWER_ADDR).unwrap().kernel);
    // The anonymous frame is free again; the object keeps its own.
    assert!(!pm.IsLive(anon));
    assert!(pm.IsLive(frame));
}

#[test]
fn clear_leaves_an_inactive_table_alone() {
    let (_uids, mut pm, mut files, mut mm) = world(8);
    let kernel = PageTables::Empty();
    let mut cpu = Cpu { cr3: 0x1234_000 };
    mm.AddVMA(&mut files, &Range::New(0x10000, 0x1000), anon_rw()).unwrap();
    assert_eq!(mm.Clear(&mut cpu, &kernel, &mut files, &mut pm), Ok(()));
    assert_eq!(cpu.cr3, 0x1234_000);
    assert!(mm.data.vmas.IsEmpty());
}

#[test]
fn areas_stay_sorted_and_disjoint() {
    let (_uids, _pm, mut files, mut mm) = world(1);
    mm.AddVMA(&mut files, &Range::New(0x30000, 0x1000), anon_rw()).unwrap();
    mm.AddVMA(&mut files, &Range::New(0x10000, 0x2000), anon_rw()).unwrap();
    mm.AddVMA(&mut files, &Range::New(0x20000, 0x1000), anon_rw()).unwrap();
    let starts: Vec<u64> = mm.data.vmas.segs.iter().map(|e: &AreaEntry| e.range.start).collect();
    assert_eq!(starts, vec![0x10000, 0x20000, 0x30000]);
    for w in mm.data.vmas.segs.windows(2) {
        assert!(w[0].range.start + w[0].range.len <= w[1].range.start);
    }
    // An overlapping area is refused and changes nothing.
    assert_eq!(
        mm.AddVMA(&mut files, &Range::New(0x11000, 0x1000), anon_rw()),
        Err(Error::SysError(SysErr::ENOMEM))
    );
    assert_eq!(mm.data.vmas.Count(), 3);
    assert_eq!(mm.data.usageAS, 0x4000);
}

#[test]
fn add_vma_rejects_bad_ranges() {
    let (_uids, _pm, mut files, mut mm) = world(1);
    let einval = Err(Error::SysError(SysErr::EINVAL));
    assert_eq!(mm.AddVMA(&mut files, &Range::New(0x10000, 0), anon_rw()), einval);
    assert_eq!(mm.AddVMA(&mut files, &Range::New(0x10001, 0x1000), anon_rw()), einval);
    assert_eq!(mm.AddVMA(&mut files, &Range::New(0x10000, 0x1001), anon_rw()), einval);
    assert_eq!(mm.AddVMA(&mut files, &Range::New(u64::MAX - 0xfff, 0x2000), anon_rw()), einval);
    // Rights beyond the largest rights.
    let mut wide = anon_rw();
    wide.maxPerms = AccessType::ReadOnly();
    assert_eq!(mm.AddVMA(&mut files, &Range::New(0x10000, 0x1000), wide), einval);
    // Outside the domain of the set.
    assert_eq!(
        mm.AddVMA(&mut files, &Range::New(0x8000_0000_0000, 0x1000), anon_rw()),
        Err(Error::SysError(SysErr::ENOMEM))
    );
    // A backing object that the table does not have.
    let mut v = anon_rw();
    v.mappable = Some(5);
    assert_eq!(
        mm.AddVMA(&mut files, &Range::New(0x10000, 0x1000), v),
        Err(Error::SysError(SysErr::EFAULT))
    );
    assert!(mm.data.vmas.IsEmpty());
}

#[test]
fn remove_vmas_splits_areas_at_the_ends_of_the_range() {
    let (_uids, mut pm, mut files, mut mm) = world(16);
    mm.AddVMA(&mut files, &Range::New(0x10000, 0x4000), anon_rw()).unwrap();
    mm.AddVMA(&mut files, &Range::New(0x20000, 0x2000), anon_rw()).unwrap();
    assert_eq!(mm.FixPermission(&mut pm, &files, 0x10000, 0x4000, true, false), Ok(0x4000));
    mm.data.AddRssLock(&Range::New(0, 0x3000));
    let uid = mm.uid;

    let r = mm.data.RemoveVMAsLocked(uid, &mut files, &mut pm, &Range::New(0x11000, 0x2000));
    assert_eq!(r, Ok(()));

    let ranges: Vec<Range> = mm.data.vmas.segs.iter().map(|e: &AreaEntry| e.range).collect();
    assert_eq!(
        ranges,
        vec![Range::New(0x10000, 0x1000), Range::New(0x13000, 0x1000), Range::New(0x20000, 0x2000)]
    );
    assert_eq!(mm.data.usageAS, 0x4000);
    assert_eq!(mm.data.curRSS, 0x1000);
    assert_eq!(mm.data.maxRSS, 0x3000);
    assert!(mm.VirtualToPhy(0x10000).is_ok());
    assert_eq!(mm.VirtualToPhy(0x11000), Err(Error::AddressNotMap(0x11000)));
    assert_eq!(mm.VirtualToPhy(0x12000), Err(Error::AddressNotMap(0x12000)));
    assert!(mm.VirtualToPhy(0x13000).is_ok());
    assert_eq!(mm.data.pt.Count(), 2);

    // An empty range removes nothing.
    let r = mm.data.RemoveVMAsLocked(uid, &mut files, &mut pm, &Range::New(0x10800, 0));
    assert_eq!(r, Ok(()));
    assert_eq!(mm.data.vmas.Count(), 3);
}

#[test]
fn file_areas_move_their_offset_when_split() {
    let (_uids, mut pm, mut files, mut mm) = world(16);
    let frames: Vec<u64> = (0..4).map(|_| pm.AllocPage(true).unwrap()).collect();
    let m = files.Add(Mappable::New(1, 2, "f", frames.clone()).unwrap());
    let mut v = anon_rw();
    v.mappable = Some(m);
    v.offset = 0x1000;
    mm.AddVMA(&mut files, &Range::New(0x10000, 0x3000), v).unwrap();
    assert_eq!(files.files[0].MappedBy(mm.uid), 0x3000);
    let uid = mm.uid;
    mm.data.RemoveVMAsLocked(uid, &mut files, &mut pm, &Range::New(0x11000, 0x1000)).unwrap();
    assert_eq!(mm.data.vmas.Count(), 2);
    assert_eq!(mm.data.vmas.segs[0].vma.offset, 0x1000);
    assert_eq!(mm.data.vmas.segs[1].range, Range::New(0x12000, 0x1000));
    assert_eq!(mm.data.vmas.segs[1].vma.offset, 0x3000);
    assert_eq!(files.files[0].MappedBy(uid), 0x2000);
    // A fault on the second part finds the page of the object at its offset.
    assert_eq!(mm.FixPermission(&mut pm, &files, 0x12000, 1, false, false), Ok(1));
    assert_eq!(mm.VirtualToPhy(0x12000), Ok((frames[3], false)));
}

#[test]
fn copy_on_write_invalidates_the_page() {
    let (mut uids, mut pm, mut files, mut parent) = world(16);
    let page: u64 = 0x40_000_000;
    parent.AddVMA(&mut files, &Range::New(page, 0x2000), anon_rw()).unwrap();
    parent.CopyOutObj(&mut pm, &files, &1u8, page).unwrap();
    // The page was installed read-only and then made writable in place.
    assert_eq!(parent.data.pt.TakeInvalidated(), vec![page]);
    let mut child = parent.Fork(&mut uids, &mut files, &mut pm).unwrap();
    assert_eq!(parent.data.pt.TakeInvalidated(), vec![page]);
    child.data.pt.TakeInvalidated();
    parent.CopyOutObj(&mut pm, &files, &2u8, page).unwrap();
    assert_eq!(parent.data.pt.TakeInvalidated(), vec![page]);
    assert!(child.data.pt.invalidated.is_empty());
    // Reading changes no translation.
    child.CopyInObj::<u8>(&mut pm, &files, page).unwrap();
    assert!(child.data.pt.invalidated.is_empty());
}

#[test]
fn fork_shares_private_pages_and_copies_shared_ones() {
    let (mut uids, mut pm, mut files, mut parent) = world(16);
    let private: u64 = 0x4000_0000;
    let shared: u64 = 0x5000_0000;
    parent.AddVMA(&mut files, &Range::New(private, 0x1000), anon_rw()).unwrap();
    let mut open = anon_rw();
    open.private = false;
    parent.AddVMA(&mut files, &Range::New(shared, 0x1000), open).unwrap();
    parent.CopyOutObj(&mut pm, &files, &0xAAu8, private).unwrap();
    parent.CopyOutObj(&mut pm, &files, &0x55u8, shared).unwrap();
    let (kept, _) = parent.VirtualToPhy(private).unwrap();
    let (own, _) = parent.VirtualToPhy(shared).unwrap();
    assert_eq!(pm.GetRef(kept), Ok(1));
    assert_eq!(pm.GetRef(own), Ok(1));

    let mut child = parent.Fork(&mut uids, &mut files, &mut pm).unwrap();
    // The private page keeps its frame, which counts one leaf more.
    assert_eq!(child.VirtualToPhy(private), Ok((kept, false)));
    assert_eq!(parent.VirtualToPhy(private), Ok((kept, false)));
    assert_eq!(pm.GetRef(kept), Ok(2));
    // The page of the shared area has a frame of the child's own.
    let (copy, _) = child.VirtualToPhy(shared).unwrap();
    assert_ne!(copy, own);
    assert_eq!(parent.VirtualToPhy(shared).unwrap().0, own);
    assert_eq!(pm.GetRef(own), Ok(1));
    assert_eq!(pm.GetRef(copy), Ok(1));
    // No frame that was in use has lost its bytes.
    let mut bytes: Vec<u8> = Vec::new();
    pm.ReadBytes(kept, 1, &mut bytes);
    pm.ReadBytes(own, 1, &mut bytes);
    pm.ReadBytes(copy, 1, &mut bytes);
    assert_eq!(bytes, vec![0xAA, 0x55, 0x55]);
    assert_eq!(child.CopyInObj::<u8>(&mut pm, &files, private), Ok(0xAA));
    assert_eq!(child.CopyInObj::<u8>(&mut pm, &files, shared), Ok(0x55));
}

#[test]
fn a_fork_that_fails_gives_back_what_the_child_had_got() {
    let (mut uids, mut pm, mut files, mut parent) = world(5);
    let private: u64 = 0x4000_0000;
    let shared: u64 = 0x5000_0000;
    parent.AddVMA(&mut files, &Range::New(private, 0x1000), anon_rw()).unwrap();
    let mut open = anon_rw();
    open.private = false;
    parent.AddVMA(&mut files, &Range::New(shared, 0x2000), open).unwrap();
    parent.CopyOutObj(&mut pm, &files, &0xAAu8, private).unwrap();
    parent.CopyOutObj(&mut pm, &files, &0x55u8, shared).unwrap();
    parent.CopyOutObj(&mut pm, &files, &0x66u8, shared + 0x1000).unwrap();
    assert_eq!(parent.VirtualToPhy(private), Ok((BASE, true)));
    assert_eq!(parent.VirtualToPhy(shared), Ok((BASE + 0x1000, true)));
    assert_eq!(parent.VirtualToPhy(shared + 0x1000), Ok((BASE + 0x2000, true)));

    // One frame is there for the root and one for the first copy; none is
    // left for the second.
    let r = parent.Fork(&mut uids, &mut files, &mut pm);
    assert!(matches!(r, Err(Error::SysError(SysErr::ENOMEM))));
    assert_eq!(pm.GetRef(BASE), Ok(1));
    assert_eq!(pm.GetRef(BASE + 0x1000), Ok(1));
    assert_eq!(pm.GetRef(BASE + 0x2000), Ok(1));
    assert!(!pm.IsLive(BASE + 0x3000));
    assert!(!pm.IsLive(BASE + 0x4000));
    // The parent's pages are write-protected, with the frames and the
    // bytes that they had.
    assert_eq!(parent.VirtualToPhy(private), Ok((BASE, false)));
    assert_eq!(parent.VirtualToPhy(shared), Ok((BASE + 0x1000, false)));
    assert_eq!(parent.CopyInObj::<u8>(&mut pm, &files, private), Ok(0xAA));
    assert_eq!(parent.CopyInObj::<u8>(&mut pm, &files, shared + 0x1000), Ok(0x66));
    assert_eq!(parent.data.usageAS, 0x3000);
}

#[test]
fn the_child_writes_first_after_a_fork() {
    let (mut uids, mut pm, mut files, mut parent) = world(16);
    let page: u64 = 0x40_000_000;
    parent.AddVMA(&mut files, &Range::New(page, 0x1000), anon_rw()).unwrap();
    parent.CopyOutObj(&mut pm, &files, &0xAAu8, page + 7).unwrap();
    let (frame, _) = parent.VirtualToPhy(page).unwrap();
    assert_eq!(pm.GetRef(frame), Ok(1));

    let mut child = parent.Fork(&mut uids, &mut files, &mut pm).unwrap();
    assert_eq!(pm.GetRef(frame), Ok(2));
    child.CopyOutObj(&mut pm, &files, &0xBBu8, page + 9).unwrap();
    // The child has a frame of its own with the bytes of the page.
    let (own, writable) = child.VirtualToPhy(page).unwrap();
    assert!(writable && own != frame);
    assert_eq!(child.CopyInObj::<u8>(&mut pm, &files, page + 7), Ok(0xAA));
    assert_eq!(child.CopyInObj::<u8>(&mut pm, &files, page + 9), Ok(0xBB));
    // The parent has the frame that it had, and reads what it wrote.
    assert_eq!(parent.VirtualToPhy(page), Ok((frame, false)));
    assert_eq!(parent.CopyInObj::<u8>(&mut pm, &files, page + 7), Ok(0xAA));
    assert_eq!(parent.CopyInObj::<u8>(&mut pm, &files, page + 9), Ok(0));
    assert_eq!(pm.GetRef(frame), Ok(1));
    assert_eq!(pm.GetRef(own), Ok(1));
}
