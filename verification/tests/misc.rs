use memmgr::addr::Addr;
use memmgr::arch::{Limit, LimitSet, MmapDirection, MmapLayout, NewMmapLayout, INFINITY};
use memmgr::areaset::{AreaSet};
use memmgr::blocks::ToBlocks;
use memmgr::linux_def::{Error, IoVec, MemoryDef, SysErr};
use memmgr::mappable::{Mappable, MappableTable};
use memmgr::mm::{Dirent, MemoryManager};
use memmgr::pagemgr::PageMgr;
use memmgr::plain::Plain;
use memmgr::kernel::StaticInfo;
use memmgr::qmsg::{EpollEvent, FdNotify, FireTimer, HostInputMsg};
use memmgr::range::Range;
use memmgr::snapshot::{HexLen, PushDec, PushHex, PushHexPadded};
use memmgr::stackvec::StackVec;
use memmgr::uid::{NewUID, UidService};
use memmgr::vma::{AccessType, MappingIdentity, VMA};
use memmgr::zero::ZeroFileOperations;

const BASE: u64 = MemoryDef::PHY_LOWER_ADDR;

#[test]
fn identifiers_start_at_one_and_rise() {
    let mut uids = UidService::New();
    assert_eq!(NewUID(&mut uids), 1);
    assert_eq!(NewUID(&mut uids), 2);
    let a = MemoryManager::Empty(&mut uids);
    let b = MemoryManager::Empty(&mut uids);
    assert_eq!((a.ID(), b.ID()), (3, 4));
    assert_eq!(a.Downgrade().ID(), 3);
    assert!(!a.data.inited);
    assert_eq!(a.GetRoot(), 0);
}

#[test]
fn page_arithmetic() {
    assert_eq!(Addr(0x1234).RoundDown(), Ok(Addr(0x1000)));
    assert_eq!(Addr(0x1000).RoundDown(), Ok(Addr(0x1000)));
    assert_eq!(Addr(0x1001).RoundUp(), Ok(Addr(0x2000)));
    assert_eq!(Addr(0x1000).RoundUp(), Ok(Addr(0x1000)));
    assert_eq!(Addr(u64::MAX).RoundUp(), Err(Error::SysError(SysErr::EFAULT)));
    assert_eq!(Addr(u64::MAX - 4095).RoundUp(), Ok(Addr(u64::MAX - 4095)));
    assert!(Addr(0x2000).IsPageAligned() && !Addr(0x2008).IsPageAligned());
    assert_eq!(Addr(0x2008).PageOffset(), 8);
}

#[test]
fn ranges() {
    let r = Range::New(10, 10);
    assert_eq!((r.Start(), r.End(), r.Len()), (10, 20, 10));
    assert!(r.Contains(10) && r.Contains(19) && !r.Contains(20) && !r.Contains(9));
    assert!(r.Overlaps(&Range::New(19, 5)) && !r.Overlaps(&Range::New(20, 5)));
    assert!(r.IsSupersetOf(&Range::New(12, 8)) && !r.IsSupersetOf(&Range::New(12, 9)));
    assert_eq!(r.Intersect(&Range::New(15, 100)), Range::New(15, 5));
    assert_eq!(r.Intersect(&Range::New(30, 5)).Len(), 0);
}

#[test]
fn rights() {
    let rw = AccessType::ReadWrite();
    assert!(rw.Read() && rw.Write() && !rw.Exec() && rw.Any());
    assert!(!AccessType::NoAccess().Any());
    assert_eq!(rw.String(), b"rw-");
    assert_eq!(AccessType::Executable().String(), b"r-x");
    assert_eq!(AccessType::AnyAccess().String(), b"rwx");
    assert_eq!(AccessType::NoAccess().String(), b"---");
    assert!(AccessType::AnyAccess().SupersetOf(&rw) && !AccessType::ReadOnly().SupersetOf(&rw));
    assert_eq!(rw.Intersect(&AccessType::Executable()), AccessType::ReadOnly());
    let mut p = AccessType::ReadOnly();
    p.SetWrite();
    assert_eq!(p, rw);
    p.ClearWrite();
    assert_eq!(p, AccessType::ReadOnly());
    let mut shared = VMA::Anonymous(rw, "");
    assert!(!shared.CanWriteMappableLocked());
    shared.private = false;
    assert!(shared.CanWriteMappableLocked());
}

#[test]
fn the_set_of_areas() {
    let mut set = AreaSet::New(0x1000, 0xf000);
    assert!(set.IsEmpty() && !set.FirstSeg().IsOk());
    let gap = set.FirstGap();
    assert_eq!(gap.Range(), Range::New(0x1000, 0xf000));
    let v = VMA::Anonymous(AccessType::ReadWrite(), "");
    let seg = set.Insert(&gap, &Range::New(0x4000, 0x4000), v);
    assert!(seg.IsOk() && !seg.IsTail());
    assert_eq!(seg.Range(), Range::New(0x4000, 0x4000));
    assert_eq!(seg.Value(), v);

    assert_eq!(set.FindSeg(0x5000).Range(), Range::New(0x4000, 0x4000));
    assert!(!set.FindSeg(0x8000).IsOk());
    assert_eq!(set.FindGap(0x2000).Range(), Range::New(0x1000, 0x3000));
    assert_eq!(set.FindGap(0x8000).Range(), Range::New(0x8000, 0x8000));
    assert!(!set.FindGap(0x5000).IsOk());
    assert!(!set.FindGap(0x10000).IsOk() && !set.FindGap(0).IsOk());
    let (s, g) = set.Find(0x9000);
    assert!(!s.IsOk() && g.IsOk());
    assert_eq!(set.GapNextSeg(&set.FindGap(0x2000)).Range(), Range::New(0x4000, 0x4000));
    assert!(!set.GapNextSeg(&g).IsOk());
    assert_eq!(set.NextGap(&seg).Range(), Range::New(0x8000, 0x8000));
    assert!(!set.NextSeg(&seg).IsOk());

    // Isolating the middle leaves three segments.
    let mid = set.Isolate(&seg, &Range::New(0x5000, 0x1000));
    assert_eq!(mid.Range(), Range::New(0x5000, 0x1000));
    assert_eq!(set.Count(), 3);
    assert_eq!(set.SegAt(2).Range(), Range::New(0x6000, 0x2000));
    // A range that covers the segment splits nothing.
    let same = set.Isolate(&mid, &Range::New(0, 0x10000));
    assert_eq!(same, mid);
    assert_eq!(set.Count(), 3);
    let gap = set.Remove(&mid);
    assert_eq!(gap.Range(), Range::New(0x5000, 0x1000));
    assert_eq!(set.Count(), 2);
    set.Reset(0, 100);
    assert!(set.IsEmpty());
    assert_eq!(set.range, Range::New(0, 100));
}

#[test]
fn runs_of_pages() {
    let p = MemoryDef::PAGE_SIZE;
    let mut bs: StackVec<IoVec> = StackVec::New(4);
    bs.Push(IoVec::NewFromAddr(1, 1));
    ToBlocks(&mut bs, &[7 * p]);
    assert_eq!(bs.Slice(), &[IoVec::NewFromAddr(1, 1), IoVec::NewFromAddr(7 * p, 4096)]);
    bs.Clear();
    ToBlocks(&mut bs, &[3 * p, 2 * p, 3 * p, 4 * p, 4 * p]);
    assert_eq!(
        bs.Slice(),
        &[
            IoVec::NewFromAddr(3 * p, 4096),
            IoVec::NewFromAddr(2 * p, 3 * 4096),
            IoVec::NewFromAddr(4 * p, 4096),
        ]
    );
    let total: usize = bs.Slice().iter().map(|b: &IoVec| b.Len()).sum();
    assert_eq!(total, 5 * 4096);
    bs.Replace(0, IoVec::NewFromAddr(9, 9));
    assert_eq!(bs.Slice()[0].Start(), 9);
    assert_eq!(bs.Len(), 3);
}

#[test]
fn blocks_behind_a_range() {
    let mut uids = UidService::New();
    let mut pm = PageMgr::New(BASE, 8).unwrap();
    let mut files = MappableTable::New();
    let mut mm = MemoryManager::Empty(&mut uids);
    let addr: u64 = 0x40_000_000;
    mm.AddVMA(&mut files, &Range::New(addr, 0x4000), VMA::Anonymous(AccessType::ReadWrite(), ""))
        .unwrap();
    // Pages 0, 1 and 3 get the frames 0, 1 and 2; page 2 gets frame 3.
    mm.FixPermission(&mut pm, &files, addr, 0x2000, false, false).unwrap();
    mm.FixPermission(&mut pm, &files, addr + 0x3000, 1, false, false).unwrap();
    mm.FixPermission(&mut pm, &files, addr + 0x2000, 1, false, false).unwrap();

    let mut bs: StackVec<IoVec> = StackVec::New(4);
    assert_eq!(mm.GetReadonlyBlocks(addr + 0x10, 0x3ff0 - 0x20, &mut bs), Ok(()));
    assert_eq!(
        bs.Slice(),
        &[
            IoVec::NewFromAddr(BASE + 0x10, 0x2000 - 0x10),
            IoVec::NewFromAddr(BASE + 0x3000, 0x1000),
            IoVec::NewFromAddr(BASE + 0x2000, 0x1000 - 0x20),
        ]
    );
    let total: usize = bs.Slice().iter().map(|b: &IoVec| b.len).sum();
    assert_eq!(total, 0x3ff0 - 0x20);

    let mut one: StackVec<IoVec> = StackVec::New(1);
    assert_eq!(mm.GetAddressesWithCOW(addr + 5, 3, &mut one), Ok(()));
    assert_eq!(one.Slice(), &[IoVec::NewFromAddr(BASE + 5, 3)]);
    assert_eq!(mm.GetReadonlyBlocks(addr, 0, &mut one), Ok(()));
    assert_eq!(one.Len(), 1);
    assert_eq!(
        mm.GetReadonlyBlocks(addr + 0x3000, 0x1001, &mut one),
        Err(Error::SysError(SysErr::EFAULT))
    );
    assert_eq!(mm.GetReadonlyBlocks(u64::MAX, 1, &mut one), Err(Error::SysError(SysErr::EFAULT)));
    assert_eq!(one.Len(), 1);
}

#[test]
fn layouts() {
    let limits = LimitSet { Stack: Limit { Cur: 8 << 20, Max: INFINITY }, AS: Limit::default() };
    let l = NewMmapLayout(0x1234, 0x7fff_ffff_ffff, &limits).unwrap();
    assert_eq!(l.MinAddr, 0x2000);
    assert_eq!(l.MaxAddr, 0x7fff_ffff_f000);
    assert_eq!(l.BottomUpBase, 0x2aaa_aaaa_a000);
    assert_eq!(l.TopDownBase, 0x7fff_ffff_f000 - 0x4_0800_0000);
    assert_eq!(l.DefaultDirection, MmapDirection::MmapTopDown);
    assert_eq!(l.MapStackAddr(), 0x7fff_ffff_f000);
    assert!(l.Valid());

    let unlimited = LimitSet { Stack: Limit { Cur: INFINITY, Max: INFINITY }, AS: Limit::default() };
    let l = NewMmapLayout(0, 0x6000_0000, &unlimited).unwrap();
    assert_eq!(l.DefaultDirection, MmapDirection::MmapBottomUp);
    // The gap is at most five sixths of the address space.
    assert_eq!(l.TopDownBase, 0x6000_0000 - 0x5000_0000);

    let einval = Err(Error::SysError(SysErr::EINVAL));
    assert_eq!(NewMmapLayout(0x3000, 0x2000, &limits), einval);
    assert_eq!(NewMmapLayout(u64::MAX, u64::MAX, &limits), einval);
    // The lower bound lies above the bases.
    assert_eq!(NewMmapLayout(0x5000_0000, 0x6000_0000, &limits), einval);
    assert!(!MmapLayout { BottomUpBase: 5, ..MmapLayout::default() }.Valid());

    let mut uids = UidService::New();
    let mut mm = MemoryManager::Empty(&mut uids);
    let before = mm.data.layout;
    assert_eq!(mm.SetMmapLayout(0x3000, 0x2000, &limits), einval);
    assert_eq!(mm.data.layout, before);
    let l = mm.SetMmapLayout(0, 0x7fff_ffff_ffff, &limits).unwrap();
    assert_eq!(mm.data.layout, l);
    assert_eq!(mm.data.MapStackAddr(), 0x7fff_ffff_f000);
    mm.SetExecutable(&Dirent(9));
    assert_eq!(mm.data.executable, Some(Dirent(9)));
}

#[test]
fn accounting_of_resident_pages() {
    let mut uids = UidService::New();
    let mut mm = MemoryManager::Empty(&mut uids);
    mm.data.AddRssLock(&Range::New(0, 0x3000));
    assert_eq!((mm.data.curRSS, mm.data.maxRSS), (0x3000, 0x3000));
    mm.data.RemoveRssLock(&Range::New(0, 0x2000));
    assert_eq!((mm.data.curRSS, mm.data.maxRSS), (0x1000, 0x3000));
    mm.data.AddRssLock(&Range::New(0, 0x1000));
    assert_eq!((mm.data.curRSS, mm.data.maxRSS), (0x2000, 0x3000));
    // The resident size never drops below 0.
    mm.data.RemoveRssLock(&Range::New(0, 0x5000));
    assert_eq!((mm.data.curRSS, mm.data.maxRSS), (0, 0x3000));
    mm.data.BrkSetup(0x7000);
    assert_eq!(mm.data.brkInfo.brkStart, 0x7000);
    assert_eq!(mm.data.brkInfo.brkEnd, 0x7000);
    assert_eq!(mm.data.brkInfo.brkMemEnd, 0x7000);
}

#[test]
fn backing_objects_count_what_is_mapped() {
    let einval = Err(Error::SysError(SysErr::EINVAL));
    assert_eq!(Mappable::New(0, 0, "", vec![8]).err(), Some(Error::SysError(SysErr::EINVAL)));
    let mut f = Mappable::New(1, 2, "f", vec![0x1000, 0x5000]).unwrap();
    assert_eq!(f.MapFilePage(0), Ok(0x1000));
    assert_eq!(f.MapFilePage(0x1000), Ok(0x5000));
    assert_eq!(f.MapFilePage(0x2000), Err(Error::SysError(SysErr::EFAULT)));
    assert_eq!(f.MapFilePage(0x10), Err(Error::SysError(SysErr::EINVAL)));
    let r = Range::New(0x9000, 0x2000);
    assert_eq!(f.AddMapping(7, &r, 0, true), Ok(()));
    assert_eq!(f.AddMapping(7, &r, 0x1000, true), Ok(()));
    assert_eq!(f.AddMapping(8, &r, u64::MAX, true), einval);
    assert_eq!(f.AddMapping(7, &Range::New(0, u64::MAX), 0, true), Err(Error::SysError(SysErr::ENOMEM)));
    assert_eq!((f.MappedBy(7), f.MappedBy(8)), (0x4000, 0));
    assert_eq!(f.RemoveMapping(8, &r, 0, true), einval);
    assert_eq!(f.RemoveMapping(7, &r, 0, true), Ok(()));
    assert_eq!(f.MappedBy(7), 0x2000);

    let mut t = MappableTable::New();
    let m = t.Add(f);
    assert!(t.Has(m) && !t.Has(m + 1));
    assert_eq!(t.MapFilePage(m, 0x1000), Ok(0x5000));
    assert_eq!(t.MapFilePage(m + 1, 0), Err(Error::SysError(SysErr::EFAULT)));
    assert_eq!(t.AddMapping(m + 1, 7, &r, 0, true), Err(Error::SysError(SysErr::EFAULT)));
    assert_eq!(t.RemoveMapping(m, 7, &r, 0, true), Ok(()));
    assert_eq!(t.RemoveMapping(m, 7, &r, 0, true), einval);
}

#[test]
fn digits() {
    let mut out = Vec::new();
    PushHex(&mut out, 0);
    PushHex(&mut out, 0xab09);
    PushHex(&mut out, u64::MAX);
    assert_eq!(out, b"0ab09ffffffffffffffff");
    let mut out = Vec::new();
    PushDec(&mut out, 0);
    PushDec(&mut out, 1234567890);
    PushDec(&mut out, u64::MAX);
    assert_eq!(out, b"0123456789018446744073709551615");
    let mut out = Vec::new();
    PushHexPadded(&mut out, 0x400000, 8);
    PushHexPadded(&mut out, 0xffff_ffff_ff60_0000, 8);
    PushHexPadded(&mut out, 0, 2);
    assert_eq!(out, b"00400000ffffffffff60000000");
    assert_eq!((HexLen(0), HexLen(15), HexLen(16), HexLen(u64::MAX)), (1, 1, 2, 16));
}

#[test]
fn maps_snapshot() {
    let mut uids = UidService::New();
    let mut files = MappableTable::New();
    let mut mm = MemoryManager::Empty(&mut uids);
    mm.AddVMA(&mut files, &Range::New(0x400000, 0x1000), VMA::Anonymous(AccessType::ReadWrite(), ""))
        .unwrap();
    let vsyscall =
        "ffffffffff600000-ffffffffff601000 --xp 00000000 00:00 0                  [vsyscall]\n";
    let line = "00400000-00401000 rw-p 00000000 00:00 0                                                                         \n";
    assert_eq!(line.len(), 113);
    let text = String::from_utf8(mm.GenMapsSnapshot()).unwrap();
    assert_eq!(text, format!("{}{}", line, vsyscall));
    assert_eq!(mm.GetSnapshot(true), Ok(text));
    assert_eq!(MemoryManager::VSYSCALL_MAPS_ENTRY, vsyscall);
    assert_eq!(vsyscall.find('['), Some(73));
}

#[test]
fn maps_snapshot_with_names_and_kernel_areas() {
    let mut uids = UidService::New();
    let mut files = MappableTable::New();
    let mut mm = MemoryManager::Empty(&mut uids);
    let mut heap = VMA::Anonymous(AccessType::ReadOnly(), "[heap]");
    heap.private = false;
    heap.id = Some(MappingIdentity { device: 0, inode: 0, name: "[heap]" });
    mm.AddVMA(&mut files, &Range::New(0x1000, 0x2000), heap).unwrap();
    let mut lib = VMA::Anonymous(AccessType::Executable(), "lib");
    lib.offset = 0x3000;
    lib.id = Some(MappingIdentity { device: (8 << 20) | 0x1f, inode: 4711, name: "/lib/libc.so" });
    mm.AddVMA(&mut files, &Range::New(0x7fff_0000_0000, 0x1000), lib).unwrap();
    // An area with a hint but without mapping identity shows the hint.
    let mut kernel = VMA::Anonymous(AccessType::ReadWrite(), "Kernel Space");
    kernel.kernel = true;
    mm.AddVMA(&mut files, &Range::New(0x5000_0000, 0x1000), kernel).unwrap();
    // An area with a mapping identity but without hint shows the name of
    // the identity.
    let mut plain = VMA::Anonymous(AccessType::ReadWrite(), "");
    plain.id = Some(MappingIdentity { device: 1 << 20, inode: 9, name: "/tmp/x" });
    mm.AddVMA(&mut files, &Range::New(0x7fff_0000_1000, 0x1000), plain).unwrap();

    let heap_line = format!("{:<73}[heap]\n", "00001000-00003000 r--s 00000000 00:00 0 ");
    let kernel_line = format!("{:<73}Kernel Space\n", "50000000-50001000 rw-p 00000000 00:00 0 ");
    // The hint goes before the name of the identity.
    let lib_line = format!("{:<73}lib\n", "7fff00000000-7fff00001000 r-xp 00003000 08:1f 4711 ");
    let plain_line = format!("{:<73}/tmp/x\n", "7fff00001000-7fff00002000 rw-p 00000000 01:00 9 ");
    let vsyscall = MemoryManager::VSYSCALL_MAPS_ENTRY;
    assert_eq!(
        String::from_utf8(mm.GenMapsSnapshot()).unwrap(),
        format!("{}{}{}{}", heap_line, lib_line, plain_line, vsyscall)
    );
    assert_eq!(
        mm.GetSnapshot(false),
        Ok(format!("{}{}{}{}{}", heap_line, kernel_line, lib_line, plain_line, vsyscall))
    );
    assert_eq!(heap_line.find('['), Some(73));
    assert_eq!(kernel_line.find('K'), Some(73));
    assert_eq!(lib_line.find('l'), Some(73));
    assert_eq!(plain_line.find('/'), Some(73));
    // The kernel's area does not count for the size of the address space.
    assert_eq!(mm.data.usageAS, 0x4000);
    mm.data.AddRssLock(&Range::New(0, 0x5000));
    mm.data.RemoveRssLock(&Range::New(0, 0x3000));
    assert_eq!(mm.GenStatmSnapshot(), b"4 2 0 0 0 0 0\n");
    mm.data.AddRssLock(&Range::New(0, 0x9000 + 0xfff));
    assert_eq!(mm.GenStatmSnapshot(), b"4 11 0 0 0 0 0\n");
}

#[test]
fn maps_snapshot_names_an_area_by_its_hint() {
    let mut uids = UidService::New();
    let mut files = MappableTable::New();
    let mut mm = MemoryManager::Empty(&mut uids);
    mm.AddVMA(
        &mut files,
        &Range::New(0x400000, 0x1000),
        VMA::Anonymous(AccessType::ReadWrite(), "[heap]"),
    )
    .unwrap();
    let line = format!("{}{}[heap]\n", "00400000-00401000 rw-p 00000000 00:00 0", " ".repeat(34));
    let text = mm.GetSnapshot(true).unwrap();
    assert_eq!(text, format!("{}{}", line, MemoryManager::VSYSCALL_MAPS_ENTRY));
    assert_eq!(text.len(), 164);
    assert_eq!(line.find('['), Some(73));
    // A name of the mapping identity is shown only where there is no hint.
    let mut named = VMA::Anonymous(AccessType::ReadOnly(), "");
    named.id = Some(MappingIdentity { device: 0, inode: 0, name: "" });
    mm.AddVMA(&mut files, &Range::New(0x500000, 0x1000), named).unwrap();
    let bare = format!("{}{}\n", "00500000-00501000 r--p 00000000 00:00 0 ", " ".repeat(72));
    assert_eq!(
        mm.GetSnapshot(true),
        Ok(format!("{}{}{}", line, bare, MemoryManager::VSYSCALL_MAPS_ENTRY))
    );
}

#[test]
fn statm_snapshot_shows_usage_and_resident_pages() {
    let mut uids = UidService::New();
    let mut mm = MemoryManager::Empty(&mut uids);
    assert_eq!(mm.GenStatmSnapshot(), b"0 0 0 0 0 0 0\n");
    mm.data.usageAS = 8192;
    mm.data.curRSS = 4096;
    mm.data.maxRSS = 12288;
    assert_eq!(mm.GenStatmSnapshot(), b"2 1 0 0 0 0 0\n");
    // Sizes are counted in whole pages.
    mm.data.usageAS = 10 * 4096 + 4095;
    mm.data.curRSS = 4095;
    assert_eq!(mm.GenStatmSnapshot(), b"10 0 0 0 0 0 0\n");
}

#[test]
fn plain_values_as_bytes() {
    let mut out = Vec::new();
    0x0102u16.ToBytes(&mut out);
    0x0304_0506u32.ToBytes(&mut out);
    7u8.ToBytes(&mut out);
    assert_eq!(out, vec![2, 1, 6, 5, 4, 3, 7]);
    assert_eq!(u32::FromBytes(&out, 2), 0x0304_0506);
    assert_eq!(u16::FromBytes(&out, 1), 0x0601);
    assert_eq!((u8::Size(), u16::Size(), u32::Size(), u64::Size(), IoVec::Size()), (1, 2, 4, 8, 16));
    assert!(5u64.Same(&5) && !5u64.Same(&6));
    assert!(!IoVec::NewFromAddr(1, 2).Same(&IoVec::NewFromAddr(1, 3)));
}

#[test]
fn the_zero_device() {
    let mut pm = PageMgr::New(BASE, 2).unwrap();
    pm.WriteBytes(BASE, &[1, 2, 3, 4, 5, 6], 0, 6);
    let zero = ZeroFileOperations {};
    let dsts = [IoVec::NewFromAddr(BASE + 1, 2), IoVec::NewFromAddr(BASE + 4, 1)];
    assert_eq!(zero.ReadAt(&mut pm, &dsts), Ok(3));
    let mut out = Vec::new();
    pm.ReadBytes(BASE, 6, &mut out);
    assert_eq!(out, vec![1, 0, 0, 4, 0, 6]);
    let outside = [IoVec::NewFromAddr(BASE, 1), IoVec::NewFromAddr(BASE + 2 * 4096, 1)];
    assert_eq!(zero.ReadAt(&mut pm, &outside), Err(Error::SysError(SysErr::EFAULT)));
    let mut out = Vec::new();
    pm.ReadBytes(BASE, 1, &mut out);
    assert_eq!(out, vec![1]);
    assert_eq!(zero.WriteAt(&dsts), Ok(3));
    assert_eq!(zero.Append(&dsts), Ok((3, 0)));
    assert_eq!(zero.WriteAt(&[]), Ok(0));
    assert_eq!(ZeroFileOperations::Count(&outside), Ok(2));
    assert!(!zero.Seekable());
    assert_eq!(zero.Mappable(), Err(Error::SysError(SysErr::ENODEV)));
}

#[test]
fn host_messages() {
    let m = HostInputMsg::FdNotify(FdNotify { fd: 3, mask: 5 });
    assert_eq!(m, HostInputMsg::FdNotify(FdNotify { fd: 3, mask: 5 }));
    assert_ne!(m, HostInputMsg::FireTimer(FireTimer::default()));
    assert_eq!(EpollEvent::default().U64, 0);
    assert_eq!(StaticInfo::default().ApplicationCores, 0);
}
