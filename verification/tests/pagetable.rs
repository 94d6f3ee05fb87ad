use memmgr::addr::Addr;
use memmgr::linux_def::{Error, IoVec, MemoryDef, SysErr};
use memmgr::pagemgr::PageMgr;
use memmgr::pageopts::{ClearWritable, IsUser, IsWritable, PageOpts, SetWritable};
use memmgr::pagetable::{PageEntry, PageTables};
use memmgr::stackvec::StackVec;
use memmgr::vma::AccessType;

const BASE: u64 = MemoryDef::PHY_LOWER_ADDR;

#[test]
fn page_options_have_the_bits_of_the_flags() {
    assert_eq!(PageOpts::Zero().Bits(), 0);
    assert_eq!(PageOpts::UserReadOnly().Bits(), 5);
    assert_eq!(PageOpts::UserReadWrite().Bits(), 7);
    assert_eq!(PageOpts::KernelReadWrite().Bits(), 3);
    assert_eq!(PageOpts::New(false, false).Bits(), 1);
    // Bits that are no flag are dropped.
    assert_eq!(PageOpts::FromBits(u64::MAX).Bits(), 0xfff0_0000_0000_0fff);
    assert_eq!(PageOpts::FromBits(0x1000 | 6).Bits(), 6);

    let mut o = PageOpts::UserReadWrite();
    assert!(o.Present() && o.Write() && o.User());
    o.ClearWrite();
    assert_eq!(o.Bits(), 5);
    assert!(o.Present() && !o.Write() && o.User());
    o.SetWrite();
    assert_eq!(o.Bits(), 7);
    assert_eq!(o.Val().bits(), 7);
    let k = PageOpts::KernelReadWrite();
    assert!(!k.User() && k.Write());
    assert!(!PageOpts::Zero().Present());

    assert!(IsWritable(2) && !IsWritable(5));
    assert!(IsUser(4) && !IsUser(3));
    assert_eq!(ClearWritable(7), 5);
    assert_eq!(ClearWritable(5), 5);
    assert_eq!(SetWritable(5), 7);
}

#[test]
fn frames_are_handed_out_lowest_first() {
    let mut pm = PageMgr::New(BASE, 3).unwrap();
    assert_eq!(pm.FrameCount(), 3);
    assert!(pm.HasFree());
    assert_eq!(pm.AllocPage(false), Ok(BASE));
    assert_eq!(pm.AllocPage(false), Ok(BASE + 4096));
    assert_eq!(pm.AllocPage(false), Ok(BASE + 8192));
    assert!(!pm.HasFree());
    assert_eq!(pm.AllocPage(false), Err(Error::SysError(SysErr::ENOMEM)));
    pm.FreePage(BASE + 4096);
    assert!(!pm.IsLive(BASE + 4096));
    assert_eq!(pm.AllocPage(true), Ok(BASE + 4096));
    assert!(pm.IsFrame(BASE) && !pm.IsFrame(BASE + 1) && !pm.IsFrame(BASE + 3 * 4096));
    assert!(pm.Holds(BASE + 100, 3 * 4096 - 100) && !pm.Holds(BASE + 100, 3 * 4096 - 99));
}

#[test]
fn references_are_counted() {
    let mut pm = PageMgr::New(BASE, 2).unwrap();
    let f = pm.AllocPage(false).unwrap();
    assert_eq!(pm.GetRef(f), Ok(0));
    assert_eq!(pm.Ref(f), Ok(1));
    assert_eq!(pm.Ref(f), Ok(2));
    assert_eq!(pm.Deref(f), 1);
    assert!(pm.IsLive(f));
    assert_eq!(pm.Deref(f), 0);
    assert!(!pm.IsLive(f));
    // Nothing is left to drop, and a free frame takes no reference.
    assert_eq!(pm.Deref(f), 0);
    assert_eq!(pm.Ref(f), Err(Error::SysError(SysErr::EFAULT)));
    assert_eq!(pm.GetRef(f), Err(Error::SysError(SysErr::EFAULT)));
    assert_eq!(pm.Ref(BASE + 7), Err(Error::SysError(SysErr::EFAULT)));
}

#[test]
fn frames_keep_and_copy_their_bytes() {
    let mut pm = PageMgr::New(BASE, 2).unwrap();
    let a = pm.AllocPage(false).unwrap();
    let b = pm.AllocPage(false).unwrap();
    pm.WriteBytes(a + 10, &[9, 1, 2, 3, 9], 1, 3);
    let mut out = vec![7u8];
    pm.ReadBytes(a + 9, 5, &mut out);
    assert_eq!(out, vec![7, 0, 1, 2, 3, 0]);
    pm.CopyPage(a, b);
    let mut out = Vec::new();
    pm.ReadBytes(b + 10, 3, &mut out);
    assert_eq!(out, vec![1, 2, 3]);
    pm.ZeroBytes(b + 11, 1);
    let mut out = Vec::new();
    pm.ReadBytes(b + 10, 3, &mut out);
    assert_eq!(out, vec![1, 0, 3]);
    // A frame that is handed out again keeps its bytes unless zeros are
    // asked for.
    pm.FreePage(a);
    assert_eq!(pm.AllocPage(false), Ok(a));
    let mut out = Vec::new();
    pm.ReadBytes(a + 10, 3, &mut out);
    assert_eq!(out, vec![1, 2, 3]);
    pm.FreePage(a);
    assert_eq!(pm.AllocPage(true), Ok(a));
    let mut out = Vec::new();
    pm.ReadBytes(a + 10, 3, &mut out);
    assert_eq!(out, vec![0, 0, 0]);
}

#[test]
fn a_pool_must_be_aligned_and_fit() {
    let einval = Error::SysError(SysErr::EINVAL);
    assert_eq!(PageMgr::New(BASE + 1, 1).err(), Some(einval));
    assert_eq!(PageMgr::New(BASE, PageMgr::MAX_FRAMES + 1).err(), Some(einval));
    assert_eq!(PageMgr::New(u64::MAX - 4095, 2).err(), Some(einval));
    assert!(PageMgr::New(0, 0).is_ok());
}

#[test]
fn map_and_unmap() {
    let mut pm = PageMgr::New(BASE, 4).unwrap();
    let mut pt = PageTables::Empty();
    let f0 = pm.AllocPage(false).unwrap();
    let f1 = pm.AllocPage(false).unwrap();
    let rw = PageOpts::UserReadWrite().Val();
    let ro = PageOpts::UserReadOnly().Val();

    assert_eq!(pt.MapPage(Addr(0x3000), Addr(f0), rw, &mut pm), Ok(false));
    assert_eq!(pt.MapPage(Addr(0x1000), Addr(f1), ro, &mut pm), Ok(false));
    assert_eq!(pt.MapPage(Addr(0x2000), Addr(f1), ro, &mut pm), Ok(false));
    assert_eq!(pm.GetRef(f1), Ok(2));
    // The leaves are kept in the order of their addresses.
    let vaddrs: Vec<u64> = pt.entries.iter().map(|e: &PageEntry| e.vaddr).collect();
    assert_eq!(vaddrs, vec![0x1000, 0x2000, 0x3000]);
    assert_eq!(pt.Lower(0x2000), 1);
    assert_eq!(pt.Lower(0x2001), 2);
    assert_eq!(pt.Leaf(0x2000), Some(PageEntry { vaddr: 0x2000, paddr: f1, flags: 5 }));
    assert_eq!(pt.Leaf(0x4000), None);
    assert_eq!(pt.VirtualToPhy(0x3abc), Ok((f0 + 0xabc, true)));
    assert_eq!(pt.VirtualToPhy(0x4abc), Err(Error::AddressNotMap(0x4abc)));

    // A leaf that is replaced gives its reference back.
    assert_eq!(pt.MapPage(Addr(0x2000), Addr(f0), ro, &mut pm), Ok(true));
    assert_eq!(pm.GetRef(f1), Ok(1));
    assert_eq!(pm.GetRef(f0), Ok(2));
    assert!(pt.SetPageFlags(Addr(0x2000), rw));
    assert!(!pt.SetPageFlags(Addr(0x5000), rw));
    assert_eq!(pt.VirtualToPhy(0x2000), Ok((f0, true)));

    let einval = Err(Error::SysError(SysErr::EINVAL));
    assert_eq!(pt.MapPage(Addr(0x2001), Addr(f0), ro, &mut pm), einval);
    assert_eq!(pt.MapPage(Addr(0x2000), Addr(f0 + 8), ro, &mut pm), einval);
    assert_eq!(pt.MapPage(Addr(0x2000), Addr(u64::MAX - 4095), ro, &mut pm), einval);
    assert_eq!(
        pt.MapPage(Addr(0x2000), Addr(BASE + 3 * 4096), ro, &mut pm),
        Err(Error::SysError(SysErr::EFAULT))
    );
    // Memory outside the pool is mapped without a count.
    assert_eq!(pt.MapPage(Addr(0x9000), Addr(0x7000), ro, &mut pm), Ok(false));

    assert_eq!(pt.MUnmap(0x2000, 0x2000, &mut pm), Ok(()));
    assert_eq!(pt.Count(), 2);
    assert_eq!(pm.GetRef(f0), Err(Error::SysError(SysErr::EFAULT)));
    assert_eq!(pm.GetRef(f1), Ok(1));
    assert_eq!(pt.MUnmap(u64::MAX, 2, &mut pm), Err(Error::SysError(SysErr::EINVAL)));
    pt.Release(&mut pm);
    assert_eq!(pt.Count(), 0);
    assert!(!pm.IsLive(f1));
}

#[test]
fn fork_of_a_table_write_protects_user_leaves() {
    let mut pm = PageMgr::New(BASE, 8).unwrap();
    let mut pt = PageTables::New(&mut pm).unwrap();
    assert_eq!(pt.GetRoot(), BASE);
    assert_eq!(pm.GetRef(BASE), Ok(1));
    let f = pm.AllocPage(false).unwrap();
    let g = pm.AllocPage(false).unwrap();
    pt.MapPage(Addr(0x1000), Addr(f), PageOpts::UserReadWrite().Val(), &mut pm).unwrap();
    pt.MapPage(Addr(0x2000), Addr(g), PageOpts::KernelReadWrite().Val(), &mut pm).unwrap();

    let child = pt.Fork(&mut pm).unwrap();
    assert_eq!(child.GetRoot(), BASE + 3 * 4096);
    assert_eq!(pt.VirtualToPhy(0x1000), Ok((f, false)));
    assert_eq!(child.VirtualToPhy(0x1000), Ok((f, false)));
    // A leaf of the kernel stays as it is.
    assert_eq!(pt.VirtualToPhy(0x2000), Ok((g, true)));
    assert_eq!(child.VirtualToPhy(0x2000), Ok((g, true)));
    assert_eq!(pm.GetRef(f), Ok(2));
    assert_eq!(pm.GetRef(g), Ok(2));
}

#[test]
fn ranges_are_shared_or_copied() {
    let mut pm = PageMgr::New(BASE, 8).unwrap();
    let mut src = PageTables::Empty();
    let mut dst = PageTables::Empty();
    let f = pm.AllocPage(false).unwrap();
    let g = pm.AllocPage(false).unwrap();
    pm.WriteBytes(g, &[42], 0, 1);
    let rw = PageOpts::UserReadWrite().Val();
    src.MapPage(Addr(0x1000), Addr(f), rw, &mut pm).unwrap();
    src.MapPage(Addr(0x5000), Addr(g), rw, &mut pm).unwrap();

    assert_eq!(src.ForkRange(&mut dst, 0x1000, 0x1000, &mut pm), Ok(()));
    assert_eq!(src.VirtualToPhy(0x1000), Ok((f, false)));
    assert_eq!(dst.VirtualToPhy(0x1000), Ok((f, false)));
    assert_eq!(src.VirtualToPhy(0x5000), Ok((g, true)));
    assert_eq!(dst.Count(), 1);
    assert_eq!(pm.GetRef(f), Ok(2));

    assert_eq!(src.CopyRange(&mut dst, 0x5000, 0x1000, &mut pm), Ok(()));
    let (copy, writable) = dst.VirtualToPhy(0x5000).unwrap();
    assert!(writable);
    assert_ne!(copy, g);
    let mut out = Vec::new();
    pm.ReadBytes(copy, 1, &mut out);
    assert_eq!(out, vec![42]);
    assert_eq!(pm.GetRef(g), Ok(1));
    assert_eq!(pm.GetRef(copy), Ok(1));

    // Without a free frame a copy fails.
    let mut small = PageMgr::New(BASE, 1).unwrap();
    let only = small.AllocPage(false).unwrap();
    let mut a = PageTables::Empty();
    let mut b = PageTables::Empty();
    a.MapPage(Addr(0x1000), Addr(only), rw, &mut small).unwrap();
    assert_eq!(
        a.CopyRange(&mut b, 0, 0x10000, &mut small),
        Err(Error::SysError(SysErr::ENOMEM))
    );
    assert_eq!(b.Count(), 0);
    assert_eq!(
        a.ForkRange(&mut b, 1, u64::MAX, &mut small),
        Err(Error::SysError(SysErr::EINVAL))
    );
}

#[test]
fn addresses_of_a_range() {
    let mut pm = PageMgr::New(BASE, 4).unwrap();
    let mut pt = PageTables::Empty();
    let rw = PageOpts::UserReadWrite().Val();
    for i in 0..3u64 {
        let f = pm.AllocPage(false).unwrap();
        pt.MapPage(Addr(0x1000 * (i + 1)), Addr(f), rw, &mut pm).unwrap();
    }
    let mut out: StackVec<u64> = StackVec::New(4);
    assert_eq!(pt.GetAddresses(Addr(0x1000), Addr(0x4000), &mut out), Ok(()));
    assert_eq!(out.Slice(), &[BASE, BASE + 4096, BASE + 8192]);
    let mut out: StackVec<u64> = StackVec::New(4);
    assert_eq!(
        pt.GetAddresses(Addr(0x3000), Addr(0x6000), &mut out),
        Err(Error::AddressNotMap(0x4000))
    );
    assert_eq!(out.Slice(), &[BASE + 8192]);
    assert_eq!(
        pt.GetAddresses(Addr(0x3001), Addr(0x6000), &mut out),
        Err(Error::SysError(SysErr::EINVAL))
    );
    assert_eq!(pt.GetAddresses(Addr(0x3000), Addr(0x1000), &mut out), Ok(()));
    assert_eq!(out.Len(), 1);
}

#[test]
fn host_memory_is_mapped_page_by_page() {
    let mut pm = PageMgr::New(BASE, 1).unwrap();
    let mut pt = PageTables::Empty();
    let iov = IoVec::NewFromAddr(0x7000, 0x2000);
    assert_eq!(pt.MapHost(0x1000, &iov, &AccessType::ReadOnly(), true, &mut pm), Ok(()));
    assert_eq!(pt.VirtualToPhy(0x1004), Ok((0x7004, false)));
    assert_eq!(pt.VirtualToPhy(0x2000), Ok((0x8000, false)));
    assert_eq!(pt.Leaf(0x2000).unwrap().flags, 5);
    assert_eq!(pt.Count(), 2);
    assert_eq!(
        pt.MapHost(0x1000, &IoVec::NewFromAddr(0x7000, 0x2001), &AccessType::ReadOnly(), true, &mut pm),
        Err(Error::SysError(SysErr::EINVAL))
    );
    // Anonymous leaves move with their area.
    let ar = memmgr::range::Range::New(0x10000, 0x2000);
    assert_eq!(pt.RemapAna(&ar, 0x1000, &AccessType::ReadWrite(), true, &mut pm), Ok(()));
    assert_eq!(pt.VirtualToPhy(0x10000), Ok((0x7000, true)));
    assert_eq!(pt.VirtualToPhy(0x11000), Ok((0x8000, true)));
    assert_eq!(pt.VirtualToPhy(0x1000), Err(Error::AddressNotMap(0x1000)));
    assert_eq!(pt.Count(), 2);
}

#[test]
fn changed_leaves_are_put_down_for_invalidation() {
    let mut pm = PageMgr::New(BASE, 8).unwrap();
    let mut pt = PageTables::Empty();
    let rw = PageOpts::UserReadWrite().Val();
    let ro = PageOpts::UserReadOnly().Val();
    let f = pm.AllocPage(false).unwrap();
    let g = pm.AllocPage(false).unwrap();
    // A new leaf changes no translation.
    pt.MapPage(Addr(0x1000), Addr(f), rw, &mut pm).unwrap();
    pt.MapPage(Addr(0x2000), Addr(g), ro, &mut pm).unwrap();
    assert!(pt.invalidated.is_empty());
    // A leaf that is replaced, or gets other flags, does.
    pt.MapPage(Addr(0x2000), Addr(f), ro, &mut pm).unwrap();
    assert!(pt.SetPageFlags(Addr(0x2000), rw));
    assert_eq!(pt.invalidated, vec![0x2000, 0x2000]);
    assert_eq!(pt.TakeInvalidated(), vec![0x2000, 0x2000]);
    assert!(pt.invalidated.is_empty());
    // A fork write-protects the leaves that could be written.
    pt.SetPageFlags(Addr(0x2000), ro);
    pt.TakeInvalidated();
    let child = pt.Fork(&mut pm).unwrap();
    assert_eq!(pt.invalidated, vec![0x1000]);
    assert!(child.invalidated.is_empty());
    pt.TakeInvalidated();
    // Unmapping removes translations.
    pt.MUnmap(0, 0x3000, &mut pm).unwrap();
    assert_eq!(pt.TakeInvalidated(), vec![0x1000, 0x2000]);
}
