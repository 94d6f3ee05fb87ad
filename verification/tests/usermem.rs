use memmgr::cstring::{CString, FirstNul, StringFromBytes, TextFromBytes};
use memmgr::linux_def::{Error, IoVec, MemoryDef, SysErr};
use memmgr::mappable::MappableTable;
use memmgr::mm::MemoryManager;
use memmgr::pagemgr::PageMgr;
use memmgr::range::Range;
use memmgr::task::{BlockSeq, Task};
use memmgr::uid::UidService;
use memmgr::vma::{AccessType, VMA};

const BASE: u64 = MemoryDef::PHY_LOWER_ADDR;
const ADDR: u64 = 0x40_000_000;

fn task(frames: usize, len: u64, perms: AccessType) -> (PageMgr, MappableTable, Task) {
    let mut uids = UidService::New();
    let pm = PageMgr::New(BASE, frames).unwrap();
    let mut files = MappableTable::New();
    let mut mm = MemoryManager::Empty(&mut uids);
    mm.AddVMA(&mut files, &Range::New(ADDR, len), VMA::Anonymous(perms, "")).unwrap();
    (pm, files, Task::New(1, mm))
}

fn efault<T>() -> Result<T, Error> {
    Err(Error::SysError(SysErr::EFAULT))
}

#[test]
fn copy_data_out_and_in_across_pages() {
    let (mut pm, files, mut t) = task(16, 0x4000, AccessType::ReadWrite());
    let data: Vec<u8> = (0..6000u32).map(|i| (i % 251) as u8).collect();
    let at = ADDR + 4000;
    assert_eq!(t.mm.CopyDataOut(&mut pm, &files, &data, at, data.len()), Ok(()));
    let back = t.mm.CopyDataIn(&mut pm, &files, at, data.len()).unwrap();
    assert_eq!(back.len(), 6000);
    assert_eq!(back, data);
    // Three pages hold the range.
    assert_eq!(t.mm.data.pt.Count(), 3);
    // Only a prefix is copied when less is asked for.
    assert_eq!(t.mm.CopyDataOut(&mut pm, &files, &[9, 9, 9, 9], ADDR, 2), Ok(()));
    assert_eq!(t.mm.CopyDataIn(&mut pm, &files, ADDR, 4), Ok(vec![9, 9, 0, 0]));
}

#[test]
fn copy_data_fails_outside_of_areas() {
    let (mut pm, files, mut t) = task(16, 0x1000, AccessType::ReadWrite());
    assert_eq!(t.mm.CopyDataIn(&mut pm, &files, 0, 4), efault());
    assert_eq!(t.mm.CopyDataIn(&mut pm, &files, ADDR + 0x1000, 4), efault());
    assert_eq!(t.mm.CopyDataIn(&mut pm, &files, ADDR + 0xffe, 4), efault());
    assert_eq!(t.mm.CopyDataIn(&mut pm, &files, u64::MAX - 1, 4), efault());
    assert_eq!(t.mm.CopyDataOut(&mut pm, &files, &[1, 2, 3, 4], ADDR + 0xffe, 4), efault());
    // Nothing of the failed write has reached memory.
    assert_eq!(t.mm.CopyDataIn(&mut pm, &files, ADDR + 0xffe, 2), Ok(vec![0, 0]));
    // An empty transfer at a valid address reads nothing.
    assert_eq!(t.mm.CopyDataIn(&mut pm, &files, ADDR, 0), Ok(vec![]));
}

#[test]
fn writes_to_read_only_areas_fail() {
    let (mut pm, files, mut t) = task(16, 0x2000, AccessType::ReadOnly());
    assert_eq!(t.CopyInObj::<u32>(&mut pm, &files, ADDR), Ok(0));
    assert_eq!(t.CopyOutObj(&mut pm, &files, &7u32, ADDR), efault());
    assert_eq!(t.CheckPermission(&mut pm, &files, ADDR, 0x2000, true, false), efault());
    assert_eq!(t.CheckPermission(&mut pm, &files, ADDR, 0x2000, false, false), Ok(0x2000));
}

#[test]
fn partial_checks_return_the_accessible_prefix() {
    let mut uids = UidService::New();
    let mut pm = PageMgr::New(BASE, 16).unwrap();
    let mut files = MappableTable::New();
    let mut mm = MemoryManager::Empty(&mut uids);
    mm.AddVMA(&mut files, &Range::New(ADDR, 0x1000), VMA::Anonymous(AccessType::ReadWrite(), ""))
        .unwrap();
    mm.AddVMA(
        &mut files,
        &Range::New(ADDR + 0x1000, 0x1000),
        VMA::Anonymous(AccessType::ReadOnly(), ""),
    )
    .unwrap();
    let mut t = Task::New(1, mm);
    assert_eq!(t.CheckPermission(&mut pm, &files, ADDR + 0x800, 0x1000, true, true), Ok(0x800));
    assert_eq!(
        t.CheckPermission(&mut pm, &files, ADDR + 0x800, 0x1000, true, false),
        Err(Error::SysError(SysErr::EFAULT))
    );
    // No progress at all is an error even when a part is allowed.
    assert_eq!(
        t.CheckPermission(&mut pm, &files, ADDR + 0x1000, 0x10, true, true),
        Err(Error::SysError(SysErr::EFAULT))
    );
    assert_eq!(t.CheckPermission(&mut pm, &files, ADDR, 0, true, false), Ok(0));
    assert_eq!(t.CheckPermission(&mut pm, &files, 0, 0, true, false), Ok(0));
    assert_eq!(t.CheckPermission(&mut pm, &files, 0, 1, false, false), efault());
}

#[test]
fn typed_values_round_trip() {
    let (mut pm, files, mut t) = task(16, 0x3000, AccessType::ReadWrite());
    let at = ADDR + 0xffd;
    assert_eq!(t.CopyOutObj(&mut pm, &files, &0x1122_3344_5566_7788u64, at), Ok(()));
    assert_eq!(t.CopyInObj::<u64>(&mut pm, &files, at), Ok(0x1122_3344_5566_7788));
    // The bytes are little-endian.
    assert_eq!(t.CopyInObj::<u8>(&mut pm, &files, at), Ok(0x88));
    assert_eq!(t.CopyInObj::<u16>(&mut pm, &files, at + 6), Ok(0x1122));
    assert_eq!(t.CopyInObj::<u32>(&mut pm, &files, at + 2), Ok(0x3344_5566));

    let iov = IoVec::NewFromAddr(0xdead_beef, 77);
    assert_eq!(t.CopyOutObj(&mut pm, &files, &iov, ADDR + 0x2000), Ok(()));
    assert_eq!(t.CopyInObj::<IoVec>(&mut pm, &files, ADDR + 0x2000), Ok(iov));
    assert_eq!(t.CopyInObj::<u64>(&mut pm, &files, ADDR + 0x2008), Ok(77));
}

#[test]
fn vectors_and_slices_round_trip() {
    let (mut pm, files, mut t) = task(16, 0x3000, AccessType::ReadWrite());
    let src: Vec<u32> = vec![1, 2, 3, 0xffff_ffff, 5];
    assert_eq!(
        t.CopyOutSlice(&mut pm, &files, &src, ADDR + 0xff8, 4),
        Err(Error::SysError(SysErr::ERANGE))
    );
    assert_eq!(t.CopyOutSlice(&mut pm, &files, &src, ADDR + 0xff8, 5), Ok(()));
    assert_eq!(t.CopyInVec::<u32>(&mut pm, &files, ADDR + 0xff8, 5), Ok(src));
    assert_eq!(t.CopyInVec::<u16>(&mut pm, &files, ADDR + 0xff8, 2), Ok(vec![1, 0]));
    assert_eq!(t.CopyInVec::<u64>(&mut pm, &files, ADDR, usize::MAX), efault());
}

#[test]
fn swap_and_compare_and_swap() {
    let (mut pm, files, mut t) = task(16, 0x1000, AccessType::ReadWrite());
    t.CopyOutObj(&mut pm, &files, &10u32, ADDR).unwrap();
    assert_eq!(t.mm.SwapObj(&mut pm, &files, &20u32, ADDR), Ok(10));
    assert_eq!(t.CopyInObj::<u32>(&mut pm, &files, ADDR), Ok(20));

    // The expected value is there: the new value is written.
    assert_eq!(t.mm.CompareAndSwap(&mut pm, &files, ADDR, 20u32, 30u32), Ok(20));
    assert_eq!(t.CopyInObj::<u32>(&mut pm, &files, ADDR), Ok(30));
    // Another value is there: nothing is written.
    assert_eq!(t.mm.CompareAndSwap(&mut pm, &files, ADDR, 20u32, 40u32), Ok(30));
    assert_eq!(t.CopyInObj::<u32>(&mut pm, &files, ADDR), Ok(30));
    assert_eq!(t.mm.CompareAndSwap(&mut pm, &files, ADDR + 0x1000, 0u32, 1u32), efault());
}

#[test]
fn string_that_is_too_long() {
    let (mut pm, files, mut t) = task(16, 0x1000, AccessType::ReadWrite());
    t.mm.CopyDataOut(&mut pm, &files, b"ABCDEFGHIJKLMNOP", ADDR, 16).unwrap();
    let (s, r) = t.CopyInString(&mut pm, &files, ADDR, 8);
    assert_eq!(s, "ABCDEFGH");
    assert_eq!(r, Err(Error::SysError(SysErr::ENAMETOOLONG)));
}

#[test]
fn strings_round_trip() {
    let (mut pm, files, mut t) = task(16, 0x2000, AccessType::ReadWrite());
    let at = ADDR + 0xffa;
    assert_eq!(t.CopyOutString(&mut pm, &files, at, 32, "héllo, wörld"), Ok(()));
    let (s, r) = t.CopyInString(&mut pm, &files, at, 32);
    assert_eq!(s, "héllo, wörld");
    assert_eq!(r, Ok(()));
    // Room for the text but not for its NUL byte.
    assert_eq!(
        t.CopyOutString(&mut pm, &files, at, 5, "hello"),
        Err(Error::SysError(SysErr::ERANGE))
    );
    assert_eq!(t.CopyOutString(&mut pm, &files, at, 6, "hello"), Ok(()));
    let (s, r) = t.CopyInString(&mut pm, &files, at, 6);
    assert_eq!((s.as_str(), r), ("hello", Ok(())));
    // A text with a NUL character reads back cut off.
    assert_eq!(t.CopyOutString(&mut pm, &files, at, 32, "a\0b"), Ok(()));
    let (s, r) = t.CopyInString(&mut pm, &files, at, 32);
    assert_eq!((s.as_str(), r), ("a", Ok(())));
}

#[test]
fn strings_report_errors_with_an_empty_text() {
    let (mut pm, files, mut t) = task(16, 0x1000, AccessType::ReadWrite());
    let (s, r) = t.CopyInString(&mut pm, &files, 0, 8);
    assert_eq!((s.as_str(), r), ("", Err(Error::SysError(SysErr::EFAULT))));
    // The range reaches past the area.
    let (s, r) = t.CopyInString(&mut pm, &files, ADDR + 0xff0, 32);
    assert_eq!((s.as_str(), r), ("", Err(Error::SysError(SysErr::EFAULT))));
    // Bytes that are no text.
    t.mm.CopyDataOut(&mut pm, &files, &[0xff, 0xfe, 0], ADDR, 3).unwrap();
    let (s, r) = t.CopyInString(&mut pm, &files, ADDR, 8);
    assert_eq!((s.as_str(), r), ("", Err(Error::SysError(SysErr::EILSEQ))));
    // No byte at all may be read: the text is too long.
    let (s, r) = t.CopyInString(&mut pm, &files, ADDR, 0);
    assert_eq!((s.as_str(), r), ("", Err(Error::SysError(SysErr::ENAMETOOLONG))));
}

fn put_argv(pm: &mut PageMgr, files: &MappableTable, t: &mut Task, args: &[&str]) -> u64 {
    let table = ADDR;
    let mut at = ADDR + 0x100;
    let mut ptrs: Vec<u64> = Vec::new();
    for a in args {
        t.CopyOutString(pm, files, at, a.len() + 1, a).unwrap();
        ptrs.push(at);
        at += a.len() as u64 + 1;
    }
    ptrs.push(0);
    t.CopyOutSlice(pm, files, &ptrs, table, ptrs.len()).unwrap();
    table
}

#[test]
fn vector_within_its_budget() {
    let (mut pm, files, mut t) = task(16, 0x1000, AccessType::ReadWrite());
    let addr = put_argv(&mut pm, &files, &mut t, &["a", "b", "c"]);
    assert_eq!(
        t.CopyInVector(&mut pm, &files, addr, 16, 6),
        Ok(vec!["a".to_string(), "b".to_string(), "c".to_string()])
    );
}

#[test]
fn vector_over_its_budget() {
    let (mut pm, files, mut t) = task(16, 0x1000, AccessType::ReadWrite());
    let addr = put_argv(&mut pm, &files, &mut t, &["a", "b", "c"]);
    assert_eq!(
        t.CopyInVector(&mut pm, &files, addr, 16, 5),
        Err(Error::SysError(SysErr::ENOMEM))
    );
    assert_eq!(
        t.CopyInVector(&mut pm, &files, addr, 16, 4),
        Err(Error::SysError(SysErr::ENOMEM))
    );
    assert_eq!(
        t.CopyInVector(&mut pm, &files, addr, 16, 0),
        Err(Error::SysError(SysErr::ENOMEM))
    );
}

#[test]
fn vector_edge_cases() {
    let (mut pm, files, mut t) = task(16, 0x1000, AccessType::ReadWrite());
    assert_eq!(t.CopyInVector(&mut pm, &files, 0, 16, 6), Ok(vec![]));
    let addr = put_argv(&mut pm, &files, &mut t, &["abc", "defgh"]);
    assert_eq!(
        t.CopyInVector(&mut pm, &files, addr, 16, 100),
        Ok(vec!["abc".to_string(), "defgh".to_string()])
    );
    // A string longer than the largest size of a string.
    assert_eq!(
        t.CopyInVector(&mut pm, &files, addr, 4, 100),
        Err(Error::SysError(SysErr::ENAMETOOLONG))
    );
    // Only the pointers that are asked for are read.
    assert_eq!(
        t.mm.CopyInStrings(&mut pm, &files, &vec![ADDR + 0x100], 16, 100),
        Ok(vec!["abc".to_string()])
    );
    let empty = put_argv(&mut pm, &files, &mut t, &[]);
    assert_eq!(t.CopyInVector(&mut pm, &files, empty, 16, 6), Ok(vec![]));
}

#[test]
fn virtual_to_phy() {
    let (mut pm, files, mut t) = task(16, 0x2000, AccessType::ReadWrite());
    assert_eq!(t.VirtualToPhy(0), efault());
    assert_eq!(t.VirtualToPhy(ADDR + 3), Err(Error::AddressNotMap(ADDR + 3)));
    t.CheckPermission(&mut pm, &files, ADDR + 0x1000, 1, false, false).unwrap();
    assert_eq!(t.VirtualToPhy(ADDR + 0x1003), Ok(BASE + 3));
}

#[test]
fn v2p_gives_one_run_for_each_page() {
    let (mut pm, files, mut t) = task(16, 0x4000, AccessType::ReadWrite());
    // Fault the pages in out of order, so that their frames are too.
    t.CheckPermission(&mut pm, &files, ADDR + 0x2000, 1, true, false).unwrap();
    t.CheckPermission(&mut pm, &files, ADDR + 0x1000, 1, true, false).unwrap();
    let mut out: Vec<IoVec> = Vec::new();
    assert_eq!(t.V2P(&mut pm, &files, ADDR + 0xff0, 0x2020, &mut out, true), Ok(()));
    assert_eq!(
        out,
        vec![
            IoVec::NewFromAddr(BASE + 0x2000 + 0xff0, 0x10),
            IoVec::NewFromAddr(BASE + 0x1000, 0x1000),
            IoVec::NewFromAddr(BASE, 0x1000),
            IoVec::NewFromAddr(BASE + 0x3000, 0x10),
        ]
    );
    let total: usize = out.iter().map(|v: &IoVec| v.len).sum();
    assert_eq!(total, 0x2020);
    assert_eq!(IoVec::NumBytes(&out), 0x2020);

    // Runs are appended; an error leaves the output as it was.
    assert_eq!(
        t.V2PIov(&mut pm, &files, &IoVec::NewFromAddr(ADDR + 0x3ff0, 0x20), &mut out, false),
        efault()
    );
    assert_eq!(out.len(), 4);
    assert_eq!(
        t.V2PIov(&mut pm, &files, &IoVec::NewFromAddr(ADDR, 1), &mut out, false),
        Ok(())
    );
    assert_eq!(out[4], IoVec::NewFromAddr(BASE + 0x2000, 1));
}

#[test]
fn v2p_of_several_runs() {
    let (mut pm, files, mut t) = task(16, 0x2000, AccessType::ReadWrite());
    let iovs = [IoVec::NewFromAddr(ADDR + 8, 8), IoVec::NewFromAddr(ADDR + 0x1000, 4)];
    let mut out: Vec<IoVec> = Vec::new();
    assert_eq!(t.V2PIovs(&mut pm, &files, &iovs, false, &mut out), Ok(()));
    assert_eq!(out, vec![IoVec::NewFromAddr(BASE + 8, 8), IoVec::NewFromAddr(BASE + 0x1000, 4)]);

    let mut out2: Vec<IoVec> = Vec::new();
    let bs = BlockSeq::NewFromSlice(&iovs);
    assert!(!bs.IsEmpty());
    assert_eq!(bs.Head(), iovs[0]);
    assert_eq!(bs.Tail().Head(), iovs[1]);
    assert!(bs.Tail().Tail().IsEmpty());
    assert_eq!(t.V2PBlockSeq(&mut pm, &files, bs, &mut out2, false), Ok(()));
    assert_eq!(out2, out);

    // The runs before the one that fails stay in the output.
    let bad = [iovs[0], IoVec::NewFromAddr(ADDR + 0x2000, 4), iovs[1]];
    let mut out3: Vec<IoVec> = Vec::new();
    assert_eq!(t.V2PIovs(&mut pm, &files, &bad, false, &mut out3), efault());
    assert_eq!(out3, vec![IoVec::NewFromAddr(BASE + 8, 8)]);
    assert_eq!(t.CheckIOVecPermission(&mut pm, &files, &iovs, true), Ok(()));
    assert_eq!(t.CheckIOVecPermission(&mut pm, &files, &bad, true), efault());
    assert_eq!(t.CheckIOVecPermission(&mut pm, &files, &[], true), Ok(()));
}

#[test]
fn iovs_from_guest_memory() {
    let (mut pm, files, mut t) = task(16, 0x2000, AccessType::ReadWrite());
    let iovs = [IoVec::NewFromAddr(1, 2), IoVec::NewFromAddr(3, 4)];
    t.CopyOutSlice(&mut pm, &files, &iovs, ADDR + 0xff0, 2).unwrap();
    assert_eq!(t.IovsFromAddr(&mut pm, &files, ADDR + 0xff0, 2), Ok(iovs.to_vec()));
    assert_eq!(t.IovsFromAddr(&mut pm, &files, ADDR + 0xff0, 0), Ok(vec![]));
    assert_eq!(t.IovsFromAddr(&mut pm, &files, ADDR + 0x1ff8, 1), efault());
    assert_eq!(t.IovsFromAddr(&mut pm, &files, ADDR, usize::MAX), efault());
}

#[test]
fn c_strings_and_text() {
    assert_eq!(CString::New("ab").Slice(), b"ab\0");
    assert_eq!(CString::New("").Len(), 1);
    assert_eq!(FirstNul(b"abc\0de\0"), 3);
    assert_eq!(FirstNul(b"abc"), 3);
    assert_eq!(FirstNul(b""), 0);
    assert_eq!(StringFromBytes(b"hi\0there"), ("hi".to_string(), Ok(())));
    assert_eq!(
        StringFromBytes(b"hi"),
        ("hi".to_string(), Err(Error::SysError(SysErr::ENAMETOOLONG)))
    );
    assert_eq!(
        StringFromBytes(&[0x80, 0]),
        (String::new(), Err(Error::SysError(SysErr::EILSEQ)))
    );
    assert_eq!(TextFromBytes("grüße".as_bytes()), Some("grüße".to_string()));
    assert_eq!(TextFromBytes(&[0xc3]), None);
}

#[test]
fn compare_and_swap_changes_the_value_only() {
    let (mut pm, files, mut t) = task(16, 0x2000, AccessType::ReadWrite());
    // The value lies across the boundary of two pages.
    let at = ADDR + 0x1000 - 2;
    let around: Vec<u8> = (1..=12u8).collect();
    assert_eq!(t.mm.CopyDataOut(&mut pm, &files, &around, at - 4, 12), Ok(()));
    let old = u32::from_le_bytes([5, 6, 7, 8]);
    assert_eq!(t.mm.CompareAndSwap::<u32>(&mut pm, &files, at, old, 0xdddd_dddd), Ok(old));
    assert_eq!(
        t.mm.CopyDataIn(&mut pm, &files, at - 4, 12),
        Ok(vec![1, 2, 3, 4, 0xdd, 0xdd, 0xdd, 0xdd, 9, 10, 11, 12])
    );
    // A value that is not the expected one changes nothing.
    assert_eq!(t.mm.CompareAndSwap::<u32>(&mut pm, &files, at, old, 0), Ok(0xdddd_dddd));
    assert_eq!(
        t.mm.CopyDataIn(&mut pm, &files, at - 4, 12),
        Ok(vec![1, 2, 3, 4, 0xdd, 0xdd, 0xdd, 0xdd, 9, 10, 11, 12])
    );
}

#[test]
fn compare_and_swap_on_a_shared_page_keeps_the_other_bytes() {
    let mut uids = UidService::New();
    let mut pm = PageMgr::New(BASE, 16).unwrap();
    let mut files = MappableTable::New();
    let mut parent = MemoryManager::Empty(&mut uids);
    parent
        .AddVMA(&mut files, &Range::New(ADDR, 0x1000), VMA::Anonymous(AccessType::ReadWrite(), ""))
        .unwrap();
    let around: Vec<u8> = (1..=12u8).collect();
    assert_eq!(parent.CopyDataOut(&mut pm, &files, &around, ADDR, 12), Ok(()));
    let mut child = parent.Fork(&mut uids, &mut files, &mut pm).unwrap();
    let (shared, _) = parent.VirtualToPhy(ADDR).unwrap();

    // The page is copied for the parent on the way, with every byte of it.
    let old = u32::from_le_bytes([5, 6, 7, 8]);
    assert_eq!(parent.CompareAndSwap::<u32>(&mut pm, &files, ADDR + 4, old, 0), Ok(old));
    assert_ne!(parent.VirtualToPhy(ADDR).unwrap().0, shared);
    assert_eq!(
        parent.CopyDataIn(&mut pm, &files, ADDR, 12),
        Ok(vec![1, 2, 3, 4, 0, 0, 0, 0, 9, 10, 11, 12])
    );
    // The child sees nothing of it.
    assert_eq!(child.VirtualToPhy(ADDR), Ok((shared, false)));
    assert_eq!(child.CopyDataIn(&mut pm, &files, ADDR, 12), Ok(around));
}

#[test]
fn a_string_is_read_back_where_the_pages_behind_it_can_be_read() {
    let (mut pm, files, mut t) = task(16, 0x3000, AccessType::ReadWrite());
    assert_eq!(t.CopyOutString(&mut pm, &files, ADDR + 0xff0, 8, "quark"), Ok(()));
    assert_eq!(t.mm.data.pt.Count(), 1);
    // The pages behind the string are faulted in on the way.
    let (s, r) = t.CopyInString(&mut pm, &files, ADDR + 0xff0, 0x1800);
    assert_eq!((s.as_str(), r), ("quark", Ok(())));
    assert_eq!(t.mm.data.pt.Count(), 3);
    // Behind the area nothing can be read, and the string is not either.
    let (s, r) = t.CopyInString(&mut pm, &files, ADDR + 0xff0, 0x2800);
    assert_eq!((s.as_str(), r), ("", Err(Error::SysError(SysErr::EFAULT))));
}

#[test]
fn two_pages_on_one_frame_read_back_what_was_written_last() {
    let (mut pm, files, mut t) = task(16, 0x2000, AccessType::ReadWrite());
    let frame = pm.AllocPage(true).unwrap();
    pm.Ref(frame).unwrap();
    assert_eq!(t.mm.MapPageWrite(ADDR, frame, &mut pm), Ok(false));
    assert_eq!(t.mm.MapPageWrite(ADDR + 0x1000, frame, &mut pm), Ok(false));
    assert_eq!(pm.GetRef(frame), Ok(3));

    // A value lies on bytes of its own, also across the two pages.
    let at = ADDR + 0x1000 - 4;
    let value: u64 = 0x0807_0605_0403_0201;
    assert_eq!(t.mm.CopyOutObj(&mut pm, &files, &value, at), Ok(()));
    assert_eq!(t.mm.CopyInObj::<u64>(&mut pm, &files, at), Ok(value));
    assert_eq!(t.mm.CompareAndSwap::<u64>(&mut pm, &files, at, value, 9), Ok(value));
    assert_eq!(t.mm.CopyInObj::<u64>(&mut pm, &files, at), Ok(9));

    // Data longer than a page comes twice to the same bytes.
    let data: Vec<u8> = (0..0x1001u32).map(|i| if i < 0x1000 { 1 } else { 2 }).collect();
    assert_eq!(t.mm.CopyDataOut(&mut pm, &files, &data, ADDR, data.len()), Ok(()));
    let back = t.mm.CopyDataIn(&mut pm, &files, ADDR, data.len()).unwrap();
    assert_eq!(back[0], 2);
    assert_eq!(back[0x1000], 2);
    assert_eq!(&back[1..0x1000], &data[1..0x1000]);
}
