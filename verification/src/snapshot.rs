//! The `/proc` view of an address space: its areas as text, and its size.
use vstd::prelude::*;
use vstd::utf8::{decode_utf8, encode_utf8, valid_utf8};
use crate::areaset::AreaEntry;
use crate::cstring::TextFromBytes;
use crate::linux_def::{Error, MemoryDef, SysErr};
use crate::mm::MemoryManager;
use crate::vma::VMA;

verus! {

/// The character for the hexadecimal digit `d`.
pub open spec fn hex_char(d: int) -> u8 {
    if d < 10 {
        (0x30 + d) as u8
    } else {
        (0x61 + d - 10) as u8
    }
}

/// The hexadecimal digits of `x`, without leading zeros; one digit for 0.
pub open spec fn hex_digits(x: nat) -> Seq<u8>
    decreases x,
{
    if x < 16 {
        seq![hex_char(x as int)]
    } else {
        hex_digits(x / 16).push(hex_char((x % 16) as int))
    }
}

/// The decimal digits of `x`, without leading zeros; one digit for 0.
pub open spec fn dec_digits(x: nat) -> Seq<u8>
    decreases x,
{
    if x < 10 {
        seq![(0x30 + x) as u8]
    } else {
        dec_digits(x / 10).push((0x30 + x % 10) as u8)
    }
}

/// `count` times the byte `b`.
pub open spec fn fill(count: int, b: u8) -> Seq<u8> {
    Seq::new(
        if count > 0 {
            count as nat
        } else {
            0
        },
        |i: int| b,
    )
}

/// The hexadecimal digits of `x`, with zeros in front up to `width`
/// digits.
pub open spec fn hex_padded(x: nat, width: int) -> Seq<u8> {
    fill(width - hex_digits(x).len(), 0x30u8) + hex_digits(x)
}

/// The bytes `s`, with spaces behind up to `width` bytes.
pub open spec fn pad_right(s: Seq<u8>, width: int) -> Seq<u8> {
    s + fill(width - s.len(), 0x20u8)
}

/// The column at which the name of an area begins.
pub open spec fn name_column() -> int {
    73
}

/// The device and the inode that a line shows for the area: those of its
/// mapping identity, 0 without one.
pub open spec fn area_dev(vma: VMA) -> (nat, nat, nat) {
    match vma.id {
        None => (0, 0, 0),
        Some(id) => (
            ((id.device / 0x10_0000) % 0x1_0000_0000) as nat,
            (id.device % 0x10_0000) as nat,
            id.inode as nat,
        ),
    }
}

/// The name that a line shows for the area: its hint where it has one,
/// else the name of its mapping identity where it has one, else nothing.
pub open spec fn area_name(vma: VMA) -> Seq<u8> {
    if encode_utf8(vma.hint@).len() > 0 {
        encode_utf8(vma.hint@)
    } else {
        match vma.id {
            None => Seq::<u8>::empty(),
            Some(id) => encode_utf8(id.name@),
        }
    }
}

/// The fields of the line of an area: start and end, rights, offset,
/// device and inode, each followed by its separator.
pub open spec fn maps_fields(e: AreaEntry) -> Seq<u8> {
    let d = area_dev(e.vma);
    hex_padded(e.range.start as nat, 8) + seq![0x2du8] + hex_padded(e.range.end() as nat, 8)
        + seq![0x20u8] + e.vma.realPerms.text() + seq![
        if e.vma.private {
            0x70u8
        } else {
            0x73u8
        },
        0x20u8,
    ] + hex_padded(e.vma.offset as nat, 8) + seq![0x20u8] + hex_padded(d.0, 2) + seq![0x3au8]
        + hex_padded(d.1, 2) + seq![0x20u8] + dec_digits(d.2) + seq![0x20u8]
}

/// Number of blanks that end the line of an area without name.
pub open spec fn blank_tail() -> int {
    72
}

/// The line of an area. For an area with a name: its fields, blanks up to
/// the column of the name, the name, and a line feed. For an area without
/// name: its fields, `blank_tail` blanks, and a line feed.
pub open spec fn maps_line(e: AreaEntry) -> Seq<u8> {
    if area_name(e.vma).len() == 0 {
        maps_fields(e) + fill(blank_tail(), 0x20u8) + seq![0x0au8]
    } else {
        pad_right(maps_fields(e), name_column()) + area_name(e.vma) + seq![0x0au8]
    }
}

/// The lines of the areas, in order; without the kernel's areas if
/// `skipKernel` is set.
pub open spec fn maps_lines(segs: Seq<AreaEntry>, skipKernel: bool) -> Seq<u8>
    decreases segs.len(),
{
    if segs.len() == 0 {
        Seq::<u8>::empty()
    } else if segs.last().vma.kernel && skipKernel {
        maps_lines(segs.drop_last(), skipKernel)
    } else {
        maps_lines(segs.drop_last(), skipKernel) + maps_line(segs.last())
    }
}

/// The line that ends every listing: the page of the system calls.
pub open spec fn vsyscall_line() -> Seq<u8> {
    encode_utf8(
        "ffffffffff600000-ffffffffff601000 --xp 00000000 00:00 0                  [vsyscall]\n"@,
    )
}

/// The size line: the pages of an address space of `vss` bytes, the pages
/// of `rss` resident bytes, and five zeros.
pub open spec fn statm_line(vss: nat, rss: nat) -> Seq<u8> {
    dec_digits(vss / 4096) + seq![0x20u8] + dec_digits(rss / 4096) + seq![
        0x20u8,
        0x30u8,
        0x20u8,
        0x30u8,
        0x20u8,
        0x30u8,
        0x20u8,
        0x30u8,
        0x20u8,
        0x30u8,
        0x0au8,
    ]
}

/// Appends the hexadecimal digits of `x` to `out`.
pub fn PushHex(out: &mut Vec<u8>, x: u64)
    ensures
        final(out)@ == old(out)@ + hex_digits(x as nat),
    decreases x,
{
    if x >= 16 {
        PushHex(out, x / 16);
    }
    let d = (x % 16) as u8;
    let c = if d < 10 {
        0x30 + d
    } else {
        0x61 + (d - 10)
    };
    out.push(c);
    proof {
        assert(c == hex_char((x % 16) as int));
        if x < 16 {
            assert(out@ =~= old(out)@ + hex_digits(x as nat));
        } else {
            assert(out@ =~= old(out)@ + hex_digits(x as nat));
        }
    }
}

/// Appends the decimal digits of `x` to `out`.
pub fn PushDec(out: &mut Vec<u8>, x: u64)
    ensures
        final(out)@ == old(out)@ + dec_digits(x as nat),
    decreases x,
{
    if x >= 10 {
        PushDec(out, x / 10);
    }
    let c = 0x30 + (x % 10) as u8;
    out.push(c);
    proof {
        assert(out@ =~= old(out)@ + dec_digits(x as nat));
    }
}

/// Number of hexadecimal digits of `x`.
pub fn HexLen(x: u64) -> (n: usize)
    ensures
        n == hex_digits(x as nat).len(),
        1 <= n <= 16,
    decreases x,
{
    if x < 16 {
        1
    } else {
        let n = HexLen(x / 16);
        proof {
            lemma_hex_len(x as nat);
        }
        n + 1
    }
}

/// 16 to the power of `k`.
pub open spec fn pow16(k: nat) -> nat
    decreases k,
{
    if k == 0 {
        1
    } else {
        16 * pow16((k - 1) as nat)
    }
}

/// A 64-bit number has at most 16 hexadecimal digits.
pub proof fn lemma_hex_len(x: nat)
    ensures
        1 <= hex_digits(x).len(),
        x < 0x1_0000_0000_0000_0000 ==> hex_digits(x).len() <= 16,
{
    lemma_hex_at_least(x);
    reveal_with_fuel(pow16, 17);
    assert(pow16(16) == 0x1_0000_0000_0000_0000);
    lemma_hex_bound(x, 16);
}

/// A number below 16 to the power of `k` has at most `k` digits.
pub proof fn lemma_hex_bound(x: nat, k: nat)
    requires
        k >= 1,
    ensures
        x < pow16(k) ==> hex_digits(x).len() <= k,
    decreases k,
{
    if x >= 16 && x < pow16(k) {
        assert(pow16(1) == 16) by {
            reveal_with_fuel(pow16, 2);
        }
        assert(k > 1);
        lemma_hex_bound(x / 16, (k - 1) as nat);
    }
}

pub proof fn lemma_hex_at_least(x: nat)
    ensures
        1 <= hex_digits(x).len(),
    decreases x,
{
    if x >= 16 {
        lemma_hex_at_least(x / 16);
    }
}

/// Appends `count` times the byte `b` to `out`.
pub fn PushFill(out: &mut Vec<u8>, count: usize, b: u8)
    ensures
        final(out)@ == old(out)@ + fill(count as int, b),
{
    let mut i: usize = 0;
    assert(out@ =~= old(out)@ + fill(0, b));
    while i < count
        invariant
            i <= count,
            out@ == old(out)@ + fill(i as int, b),
        decreases count - i,
    {
        out.push(b);
        assert(out@ =~= old(out)@ + fill(i + 1, b));
        i = i + 1;
    }
}

/// Appends the hexadecimal digits of `x` to `out`, with zeros in front up
/// to `width` digits.
pub fn PushHexPadded(out: &mut Vec<u8>, x: u64, width: usize)
    ensures
        final(out)@ == old(out)@ + hex_padded(x as nat, width as int),
{
    let n = HexLen(x);
    if n < width {
        PushFill(out, width - n, 0x30u8);
    } else {
        assert(fill(width - n, 0x30u8) =~= Seq::<u8>::empty());
    }
    PushHex(out, x);
    assert(out@ =~= old(out)@ + hex_padded(x as nat, width as int));
}

/// Appends the bytes of `s` to `out`.
pub fn PushStr(out: &mut Vec<u8>, s: &str)
    ensures
        final(out)@ == old(out)@ + encode_utf8(s@),
{
    let b = s.as_bytes();
    let n = b.len();
    let mut i: usize = 0;
    assert(out@ =~= old(out)@ + b@.take(0));
    while i < n
        invariant
            n == b@.len(),
            i <= n,
            out@ == old(out)@ + b@.take(i as int),
        decreases n - i,
    {
        out.push(b[i]);
        assert(out@ =~= old(out)@ + b@.take(i + 1));
        i = i + 1;
    }
    assert(b@.take(n as int) =~= b@);
}

/// Appends the line of the area `e` to `out`.
#[verifier::rlimit(30)]
pub fn PushMapsLine(out: &mut Vec<u8>, e: &AreaEntry)
    requires
        e.range.wf(),
    ensures
        final(out)@ == old(out)@ + maps_line(*e),
{
    let mut line: Vec<u8> = Vec::new();
    let (dev, inodeId) = match &e.vma.id {
        None => (0, 0),
        Some(mapping) => (mapping.DeviceID(), mapping.InodeID()),
    };
    let devMajor = (dev / 0x10_0000) % 0x1_0000_0000;
    let devMinor = dev % 0x10_0000;
    PushHexPadded(&mut line, e.range.Start(), 8);
    line.push(0x2du8);
    PushHexPadded(&mut line, e.range.End(), 8);
    line.push(0x20u8);
    let mut perms = e.vma.realPerms.String();
    line.append(&mut perms);
    line.push(if e.vma.private { 0x70u8 } else { 0x73u8 });
    line.push(0x20u8);
    PushHexPadded(&mut line, e.vma.offset, 8);
    line.push(0x20u8);
    PushHexPadded(&mut line, devMajor, 2);
    line.push(0x3au8);
    PushHexPadded(&mut line, devMinor, 2);
    line.push(0x20u8);
    PushDec(&mut line, inodeId);
    line.push(0x20u8);
    assert(line@ =~= maps_fields(*e));
    let name: &str = if e.vma.hint.as_bytes().len() > 0 {
        e.vma.hint
    } else {
        match &e.vma.id {
            None => "",
            Some(id) => id.MappedName(),
        }
    };
    proof {
        reveal_strlit("");
        assert(encode_utf8(""@) =~= Seq::<u8>::empty());
        assert(encode_utf8(name@) == area_name(e.vma));
    }
    if name.as_bytes().len() == 0 {
        PushFill(&mut line, 72, 0x20u8);
    } else {
        let n = line.len();
        if n < 73 {
            PushFill(&mut line, 73 - n, 0x20u8);
        } else {
            assert(fill(73 - n, 0x20u8) =~= Seq::<u8>::empty());
        }
        PushStr(&mut line, name);
    }
    line.push(0x0au8);
    assert(line@ =~= maps_line(*e));
    out.append(&mut line);
}

impl MemoryManager {
    pub const DEV_MINOR_BITS: usize = 20;

    pub const VSYSCALLEND: u64 = 0xffffffffff601000;

    pub const VSYSCALL_MAPS_ENTRY: &'static str =
        "ffffffffff600000-ffffffffff601000 --xp 00000000 00:00 0                  [vsyscall]\n";

    /// The bytes of the listing of the areas: a line for each area, in
    /// order, without the kernel's areas if `skipKernel` is set, and the
    /// line of the page of the system calls.
    pub fn SnapshotBytes(&self, skipKernel: bool) -> (r: Vec<u8>)
        requires
            self.data.vmas.wf(),
        ensures
            r@ == maps_lines(self.data.vmas.segs@, skipKernel) + vsyscall_line(),
    {
        let mut ret: Vec<u8> = Vec::new();
        let n = self.data.vmas.segs.len();
        let mut i: usize = 0;
        let ghost S = self.data.vmas.segs@;
        assert(ret@ =~= maps_lines(S.take(0), skipKernel));
        while i < n
            invariant
                self.data.vmas.wf(),
                S == self.data.vmas.segs@,
                n == S.len(),
                i <= n,
                ret@ == maps_lines(S.take(i as int), skipKernel),
            decreases n - i,
        {
            let e = self.data.vmas.segs[i];
            proof {
                assert(S.take(i + 1).drop_last() =~= S.take(i as int));
                assert(S.take(i + 1).last() == e);
                assert(e.ok());
            }
            if !(e.vma.kernel && skipKernel) {
                PushMapsLine(&mut ret, &e);
            }
            i = i + 1;
        }
        assert(S.take(n as int) =~= S);
        PushStr(&mut ret, Self::VSYSCALL_MAPS_ENTRY);
        ret
    }

    /// The listing of the areas as text: see `SnapshotBytes`. Fails with
    /// `EILSEQ` when a name in it is no text.
    pub fn GetSnapshot(&self, skipKernel: bool) -> (r: Result<String, Error>)
        requires
            self.data.vmas.wf(),
        ensures
            ({
                let b = maps_lines(self.data.vmas.segs@, skipKernel) + vsyscall_line();
                &&& valid_utf8(b) ==> r.is_ok() && r.unwrap()@ == decode_utf8(b)
                &&& !valid_utf8(b) ==> r.is_err() && r.unwrap_err() == Error::SysError(SysErr::EILSEQ)
            }),
    {
        let bytes = self.SnapshotBytes(skipKernel);
        match TextFromBytes(bytes.as_slice()) {
            Some(s) => Ok(s),
            None => Err(Error::SysError(SysErr::EILSEQ)),
        }
    }

    /// The listing of the areas that are not the kernel's, as `/proc` shows
    /// it.
    pub fn GenMapsSnapshot(&self) -> (r: Vec<u8>)
        requires
            self.data.vmas.wf(),
        ensures
            r@ == maps_lines(self.data.vmas.segs@, true) + vsyscall_line(),
    {
        self.SnapshotBytes(true)
    }

    /// The size line as `/proc` shows it: the pages of the address space
    /// and the resident pages.
    pub fn GenStatmSnapshot(&self) -> (r: Vec<u8>)
        ensures
            r@ == statm_line(self.data.usageAS as nat, self.data.curRSS as nat),
    {
        let vss = self.data.usageAS;
        let rss = self.data.curRSS;
        let mut res: Vec<u8> = Vec::new();
        PushDec(&mut res, vss / MemoryDef::PAGE_SIZE);
        res.push(0x20u8);
        PushDec(&mut res, rss / MemoryDef::PAGE_SIZE);
        res.push(0x20u8);
        res.push(0x30u8);
        res.push(0x20u8);
        res.push(0x30u8);
        res.push(0x20u8);
        res.push(0x30u8);
        res.push(0x20u8);
        res.push(0x30u8);
        res.push(0x20u8);
        res.push(0x30u8);
        res.push(0x0au8);
        assert(res@ =~= statm_line(vss as nat, rss as nat));
        res
    }
}

} // verus!
