//! What was written to guest memory is what is read from it.
use vstd::prelude::*;
use vstd::utf8::{encode_utf8, encode_utf8_decode_utf8, encode_utf8_valid_utf8};
use crate::addr::page_down;
use crate::areaset::AreaSet;
use crate::cstring::{lemma_first_nul, text_of};
use crate::linux_def::{Error, IoVec};
use crate::mappable::MappableTable;
use crate::mm::{
    fix_page, fix_pages, fix_step, lemma_fix_pages, lemma_fix_pages_count, lemma_pages_of,
    pages_of, pages_ok, FixStep,
};
use crate::pagemgr::PmView;
use crate::pagetable::{lemma_lookup, lookup, pt_wf, PageEntry};
use crate::plain::Plain;
use crate::strings::string_step;
use crate::translate::{lemma_v2p, lemma_v2p_prefix, piece, v2p, v2p_step};
use crate::usermem::{all_held, check_step, gather, lemma_scatter, read_step, scatter, write_step};

verus! {

/// The physical address behind the virtual address `va`.
pub open spec fn phys(es: Seq<PageEntry>, va: int) -> int {
    lookup(es, page_down(va)).unwrap().paddr + va % 4096
}

/// The page that holds the `i`-th byte from `a` on.
pub open spec fn byte_page(a: int, i: int) -> int {
    page_down(a + i)
}

/// The frame of the `k`-th page from `first` on.
pub open spec fn frame_of(es: Seq<PageEntry>, first: int, k: int) -> int {
    lookup(es, first + 4096 * k).unwrap().paddr as int
}

/// The pages that hold `[a, a + len)` have frames that differ from one
/// another.
pub open spec fn distinct_frames(es: Seq<PageEntry>, a: int, len: int) -> bool {
    forall|j: int, k: int|
        0 <= j < k < pages_of(a, len) ==> #[trigger] frame_of(es, page_down(a), j)
            != #[trigger] frame_of(es, page_down(a), k)
}

/// Addresses of the range at `a` that lie on the same byte of memory get
/// the same byte of `data`. This is so for every `data` where no two
/// addresses of the range lie on the same byte, as in every range of at
/// most a page's length.
pub open spec fn agrees(es: Seq<PageEntry>, a: int, data: Seq<u8>) -> bool {
    forall|i: int, j: int|
        #![trigger data[i], data[j]]
        0 <= i < j < data.len() && phys(es, a + i) == phys(es, a + j) ==> data[i] == data[j]
}

/// The range `[a, a + len)` can be read as it is: it does not start in
/// the null page, each of its pages has a leaf, and the memory behind it
/// lies in the pool.
pub open spec fn readable(es: Seq<PageEntry>, pm: PmView, a: int, len: int) -> bool {
    &&& 4096 <= a
    &&& 0 < len
    &&& a + len <= u64::MAX
    &&& pages_ok(es, page_down(a), pages_of(a, len), false)
    &&& all_held(pm, v2p(es, a, len))
}

/// Where the `k`-th run of a translation starts and ends in the range, and
/// what it is.
pub proof fn lemma_piece(es: Seq<PageEntry>, a: int, len: int, k: int)
    requires
        pt_wf(es),
        0 <= a,
        0 < len,
        a + len <= u64::MAX,
        pages_ok(es, page_down(a), pages_of(a, len), false),
        0 <= k < pages_of(a, len),
    ensures
        ({
            let v = v2p(es, a, len);
            let t = IoVec::total(v.take(k));
            let page = page_down(a) + 4096 * k;
            &&& v[k] == piece(es, a, a + len, k)
            &&& 0 <= t
            &&& t + v[k].len == IoVec::total(v.take(k + 1))
            &&& t + v[k].len <= len
            &&& 0 < v[k].len <= 4096
            &&& page <= a + t
            &&& a + t + v[k].len <= page + 4096
            &&& v[k].start == frame_of(es, page_down(a), k) + (a + t - page)
            &&& frame_of(es, page_down(a), k) % 4096 == 0
            &&& forall|i: int| t <= i < t + v[k].len ==> #[trigger] byte_page(a, i) == page
        }),
{
    let v = v2p(es, a, len);
    lemma_pages_of(a, len);
    lemma_v2p_prefix(es, a, len, k);
    lemma_v2p_prefix(es, a, len, k + 1);
    let page = page_down(a) + 4096 * k;
    assert(lookup(es, page).is_some());
    lemma_lookup(es, page);
    assert(v.take(k + 1).drop_last() =~= v.take(k));
    assert(v.take(k + 1).last() == v[k]);
}

/// The bytes gathered from the first `k` runs of a translation are, byte
/// for byte, the memory behind the addresses of the range.
pub proof fn lemma_gather_prefix(es: Seq<PageEntry>, pm: PmView, a: int, len: int, k: int)
    requires
        pt_wf(es),
        pm.wf(),
        readable(es, pm, a, len),
        0 <= k <= pages_of(a, len),
    ensures
        gather(pm, v2p(es, a, len).take(k)).len() == IoVec::total(v2p(es, a, len).take(k)),
        forall|i: int|
            0 <= i < IoVec::total(v2p(es, a, len).take(k)) ==> #[trigger] gather(
                pm,
                v2p(es, a, len).take(k),
            )[i] == pm.mem[phys(es, a + i) - pm.base],
    decreases k,
{
    let v = v2p(es, a, len);
    if k == 0 {
        assert(v.take(0) =~= Seq::<IoVec>::empty());
    } else {
        lemma_gather_prefix(es, pm, a, len, k - 1);
        lemma_piece(es, a, len, k - 1);
        let t = IoVec::total(v.take(k - 1));
        let r = v[k - 1];
        assert(v.take(k).drop_last() =~= v.take(k - 1));
        assert(v.take(k).last() == r);
        assert(pm.holds(r.start as int, r.len as int));
        let g = gather(pm, v.take(k));
        let g0 = gather(pm, v.take(k - 1));
        assert(g == g0 + pm.bytes(r.start as int, r.len as int));
        assert forall|i: int| 0 <= i < IoVec::total(v.take(k)) implies #[trigger] g[i]
            == pm.mem[phys(es, a + i) - pm.base] by {
            if i < t {
                assert(g[i] == g0[i]);
            } else {
                assert(g[i] == pm.bytes(r.start as int, r.len as int)[i - t]);
                assert(byte_page(a, i) == page_down(a) + 4096 * (k - 1));
            }
        }
    }
}

/// The bytes read from a range are, byte for byte, the memory behind its
/// addresses.
pub proof fn lemma_gather_bytes(es: Seq<PageEntry>, pm: PmView, a: int, len: int)
    requires
        pt_wf(es),
        pm.wf(),
        readable(es, pm, a, len),
    ensures
        gather(pm, v2p(es, a, len)).len() == len,
        forall|i: int|
            0 <= i < len ==> #[trigger] gather(pm, v2p(es, a, len))[i] == pm.mem[phys(es, a + i)
                - pm.base],
{
    let v = v2p(es, a, len);
    lemma_pages_of(a, len);
    lemma_gather_prefix(es, pm, a, len, pages_of(a, len));
    assert(v.take(pages_of(a, len)) =~= v);
    lemma_v2p(es, a, len);
}

/// The memory behind an address of the range lies in the pool.
pub proof fn lemma_phys_held(es: Seq<PageEntry>, pm: PmView, a: int, len: int, i: int)
    requires
        pt_wf(es),
        pm.wf(),
        readable(es, pm, a, len),
        0 <= i < len,
    ensures
        0 <= phys(es, a + i) - pm.base < pm.mem.len(),
        exists|k: int|
            0 <= k < pages_of(a, len) && page_down(a + i) == page_down(a) + 4096 * k && phys(
                es,
                a + i,
            ) == #[trigger] frame_of(es, page_down(a), k) + (a + i) % 4096,
{
    lemma_pages_of(a, len);
    let k = (page_down(a + i) - page_down(a)) / 4096;
    assert(page_down(a + i) == page_down(a) + 4096 * k);
    assert(0 <= k < pages_of(a, len));
    lemma_piece(es, a, len, k);
    let v = v2p(es, a, len);
    assert(pm.holds(v[k].start as int, v[k].len as int));
    let t = IoVec::total(v.take(k));
    assert(frame_of(es, page_down(a), k) == lookup(es, page_down(a + i)).unwrap().paddr);
    lemma_in_run(es, a, len, k, i);
}

/// A byte of the range whose page is the `k`-th lies in the `k`-th run.
pub proof fn lemma_in_run(es: Seq<PageEntry>, a: int, len: int, k: int, i: int)
    requires
        pt_wf(es),
        0 <= a,
        0 < len,
        a + len <= u64::MAX,
        pages_ok(es, page_down(a), pages_of(a, len), false),
        0 <= k < pages_of(a, len),
        0 <= i < len,
        page_down(a + i) == page_down(a) + 4096 * k,
    ensures
        IoVec::total(v2p(es, a, len).take(k)) <= i < IoVec::total(v2p(es, a, len).take(k + 1)),
{
    lemma_pages_of(a, len);
    lemma_v2p_prefix(es, a, len, k);
    lemma_v2p_prefix(es, a, len, k + 1);
}

/// Writing over the first `k` runs of a translation puts, byte for byte,
/// the data behind the addresses of the range, where the data has one
/// byte for each byte of memory.
pub proof fn lemma_scatter_prefix(
    es: Seq<PageEntry>,
    pm: PmView,
    a: int,
    len: int,
    data: Seq<u8>,
    k: int,
)
    requires
        pt_wf(es),
        pm.wf(),
        readable(es, pm, a, len),
        agrees(es, a, data),
        data.len() == len,
        0 <= k <= pages_of(a, len),
    ensures
        scatter(pm, v2p(es, a, len).take(k), data).base == pm.base,
        scatter(pm, v2p(es, a, len).take(k), data).mem.len() == pm.mem.len(),
        forall|i: int|
            0 <= i < IoVec::total(v2p(es, a, len).take(k)) ==> scatter(
                pm,
                v2p(es, a, len).take(k),
                data,
            ).mem[#[trigger] phys(es, a + i) - pm.base] == data[i],
    decreases k,
{
    let v = v2p(es, a, len);
    lemma_scatter(pm, v.take(k), data);
    if k == 0 {
        assert(v.take(0) =~= Seq::<IoVec>::empty());
    } else {
        lemma_scatter_prefix(es, pm, a, len, data, k - 1);
        lemma_piece(es, a, len, k - 1);
        let t = IoVec::total(v.take(k - 1));
        let r = v[k - 1];
        assert(v.take(k).drop_last() =~= v.take(k - 1));
        assert(v.take(k).last() == r);
        assert(pm.holds(r.start as int, r.len as int));
        let before = scatter(pm, v.take(k - 1), data);
        let after = scatter(pm, v.take(k), data);
        lemma_scatter(pm, v.take(k - 1), data);
        assert(after == before.write(r.start as int, data.subrange(t, t + r.len)));
        assert forall|i: int| 0 <= i < IoVec::total(v.take(k)) implies after.mem[#[trigger] phys(
            es,
            a + i,
        ) - pm.base] == data[i] by {
            lemma_phys_held(es, pm, a, len, i);
            let pos = phys(es, a + i) - pm.base;
            if i < t {
                let off = pos - (r.start - pm.base);
                if 0 <= off < r.len {
                    let j = t + off;
                    assert(byte_page(a, j) == page_down(a) + 4096 * (k - 1));
                    assert(phys(es, a + j) - pm.base == pos);
                    assert(data[i] == data[j]);
                    assert(after.mem[pos] == data.subrange(t, t + r.len)[off]);
                } else {
                    assert(after.mem[pos] == before.mem[pos]);
                }
            } else {
                assert(byte_page(a, i) == page_down(a) + 4096 * (k - 1));
                assert(pos == r.start - pm.base + (i - t));
                assert(after.mem[pos] == data.subrange(t, t + r.len)[i - t]);
            }
        }
    }
}

/// After `data` was written over a range, the memory behind the addresses
/// of the range holds `data`, byte for byte, where the data has one byte
/// for each byte of memory.
pub proof fn lemma_scatter_bytes(es: Seq<PageEntry>, pm: PmView, a: int, len: int, data: Seq<u8>)
    requires
        pt_wf(es),
        pm.wf(),
        readable(es, pm, a, len),
        agrees(es, a, data),
        data.len() == len,
    ensures
        scatter(pm, v2p(es, a, len), data).wf(),
        scatter(pm, v2p(es, a, len), data).base == pm.base,
        scatter(pm, v2p(es, a, len), data).frames() == pm.frames(),
        forall|i: int|
            0 <= i < len ==> scatter(pm, v2p(es, a, len), data).mem[#[trigger] phys(es, a + i)
                - pm.base] == data[i],
{
    let v = v2p(es, a, len);
    lemma_pages_of(a, len);
    lemma_scatter_prefix(es, pm, a, len, data, pages_of(a, len));
    assert(v.take(pages_of(a, len)) =~= v);
    lemma_v2p(es, a, len);
    lemma_scatter(pm, v, data);
}

/// Checking pages that all have a leaf, for reading, changes nothing and
/// passes every page.
pub proof fn lemma_fix_resident(
    es: Seq<PageEntry>,
    pm: PmView,
    vmas: &AreaSet,
    files: &MappableTable,
    first: u64,
    n: nat,
)
    requires
        first >= 4096,
        first + 4096 * n <= u64::MAX + 4096,
        pages_ok(es, first as int, n as int, false),
    ensures
        fix_pages(es, pm, vmas, files, first, n, false) == (es, pm, n as int, FixStep::Next),
    decreases n,
{
    if n > 0 {
        lemma_fix_resident(es, pm, vmas, files, first, (n - 1) as nat);
        let page = (first + 4096 * (n - 1)) as u64;
        assert(lookup(es, first + 4096 * (n - 1)).is_some());
    }
}

/// Reading a range that can be read as it is changes nothing and gives the
/// memory behind the range.
pub proof fn lemma_read_resident(
    es: Seq<PageEntry>,
    pm: PmView,
    vmas: &AreaSet,
    files: &MappableTable,
    a: u64,
    len: usize,
)
    requires
        pt_wf(es),
        pm.wf(),
        readable(es, pm, a as int, len as int),
    ensures
        read_step(es, pm, vmas, files, a, len) == (
            es,
            pm,
            Ok::<Seq<u8>, Error>(gather(pm, v2p(es, a as int, len as int))),
        ),
{
    reveal(read_step);
    reveal(v2p_step);
    lemma_pages_of(a as int, len as int);
    lemma_fix_resident(
        es,
        pm,
        vmas,
        files,
        page_down(a as int) as u64,
        pages_of(a as int, len as int) as nat,
    );
}

/// No check of pages gets past the null page.
pub proof fn lemma_null_page(
    es: Seq<PageEntry>,
    pm: PmView,
    vmas: &AreaSet,
    files: &MappableTable,
    n: nat,
    writeReq: bool,
)
    requires
        n >= 1,
    ensures
        fix_pages(es, pm, vmas, files, 0, n, writeReq).3 == FixStep::Fail(
            Error::SysError(crate::linux_def::SysErr::EFAULT),
        ),
    decreases n,
{
    if n > 1 {
        lemma_null_page(es, pm, vmas, files, (n - 1) as nat, writeReq);
    } else {
        assert(fix_pages(es, pm, vmas, files, 0, 0, writeReq).3 == FixStep::Next);
        assert((0u64 + 4096 * (n - 1)) as u64 == 0u64);
    }
}

/// A write that goes through is not to the null page.
pub proof fn lemma_write_above_null(
    es: Seq<PageEntry>,
    pm: PmView,
    vmas: &AreaSet,
    files: &MappableTable,
    data: Seq<u8>,
    a: u64,
)
    requires
        0 < data.len() <= usize::MAX,
        write_step(es, pm, vmas, files, data, a).2.is_none(),
    ensures
        4096 <= a,
{
    reveal(write_step);
    reveal(v2p_step);
    if a < 4096 {
        lemma_pages_of(a as int, data.len() as int);
        lemma_null_page(es, pm, vmas, files, pages_of(a as int, data.len() as int) as nat, true);
    }
}

/// A read that goes through is not from the null page.
pub proof fn lemma_read_above_null(
    es: Seq<PageEntry>,
    pm: PmView,
    vmas: &AreaSet,
    files: &MappableTable,
    a: u64,
    len: usize,
)
    requires
        0 < len,
        read_step(es, pm, vmas, files, a, len).2.is_ok(),
    ensures
        4096 <= a,
{
    reveal(read_step);
    reveal(v2p_step);
    if a < 4096 {
        lemma_pages_of(a as int, len as int);
        lemma_null_page(es, pm, vmas, files, pages_of(a as int, len as int) as nat, false);
    }
}

/// In a range of at most a page's length, whose pages have leaves, no two
/// addresses lie on the same byte of memory, so any data has one byte for
/// each byte of memory.
pub proof fn lemma_short_agrees(es: Seq<PageEntry>, a: int, data: Seq<u8>)
    requires
        pt_wf(es),
        0 <= a,
        0 < data.len() <= 4096,
        pages_ok(es, page_down(a), pages_of(a, data.len() as int), false),
    ensures
        agrees(es, a, data),
{
    let len = data.len() as int;
    let first = page_down(a);
    lemma_pages_of(a, len);
    assert forall|i: int, j: int|
        #![trigger data[i], data[j]]
        0 <= i < j < data.len() implies phys(es, a + i) != phys(es, a + j) by {
        let ki = (page_down(a + i) - first) / 4096;
        let kj = (page_down(a + j) - first) / 4096;
        assert(page_down(a + i) == first + 4096 * ki && 0 <= ki < pages_of(a, len));
        assert(page_down(a + j) == first + 4096 * kj && 0 <= kj < pages_of(a, len));
        assert(lookup(es, first + 4096 * ki).is_some());
        assert(lookup(es, first + 4096 * kj).is_some());
        lemma_lookup(es, first + 4096 * ki);
        lemma_lookup(es, first + 4096 * kj);
        let fi = lookup(es, page_down(a + i)).unwrap().paddr as int;
        let fj = lookup(es, page_down(a + j)).unwrap().paddr as int;
        assert(fi % 4096 == 0 && fj % 4096 == 0);
        assert(fi + (a + i) % 4096 != fj + (a + j) % 4096) by (nonlinear_arith)
            requires
                fi % 4096 == 0,
                fj % 4096 == 0,
                0 <= a,
                0 <= i < j,
                j - i < 4096,
        ;
    }
}

/// After a write went through, the pages of the range have leaves.
pub proof fn lemma_write_pages(
    es: Seq<PageEntry>,
    pm: PmView,
    vmas: &AreaSet,
    files: &MappableTable,
    data: Seq<u8>,
    a: u64,
)
    requires
        pt_wf(es),
        pm.wf(),
        files.wf(),
        0 < data.len() <= usize::MAX,
        write_step(es, pm, vmas, files, data, a).2.is_none(),
    ensures
        pt_wf(write_step(es, pm, vmas, files, data, a).0),
        pages_ok(
            write_step(es, pm, vmas, files, data, a).0,
            page_down(a as int),
            pages_of(a as int, data.len() as int),
            false,
        ),
{
    reveal(write_step);
    reveal(v2p_step);
    let len = data.len() as int;
    let first = page_down(a as int) as u64;
    let n = pages_of(a as int, len) as nat;
    lemma_pages_of(a as int, len);
    lemma_fix_pages(es, pm, vmas, files, first, n, true);
    lemma_fix_pages_count(es, pm, vmas, files, first, n, true);
    let p = fix_pages(es, pm, vmas, files, first, n, true);
    assert forall|j: int| 0 <= j < n implies (#[trigger] lookup(p.0, first + 4096 * j)).is_some() by {}
}

/// What is written to guest memory is read back from it: after `data` was
/// written at `a`, reading as many bytes at `a` changes nothing and gives
/// `data`.
///
/// For data longer than a page this holds where the data has one byte for
/// each byte of memory: where two pages of the range have the same frame,
/// what was written last is read back for both.
pub proof fn law_read_back(
    es: Seq<PageEntry>,
    pm: PmView,
    vmas: &AreaSet,
    files: &MappableTable,
    data: Seq<u8>,
    a: u64,
)
    requires
        pt_wf(es),
        pm.wf(),
        files.wf(),
        0 < data.len() <= usize::MAX,
        write_step(es, pm, vmas, files, data, a).2.is_none(),
        data.len() > 4096 ==> agrees(write_step(es, pm, vmas, files, data, a).0, a as int, data),
    ensures
        ({
            let w = write_step(es, pm, vmas, files, data, a);
            read_step(w.0, w.1, vmas, files, a, data.len() as usize) == (
                w.0,
                w.1,
                Ok::<Seq<u8>, Error>(data),
            )
        }),
{
    lemma_write_above_null(es, pm, vmas, files, data, a);
    if data.len() <= 4096 {
        lemma_write_pages(es, pm, vmas, files, data, a);
        lemma_short_agrees(write_step(es, pm, vmas, files, data, a).0, a as int, data);
    }
    reveal(write_step);
    reveal(v2p_step);
    let len = data.len() as int;
    let first = page_down(a as int) as u64;
    let n = pages_of(a as int, len) as nat;
    lemma_pages_of(a as int, len);
    lemma_fix_pages(es, pm, vmas, files, first, n, true);
    lemma_fix_pages_count(es, pm, vmas, files, first, n, true);
    let p = fix_pages(es, pm, vmas, files, first, n, true);
    let runs = v2p(p.0, a as int, len);
    let w = write_step(es, pm, vmas, files, data, a);
    assert(w.0 == p.0);
    assert(w.1 == scatter(p.1, runs, data));
    assert(readable(p.0, p.1, a as int, len));
    lemma_scatter_bytes(p.0, p.1, a as int, len, data);
    assert(readable(w.0, w.1, a as int, len));
    lemma_read_resident(w.0, w.1, vmas, files, a, data.len() as usize);
    lemma_gather_bytes(w.0, w.1, a as int, len);
    assert(gather(w.1, runs) =~= data);
}

/// A plain value that was written to guest memory is read back from it:
/// after `x` was written at `a`, reading a value at `a` changes nothing and
/// gives `x`.
pub proof fn law_value_read_back<T: Plain>(
    es: Seq<PageEntry>,
    pm: PmView,
    vmas: &AreaSet,
    files: &MappableTable,
    x: T,
    a: u64,
)
    requires
        pt_wf(es),
        pm.wf(),
        files.wf(),
        write_step(es, pm, vmas, files, x.encode(), a).2.is_none(),
    ensures
        ({
            let w = write_step(es, pm, vmas, files, x.encode(), a);
            let r = read_step(w.0, w.1, vmas, files, a, T::size() as usize);
            &&& r.0 == w.0
            &&& r.1 == w.1
            &&& r.2.is_ok()
            &&& T::decode(r.2.unwrap()) == x
        }),
{
    T::lemma_plain(x);
    lemma_write_above_null(es, pm, vmas, files, x.encode(), a);
    law_read_back(es, pm, vmas, files, x.encode(), a);
}

/// Making pages accessible for reading changes no byte of memory and no
/// leaf that is there, and does not stop at a page that cannot be written.
pub proof fn lemma_fix_for_reading(
    es: Seq<PageEntry>,
    pm: PmView,
    vmas: &AreaSet,
    files: &MappableTable,
    first: u64,
    n: nat,
)
    requires
        pt_wf(es),
        pm.wf(),
        files.wf(),
        first % 4096 == 0,
        first + 4096 * n <= u64::MAX + 4096,
    ensures
        fix_pages(es, pm, vmas, files, first, n, false).1.mem == pm.mem,
        fix_pages(es, pm, vmas, files, first, n, false).3 != FixStep::Stop,
        forall|va: int|
            (#[trigger] lookup(es, va)).is_some() ==> lookup(
                fix_pages(es, pm, vmas, files, first, n, false).0,
                va,
            ) == lookup(es, va),
    decreases n,
{
    if n > 0 {
        lemma_fix_for_reading(es, pm, vmas, files, first, (n - 1) as nat);
        lemma_fix_pages(es, pm, vmas, files, first, (n - 1) as nat, false);
        let p = fix_pages(es, pm, vmas, files, first, (n - 1) as nat, false);
        if p.3 == FixStep::Next {
            let page = (first + 4096 * (n - 1)) as u64;
            let area = vmas.area_at(page as int);
            let s = fix_page(p.0, p.1, vmas, files, page, false);
            crate::mm::lemma_fix_page(p.0, p.1, vmas, files, page, false);
            if lookup(p.0, page as int).is_none() && area.is_some() {
                let ar = area.unwrap();
                crate::mm::lemma_fault_in(p.0, p.1, ar.vma, ar.range, page, files);
                crate::sharing::lemma_fault_in_memory(p.0, p.1, ar.vma, ar.range, page, files);
            }
            assert(s.1.mem == p.1.mem);
            assert forall|va: int| (#[trigger] lookup(es, va)).is_some() implies lookup(s.0, va)
                == lookup(es, va) by {
                assert(lookup(p.0, va) == lookup(es, va));
                if va == page {
                    assert(s.0 == p.0);
                }
            }
        }
    }
}

/// A string that was written to guest memory is read back from it: after
/// the bytes of the text `s` and a NUL byte were written at `a`, reading a
/// string of at most `maxlen` bytes at `a` gives `s`, whole, and changes
/// no byte of memory.
///
/// This holds for a text without NUL character that fits with its NUL byte
/// in `maxlen` bytes, where the reading goes through: it fails where a page
/// of `[a, a + maxlen)` behind the string cannot be read. A string longer
/// than a page must have one byte for each byte of memory.
pub proof fn law_string_read_back(
    es: Seq<PageEntry>,
    pm: PmView,
    vmas: &AreaSet,
    files: &MappableTable,
    s: Seq<char>,
    a: u64,
    maxlen: usize,
)
    requires
        pt_wf(es),
        pm.wf(),
        files.wf(),
        forall|i: int| 0 <= i < encode_utf8(s).len() ==> #[trigger] encode_utf8(s)[i] != 0,
        encode_utf8(s).len() + 1 <= maxlen,
        write_step(es, pm, vmas, files, encode_utf8(s).push(0u8), a).2.is_none(),
        encode_utf8(s).len() + 1 > 4096 ==> agrees(
            write_step(es, pm, vmas, files, encode_utf8(s).push(0u8), a).0,
            a as int,
            encode_utf8(s).push(0u8),
        ),
        string_step(
            write_step(es, pm, vmas, files, encode_utf8(s).push(0u8), a).0,
            write_step(es, pm, vmas, files, encode_utf8(s).push(0u8), a).1,
            vmas,
            files,
            a,
            maxlen,
        ).2.is_ok(),
    ensures
        ({
            let w = write_step(es, pm, vmas, files, encode_utf8(s).push(0u8), a);
            let st = string_step(w.0, w.1, vmas, files, a, maxlen);
            &&& st.1.mem == w.1.mem
            &&& text_of(st.2.unwrap()) == (s, Ok::<(), Error>(()))
        }),
{
    let bytes = encode_utf8(s);
    let data = bytes.push(0u8);
    let len = data.len() as int;
    lemma_write_above_null(es, pm, vmas, files, data, a);
    let w = write_step(es, pm, vmas, files, data, a);
    if data.len() <= 4096 {
        lemma_write_pages(es, pm, vmas, files, data, a);
        lemma_short_agrees(w.0, a as int, data);
    }
    lemma_written(es, pm, vmas, files, data, a);
    let first = page_down(a as int) as u64;
    let n = pages_of(a as int, maxlen as int) as nat;
    lemma_pages_of(a as int, maxlen as int);
    lemma_pages_of(a as int, len);
    reveal(fix_step);
    let c = check_step(w.0, w.1, vmas, files, a, maxlen as u64, false, true);
    let st = string_step(w.0, w.1, vmas, files, a, maxlen);
    assert(a + maxlen <= u64::MAX);
    let p = fix_pages(w.0, w.1, vmas, files, first, n, false);
    lemma_fix_pages(w.0, w.1, vmas, files, first, n, false);
    lemma_fix_pages_count(w.0, w.1, vmas, files, first, n, false);
    lemma_fix_for_reading(w.0, w.1, vmas, files, first, n);
    assert(c.0 == p.0 && c.1 == p.1);
    assert(p.3 == FixStep::Next);
    assert(c.2 == Ok::<u64, Error>(maxlen as u64));
    assert(st == read_step(p.0, p.1, vmas, files, a, maxlen));
    lemma_fix_resident(p.0, p.1, vmas, files, first, n);
    assert(readable(p.0, p.1, a as int, maxlen as int)) by {
        reveal(read_step);
        reveal(v2p_step);
    }
    lemma_read_resident(p.0, p.1, vmas, files, a, maxlen);
    lemma_gather_bytes(p.0, p.1, a as int, maxlen as int);
    let b = gather(p.1, v2p(p.0, a as int, maxlen as int));
    assert(st.2 == Ok::<Seq<u8>, Error>(b));
    assert forall|k: int| 0 <= k < len implies #[trigger] b[k] == data[k] by {
        lemma_phys_held(w.0, w.1, a as int, len, k);
        assert(lookup(w.0, page_down(a + k)).is_some());
        assert(lookup(p.0, page_down(a + k)) == lookup(w.0, page_down(a + k)));
        assert(phys(p.0, a + k) == phys(w.0, a + k));
        assert(b[k] == p.1.mem[phys(p.0, a + k) - p.1.base]);
        assert(w.1.mem[phys(w.0, a + k) - w.1.base] == data[k]);
    }
    assert forall|k: int| 0 <= k < bytes.len() implies #[trigger] b[k] != 0 by {
        assert(b[k] == data[k]);
        assert(data[k] == bytes[k]);
    }
    assert(b[bytes.len() as int] == data[bytes.len() as int]);
    lemma_first_nul(b, bytes.len() as int);
    reveal(text_of);
    assert(b.take(bytes.len() as int) =~= bytes);
    encode_utf8_valid_utf8(s);
    encode_utf8_decode_utf8(s);
}

/// After `data` was written at `a`, the range can be read as it is, and
/// the memory behind its addresses holds `data`, byte for byte, where the
/// data has one byte for each byte of memory.
pub proof fn lemma_written(
    es: Seq<PageEntry>,
    pm: PmView,
    vmas: &AreaSet,
    files: &MappableTable,
    data: Seq<u8>,
    a: u64,
)
    requires
        pt_wf(es),
        pm.wf(),
        files.wf(),
        4096 <= a,
        0 < data.len() <= usize::MAX,
        write_step(es, pm, vmas, files, data, a).2.is_none(),
        agrees(write_step(es, pm, vmas, files, data, a).0, a as int, data),
    ensures
        ({
            let w = write_step(es, pm, vmas, files, data, a);
            &&& pt_wf(w.0)
            &&& w.1.wf()
            &&& readable(w.0, w.1, a as int, data.len() as int)
            &&& forall|i: int|
                0 <= i < data.len() ==> w.1.mem[#[trigger] phys(w.0, a + i) - w.1.base] == data[i]
        }),
{
    reveal(write_step);
    reveal(v2p_step);
    let len = data.len() as int;
    let first = page_down(a as int) as u64;
    let n = pages_of(a as int, len) as nat;
    lemma_pages_of(a as int, len);
    lemma_fix_pages(es, pm, vmas, files, first, n, true);
    lemma_fix_pages_count(es, pm, vmas, files, first, n, true);
    let p = fix_pages(es, pm, vmas, files, first, n, true);
    assert(readable(p.0, p.1, a as int, len));
    lemma_scatter_bytes(p.0, p.1, a as int, len, data);
}

/// After a value was read from guest memory, the range of the value can be
/// read as it is, and reading it again changes nothing and gives the same
/// bytes.
pub proof fn lemma_read_again(
    es: Seq<PageEntry>,
    pm: PmView,
    vmas: &AreaSet,
    files: &MappableTable,
    a: u64,
    len: usize,
)
    requires
        pt_wf(es),
        pm.wf(),
        files.wf(),
        4096 <= a,
        0 < len,
        read_step(es, pm, vmas, files, a, len).2.is_ok(),
    ensures
        ({
            let s = read_step(es, pm, vmas, files, a, len);
            &&& pt_wf(s.0)
            &&& s.1.wf()
            &&& read_step(s.0, s.1, vmas, files, a, len) == s
        }),
{
    reveal(read_step);
    reveal(v2p_step);
    let first = page_down(a as int) as u64;
    let n = pages_of(a as int, len as int) as nat;
    lemma_pages_of(a as int, len as int);
    lemma_fix_pages(es, pm, vmas, files, first, n, false);
    lemma_fix_pages_count(es, pm, vmas, files, first, n, false);
    let s = read_step(es, pm, vmas, files, a, len);
    assert(readable(s.0, s.1, a as int, len as int));
    lemma_fix_resident(s.0, s.1, vmas, files, first, n);
}

/// Compare-and-swap leaves the memory as its result says. When the value
/// that was read is not the expected one, the memory is as it was: reading
/// again gives that value. When it is the expected one and the new value
/// could be written, reading again gives the new value.
pub proof fn law_compare_and_swap<T: Plain>(
    es: Seq<PageEntry>,
    pm: PmView,
    vmas: &AreaSet,
    files: &MappableTable,
    a: u64,
    expect: T,
    new: T,
)
    requires
        pt_wf(es),
        pm.wf(),
        files.wf(),
        read_step(es, pm, vmas, files, a, T::size() as usize).2.is_ok(),
        ({
            let s = read_step(es, pm, vmas, files, a, T::size() as usize);
            let w = write_step(s.0, s.1, vmas, files, new.encode(), a);
            T::decode(s.2.unwrap()) == expect ==> w.2.is_none()
        }),
    ensures
        ({
            let s = read_step(es, pm, vmas, files, a, T::size() as usize);
            let w = write_step(s.0, s.1, vmas, files, new.encode(), a);
            let val = T::decode(s.2.unwrap());
            &&& val != expect ==> read_step(s.0, s.1, vmas, files, a, T::size() as usize) == s
            &&& val == expect ==> {
                let r = read_step(w.0, w.1, vmas, files, a, T::size() as usize);
                &&& r.0 == w.0
                &&& r.1 == w.1
                &&& r.2.is_ok()
                &&& T::decode(r.2.unwrap()) == new
            }
        }),
{
    T::lemma_plain(new);
    lemma_read_above_null(es, pm, vmas, files, a, T::size() as usize);
    let s = read_step(es, pm, vmas, files, a, T::size() as usize);
    lemma_read_again(es, pm, vmas, files, a, T::size() as usize);
    if T::decode(s.2.unwrap()) == expect {
        law_value_read_back(s.0, s.1, vmas, files, new, a);
    }
}

/// Where the pages of a range have frames that differ from one another,
/// no two addresses of the range lie on the same byte of memory, so any
/// data has one byte for each byte of memory. A range inside one page is
/// such a range.
pub proof fn law_distinct_frames_agree(es: Seq<PageEntry>, pm: PmView, a: int, data: Seq<u8>)
    requires
        pt_wf(es),
        pm.wf(),
        readable(es, pm, a, data.len() as int),
        distinct_frames(es, a, data.len() as int),
    ensures
        agrees(es, a, data),
        forall|i: int, j: int|
            0 <= i < j < data.len() ==> #[trigger] phys(es, a + i) != #[trigger] phys(es, a + j),
{
    let len = data.len() as int;
    let first = page_down(a);
    assert forall|i: int, j: int| 0 <= i < j < data.len() implies #[trigger] phys(es, a + i)
        != #[trigger] phys(es, a + j) by {
        lemma_phys_held(es, pm, a, len, i);
        lemma_phys_held(es, pm, a, len, j);
        let ki = choose|k: int|
            0 <= k < pages_of(a, len) && page_down(a + i) == first + 4096 * k && phys(es, a + i)
                == #[trigger] frame_of(es, first, k) + (a + i) % 4096;
        let kj = choose|k: int|
            0 <= k < pages_of(a, len) && page_down(a + j) == first + 4096 * k && phys(es, a + j)
                == #[trigger] frame_of(es, first, k) + (a + j) % 4096;
        lemma_piece(es, a, len, ki);
        lemma_piece(es, a, len, kj);
        if ki < kj {
            assert(frame_of(es, first, ki) != frame_of(es, first, kj));
        } else if kj < ki {
            assert(frame_of(es, first, kj) != frame_of(es, first, ki));
        }
    }
}

/// Writing over the first `k` runs of a translation changes no byte of
/// memory that lies behind no address of the range.
pub proof fn lemma_scatter_elsewhere(
    es: Seq<PageEntry>,
    pm: PmView,
    a: int,
    len: int,
    data: Seq<u8>,
    k: int,
    pos: int,
)
    requires
        pt_wf(es),
        pm.wf(),
        readable(es, pm, a, len),
        data.len() == len,
        0 <= k <= pages_of(a, len),
        0 <= pos < pm.mem.len(),
        forall|i: int| 0 <= i < len ==> #[trigger] phys(es, a + i) - pm.base != pos,
    ensures
        scatter(pm, v2p(es, a, len).take(k), data).mem[pos] == pm.mem[pos],
    decreases k,
{
    let v = v2p(es, a, len);
    lemma_scatter(pm, v.take(k), data);
    if k == 0 {
        assert(v.take(0) =~= Seq::<IoVec>::empty());
    } else {
        lemma_scatter_elsewhere(es, pm, a, len, data, k - 1, pos);
        lemma_piece(es, a, len, k - 1);
        let t = IoVec::total(v.take(k - 1));
        let r = v[k - 1];
        assert(v.take(k).drop_last() =~= v.take(k - 1));
        assert(v.take(k).last() == r);
        assert(pm.holds(r.start as int, r.len as int));
        let before = scatter(pm, v.take(k - 1), data);
        let after = scatter(pm, v.take(k), data);
        lemma_scatter(pm, v.take(k - 1), data);
        assert(after == before.write(r.start as int, data.subrange(t, t + r.len)));
        let off = pos - (r.start - pm.base);
        if 0 <= off < r.len {
            let j = t + off;
            assert(byte_page(a, j) == page_down(a) + 4096 * (k - 1));
            assert(phys(es, a + j) - pm.base == pos);
        }
        assert(after.mem[pos] == before.mem[pos]);
    }
}

/// A write to guest memory changes nothing but the bytes of the range.
/// The pages of the range are made accessible for writing first; after
/// that, the page table stays as it is, every byte of memory that lies
/// behind no address of the range stays as it is, and so does every
/// count.
pub proof fn law_write_in_range(
    es: Seq<PageEntry>,
    pm: PmView,
    vmas: &AreaSet,
    files: &MappableTable,
    data: Seq<u8>,
    a: u64,
    pos: int,
)
    requires
        pt_wf(es),
        pm.wf(),
        files.wf(),
        0 < data.len() <= usize::MAX,
        write_step(es, pm, vmas, files, data, a).2.is_none(),
        0 <= pos < pm.mem.len(),
        forall|i: int|
            0 <= i < data.len() ==> #[trigger] phys(
                write_step(es, pm, vmas, files, data, a).0,
                a + i,
            ) - pm.base != pos,
    ensures
        ({
            let w = write_step(es, pm, vmas, files, data, a);
            let p = fix_pages(
                es,
                pm,
                vmas,
                files,
                page_down(a as int) as u64,
                pages_of(a as int, data.len() as int) as nat,
                true,
            );
            &&& w.0 == p.0
            &&& w.1.base == p.1.base == pm.base
            &&& w.1.refs == p.1.refs
            &&& w.1.live == p.1.live
            &&& w.1.mem.len() == p.1.mem.len() == pm.mem.len()
            &&& w.1.mem[pos] == p.1.mem[pos]
        }),
{
    lemma_write_above_null(es, pm, vmas, files, data, a);
    reveal(write_step);
    reveal(v2p_step);
    let len = data.len() as int;
    let first = page_down(a as int) as u64;
    let n = pages_of(a as int, len) as nat;
    lemma_pages_of(a as int, len);
    lemma_fix_pages(es, pm, vmas, files, first, n, true);
    lemma_fix_pages_count(es, pm, vmas, files, first, n, true);
    let p = fix_pages(es, pm, vmas, files, first, n, true);
    let runs = v2p(p.0, a as int, len);
    let w = write_step(es, pm, vmas, files, data, a);
    assert(w.0 == p.0);
    assert(w.1 == scatter(p.1, runs, data));
    assert(readable(p.0, p.1, a as int, len));
    lemma_scatter(p.1, runs, data);
    lemma_scatter_elsewhere(p.0, p.1, a as int, len, data, n as int, pos);
    assert(runs.take(n as int) =~= runs);
    lemma_v2p(p.0, a as int, len);
}

} // verus!
