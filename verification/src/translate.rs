//! From guest-virtual ranges to runs of physical memory.
use vstd::prelude::*;
use crate::addr::{page_down, page_up, Addr};
use crate::blocks::{coalesce, lemma_coalesce, ToBlocks};
use crate::linux_def::{Error, IoVec, MemoryDef, SysErr};
use crate::mappable::MappableTable;
use crate::mm::{fix_pages, lemma_fix_pages_count, pages_of, pages_ok, FixStep, MemoryManager};
use crate::areaset::AreaSet;
use crate::pagemgr::{PageMgr, PmView};
use crate::pagetable::{addresses, all_mapped, lemma_lookup, lookup, pt_wf, PageEntry};
use crate::stackvec::StackVec;

verus! {

/// The run of physical memory behind the part of `[start, end)` that lies
/// in its `k`-th page.
pub open spec fn piece(es: Seq<PageEntry>, start: int, end: int, k: int) -> IoVec {
    let page = page_down(start) + 4096 * k;
    let lo = if k == 0 {
        start
    } else {
        page
    };
    let hi = if page + 4096 < end {
        page + 4096
    } else {
        end
    };
    IoVec { start: (lookup(es, page).unwrap().paddr + (lo - page)) as u64, len: (hi - lo) as usize }
}

/// The runs of physical memory behind `[start, start + len)`, one for each
/// page that holds a part of it.
pub open spec fn v2p(es: Seq<PageEntry>, start: int, len: int) -> Seq<IoVec> {
    Seq::new(pages_of(start, len) as nat, |k: int| piece(es, start, start + len, k))
}

/// What the translation of `[start, start + len)` does and gives: the page
/// table and the pool after the pages of the range were made accessible,
/// and the runs of physical memory behind the range, or the error. The null
/// address and a range that does not end inside 64 bits give `EFAULT`, and
/// so does a page that cannot be written when that was asked for.
#[verifier::opaque]
pub open spec fn v2p_step(
    es: Seq<PageEntry>,
    pm: PmView,
    vmas: &AreaSet,
    files: &MappableTable,
    start: u64,
    len: u64,
    writable: bool,
) -> (Seq<PageEntry>, PmView, Result<Seq<IoVec>, Error>) {
    if start == 0 || start + len > u64::MAX {
        (es, pm, Err(Error::SysError(SysErr::EFAULT)))
    } else {
        let p = fix_pages(
            es,
            pm,
            vmas,
            files,
            page_down(start as int) as u64,
            pages_of(start as int, len as int) as nat,
            writable,
        );
        (
            p.0,
            p.1,
            match p.3 {
                FixStep::Next => Ok(v2p(p.0, start as int, len as int)),
                FixStep::Fail(e) => Err(e),
                FixStep::Stop => Err(Error::SysError(SysErr::EFAULT)),
            },
        )
    }
}

/// The lengths of the first `k` runs of a translation add up to the bytes
/// that lie in the first `k` pages.
pub proof fn lemma_v2p_prefix(es: Seq<PageEntry>, start: int, len: int, k: int)
    requires
        0 <= start,
        0 < len,
        0 <= k <= pages_of(start, len),
    ensures
        IoVec::total(v2p(es, start, len).take(k)) == if k == 0 {
            0
        } else if page_down(start) + 4096 * k < start + len {
            page_down(start) + 4096 * k - start
        } else {
            len
        },
    decreases k,
{
    let v = v2p(es, start, len);
    if k == 0 {
        assert(v.take(0) =~= Seq::<IoVec>::empty());
    } else {
        lemma_v2p_prefix(es, start, len, k - 1);
        assert(v.take(k).drop_last() =~= v.take(k - 1));
        assert(v.take(k).last() == piece(es, start, start + len, k - 1));
    }
}

/// The runs of a translation cover as many bytes as were asked for, and
/// none of them crosses a page boundary.
pub proof fn lemma_v2p(es: Seq<PageEntry>, start: int, len: int)
    requires
        0 <= start,
        0 <= len,
        start + len <= u64::MAX,
        pt_wf(es),
        pages_ok(es, page_down(start), pages_of(start, len), false),
    ensures
        IoVec::total(v2p(es, start, len)) == len,
        forall|k: int|
            0 <= k < v2p(es, start, len).len() ==> {
                let p = #[trigger] v2p(es, start, len)[k];
                0 < p.len <= 4096 && p.start % 4096 + p.len <= 4096
            },
{
    let v = v2p(es, start, len);
    if len == 0 {
        assert(v =~= Seq::<IoVec>::empty());
    } else {
        lemma_v2p_prefix(es, start, len, pages_of(start, len));
        assert(v.take(pages_of(start, len)) =~= v);
        assert forall|k: int| 0 <= k < v.len() implies {
            let p = #[trigger] v[k];
            0 < p.len <= 4096 && p.start % 4096 + p.len <= 4096
        } by {
            let page = page_down(start) + 4096 * k;
            let l = lookup(es, page);
            assert(l.is_some());
            lemma_lookup(es, page);
            assert(l.unwrap().paddr % 4096 == 0);
        }
    }
}

/// The runs `blocks` without the first `head` bytes of the first run and
/// the last `tail` bytes of the last.
pub open spec fn trim(blocks: Seq<IoVec>, head: int, tail: int) -> Seq<IoVec> {
    let a = blocks.update(
        0,
        IoVec { start: (blocks[0].start + head) as u64, len: (blocks[0].len - head) as usize },
    );
    let l = a.len() - 1;
    a.update(l, IoVec { start: a[l].start, len: (a[l].len - tail) as usize })
}

/// The physical runs behind `[start, start + len)` in a table that maps
/// every page of the range: the frames of the pages, gathered into runs,
/// without the bytes before `start` and after the end.
pub open spec fn blocks_of(es: Seq<PageEntry>, start: int, len: int) -> Seq<IoVec> {
    let first = page_down(start);
    let end = page_up(start + len);
    trim(coalesce(addresses(es, first, (end - first) / 4096)), start - first, end - (start + len))
}

impl MemoryManager {
    /// Appends to `bs` the physical runs behind `[start, start + len)`. An
    /// empty range has none. Fails, leaving `bs` as it was, with `EFAULT`
    /// when the range, rounded to pages, does not end inside 64 bits or a
    /// page of it has no leaf, and with `ENOMEM` when the range is longer
    /// than a length can say.
    #[verifier::rlimit(30)]
    pub fn GetBlocks(&self, start: u64, len: u64, bs: &mut StackVec<IoVec>, writeable: bool) -> (r:
        Result<(), Error>)
        requires
            self.data.pt.wf(),
        ensures
            len == 0 ==> r == Ok::<(), Error>(()) && final(bs)@ == old(bs)@,
            len > 0 && page_up(start + len) > u64::MAX ==> r == Err::<(), Error>(
                Error::SysError(SysErr::EFAULT),
            ),
            len > 0 && page_up(start + len) <= u64::MAX && page_up(start + len) - page_down(
                start as int,
            ) > usize::MAX ==> r == Err::<(), Error>(Error::SysError(SysErr::ENOMEM)),
            len > 0 && page_up(start + len) <= u64::MAX && page_up(start + len) - page_down(
                start as int,
            ) <= usize::MAX ==> {
                let first = page_down(start as int);
                let n = (page_up(start + len) - first) / 4096;
                &&& !all_mapped(self.leaves(), first, n) ==> r == Err::<(), Error>(
                    Error::SysError(SysErr::EFAULT),
                )
                &&& all_mapped(self.leaves(), first, n) ==> r == Ok::<(), Error>(()) && final(bs)@
                    == old(bs)@ + blocks_of(self.leaves(), start as int, len as int)
            },
            r.is_err() ==> final(bs)@ == old(bs)@,
    {
        if len == 0 {
            return Ok(());
        }
        if len > u64::MAX - start {
            return Err(Error::SysError(SysErr::EFAULT));
        }
        let alignedStart = Addr(start).RoundDown()?.0;
        let aligntedEnd = Addr(start + len).RoundUp()?.0;
        if aligntedEnd - alignedStart > usize::MAX as u64 {
            return Err(Error::SysError(SysErr::ENOMEM));
        }
        let pages = ((aligntedEnd - alignedStart) / MemoryDef::PAGE_SIZE) as usize;
        let mut vec: StackVec<u64> = StackVec::New(pages);
        match self.data.pt.GetAddresses(Addr(alignedStart), Addr(aligntedEnd), &mut vec) {
            Err(_) => {
                return Err(Error::SysError(SysErr::EFAULT));
            },
            Ok(_) => {},
        }
        let ghost es = self.leaves();
        let ghost addrs = addresses(es, alignedStart as int, pages as int);
        proof {
            assert(vec@ =~= addrs);
            assert forall|i: int| 0 <= i < addrs.len() implies #[trigger] addrs[i] + 4096
                <= u64::MAX by {
                let va = alignedStart + 4096 * i;
                assert(lookup(es, va).is_some());
                lemma_lookup(es, va);
                let pa = lookup(es, va).unwrap().paddr;
                assert(pa % 4096 == 0);
                assert(pa <= u64::MAX - 4095) by (nonlinear_arith)
                    requires
                        pa % 4096 == 0,
                        pa <= u64::MAX,
                {}
                assert(addrs[i] == pa);
            }
            lemma_coalesce(addrs);
        }
        let base = bs.Len();
        ToBlocks(bs, vec.Slice());
        let ghost blocks = coalesce(addrs);
        let startOff = start - alignedStart;
        let endOff = aligntedEnd - (start + len);
        let count = bs.Len();
        assert(count == base + blocks.len());
        let head = bs.data[base];
        assert(head == blocks[0]);
        assert(IoVec::total(blocks) == 4096 * pages);
        proof {
            if blocks.len() == 1 {
                assert(blocks.drop_last() =~= Seq::<IoVec>::empty());
                assert(IoVec::total(blocks.drop_last()) == 0);
                assert(blocks.last() == blocks[0]);
            }
        }
        bs.Replace(
            base,
            IoVec { start: head.start + startOff, len: head.len - startOff as usize },
        );
        let tail = bs.data[count - 1];
        bs.Replace(count - 1, IoVec { start: tail.start, len: tail.len - endOff as usize });
        assert(bs@ =~= old(bs)@ + trim(blocks, startOff as int, endOff as int));
        Ok(())
    }

    /// Appends to `bs` the physical runs behind `[start, start + len)`: see
    /// `GetBlocks`.
    pub fn GetReadonlyBlocks(&self, start: u64, len: u64, bs: &mut StackVec<IoVec>) -> (r: Result<
        (),
        Error,
    >)
        requires
            self.data.pt.wf(),
        ensures
            len == 0 ==> r == Ok::<(), Error>(()) && final(bs)@ == old(bs)@,
            len > 0 && page_up(start + len) > u64::MAX ==> r == Err::<(), Error>(
                Error::SysError(SysErr::EFAULT),
            ),
            len > 0 && page_up(start + len) <= u64::MAX && page_up(start + len) - page_down(
                start as int,
            ) > usize::MAX ==> r == Err::<(), Error>(Error::SysError(SysErr::ENOMEM)),
            len > 0 && page_up(start + len) <= u64::MAX && page_up(start + len) - page_down(
                start as int,
            ) <= usize::MAX ==> {
                let first = page_down(start as int);
                let n = (page_up(start + len) - first) / 4096;
                &&& !all_mapped(self.leaves(), first, n) ==> r == Err::<(), Error>(
                    Error::SysError(SysErr::EFAULT),
                )
                &&& all_mapped(self.leaves(), first, n) ==> r == Ok::<(), Error>(()) && final(bs)@
                    == old(bs)@ + blocks_of(self.leaves(), start as int, len as int)
            },
            r.is_err() ==> final(bs)@ == old(bs)@,
    {
        self.GetBlocks(start, len, bs, false)
    }

    /// Appends to `bs` the physical runs behind `[start, start + len)`: see
    /// `GetBlocks`.
    pub fn GetAddressesWithCOW(&self, start: u64, len: u64, bs: &mut StackVec<IoVec>) -> (r:
        Result<(), Error>)
        requires
            self.data.pt.wf(),
        ensures
            len == 0 ==> r == Ok::<(), Error>(()) && final(bs)@ == old(bs)@,
            len > 0 && page_up(start + len) > u64::MAX ==> r == Err::<(), Error>(
                Error::SysError(SysErr::EFAULT),
            ),
            len > 0 && page_up(start + len) <= u64::MAX && page_up(start + len) - page_down(
                start as int,
            ) > usize::MAX ==> r == Err::<(), Error>(Error::SysError(SysErr::ENOMEM)),
            len > 0 && page_up(start + len) <= u64::MAX && page_up(start + len) - page_down(
                start as int,
            ) <= usize::MAX ==> {
                let first = page_down(start as int);
                let n = (page_up(start + len) - first) / 4096;
                &&& !all_mapped(self.leaves(), first, n) ==> r == Err::<(), Error>(
                    Error::SysError(SysErr::EFAULT),
                )
                &&& all_mapped(self.leaves(), first, n) ==> r == Ok::<(), Error>(()) && final(bs)@
                    == old(bs)@ + blocks_of(self.leaves(), start as int, len as int)
            },
            r.is_err() ==> final(bs)@ == old(bs)@,
    {
        self.GetBlocks(start, len, bs, true)
    }

    /// Makes `[start, start + len)` accessible and appends to `output` the
    /// runs of physical memory behind it, one for each page. Fails as the
    /// check of the pages does, with `EFAULT` when a page cannot be written;
    /// `output` is left as it was then.
    pub fn V2PIov(
        &mut self,
        pm: &mut PageMgr,
        files: &MappableTable,
        start: u64,
        len: u64,
        output: &mut Vec<IoVec>,
        writable: bool,
    ) -> (r: Result<(), Error>)
        requires
            old(self).wf(),
            old(pm).wf(),
            files.wf(),
        ensures
            final(self).wf(),
            final(pm).wf(),
            final(self).same_but_pt(old(self)),
            final(pm)@.base == old(pm)@.base,
            final(pm)@.frames() == old(pm)@.frames(),
            (start == 0 || start + len > u64::MAX) ==> r == Err::<(), Error>(
                Error::SysError(SysErr::EFAULT),
            ) && final(self).leaves() == old(self).leaves() && final(pm)@ == old(pm)@,
            (start != 0 && start + len <= u64::MAX) ==> {
                let p = fix_pages(
                    old(self).leaves(),
                    old(pm)@,
                    &old(self).data.vmas,
                    files,
                    page_down(start as int) as u64,
                    pages_of(start as int, len as int) as nat,
                    writable,
                );
                &&& final(self).leaves() == p.0
                &&& final(pm)@ == p.1
                &&& r == match p.3 {
                    FixStep::Next => Ok::<(), Error>(()),
                    FixStep::Fail(e) => Err::<(), Error>(e),
                    FixStep::Stop => Err::<(), Error>(Error::SysError(SysErr::EFAULT)),
                }
            },
            r.is_err() ==> final(output)@ == old(output)@,
            r.is_ok() ==> final(output)@ == old(output)@ + v2p(
                final(self).leaves(),
                start as int,
                len as int,
            ),
            ({
                let s = v2p_step(
                    old(self).leaves(),
                    old(pm)@,
                    &old(self).data.vmas,
                    files,
                    start,
                    len,
                    writable,
                );
                &&& final(self).leaves() == s.0
                &&& final(pm)@ == s.1
                &&& match s.2 {
                    Ok(runs) => r == Ok::<(), Error>(()) && final(output)@ == old(output)@ + runs,
                    Err(e) => r == Err::<(), Error>(e),
                }
            }),
            r.is_ok() ==> pages_ok(
                final(self).leaves(),
                page_down(start as int),
                pages_of(start as int, len as int),
                writable,
            ),
    {
        reveal(v2p_step);
        reveal(crate::mm::fix_step);
        let _ = self.FixPermission(pm, files, start, len, writable, false)?;
        proof {
            lemma_fix_pages_count(
                old(self).leaves(),
                old(pm)@,
                &old(self).data.vmas,
                files,
                page_down(start as int) as u64,
                pages_of(start as int, len as int) as nat,
                writable,
            );
        }
        if len == 0 {
            assert(output@ =~= old(output)@ + v2p(self.leaves(), start as int, len as int));
            return Ok(());
        }
        let end = start + len;
        let first = start - start % MemoryDef::PAGE_SIZE;
        let last = end - 1;
        let n: u64 = (last - last % MemoryDef::PAGE_SIZE - first) / MemoryDef::PAGE_SIZE + 1;
        let ghost es = self.leaves();
        let mut k: u64 = 0;
        assert(output@ =~= old(output)@ + v2p(es, start as int, len as int).take(0));
        while k < n
            invariant
                self.wf(),
                es == self.leaves(),
                0 < start,
                0 < len,
                end == start + len,
                first == page_down(start as int),
                n == pages_of(start as int, len as int),
                first + 4096 * (n - 1) < end,
                k <= n,
                pages_ok(es, first as int, n as int, writable),
                output@ == old(output)@ + v2p(es, start as int, len as int).take(k as int),
            decreases n - k,
        {
            let page: u64 = first + MemoryDef::PAGE_SIZE * k;
            let lo = if k == 0 {
                start
            } else {
                page
            };
            let hi = if end - page > MemoryDef::PAGE_SIZE {
                page + MemoryDef::PAGE_SIZE
            } else {
                end
            };
            assert(lookup(es, first + 4096 * k).is_some());
            match self.data.pt.Leaf(page) {
                None => {
                    return Err(Error::SysError(SysErr::EFAULT));
                },
                Some(e) => {
                    proof {
                        lemma_lookup(es, page as int);
                        assert(e.paddr % 4096 == 0);
                        assert(e.paddr <= u64::MAX - 4095) by (nonlinear_arith)
                            requires
                                e.paddr % 4096 == 0,
                                e.paddr <= u64::MAX,
                        {}
                    }
                    output.push(IoVec { start: e.paddr + (lo - page), len: (hi - lo) as usize });
                    proof {
                        let v = v2p(es, start as int, len as int);
                        assert(v[k as int] == piece(es, start as int, end as int, k as int));
                        assert(v.take(k + 1) =~= v.take(k as int).push(v[k as int]));
                    }
                },
            }
            k = k + 1;
        }
        proof {
            let v = v2p(es, start as int, len as int);
            assert(v.take(n as int) =~= v);
        }
        Ok(())
    }
}

} // verus!
