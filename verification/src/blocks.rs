//! Runs of physically contiguous pages.
use vstd::prelude::*;
use crate::linux_def::{IoVec, MemoryDef};
use crate::stackvec::StackVec;

verus! {

/// The runs `prev` with the page at `a` added: the page extends the last
/// run when it follows it without a hole, and starts a new run otherwise.
pub open spec fn add_page(prev: Seq<IoVec>, a: u64) -> Seq<IoVec> {
    if prev.len() > 0 && prev.last().start + prev.last().len == a {
        prev.drop_last().push(
            IoVec { start: prev.last().start, len: (prev.last().len + 4096) as usize },
        )
    } else {
        prev.push(IoVec { start: a, len: 4096 })
    }
}

/// The pages at the addresses `arr`, gathered into runs: a page that
/// follows the page before it without a hole extends that page's run, any
/// other page starts a new one.
pub open spec fn coalesce(arr: Seq<u64>) -> Seq<IoVec>
    decreases arr.len(),
{
    if arr.len() == 0 {
        Seq::<IoVec>::empty()
    } else {
        add_page(coalesce(arr.drop_last()), arr.last())
    }
}

/// The addresses of the pages of one run.
pub open spec fn run_pages(b: IoVec) -> Seq<u64> {
    Seq::new((b.len / 4096) as nat, |k: int| (b.start + 4096 * k) as u64)
}

/// The addresses of the pages that the runs `blocks` are made of, in
/// order.
pub open spec fn expand(blocks: Seq<IoVec>) -> Seq<u64>
    decreases blocks.len(),
{
    if blocks.len() == 0 {
        Seq::<u64>::empty()
    } else {
        expand(blocks.drop_last()) + run_pages(blocks.last())
    }
}

/// A length can say how long any run of pages is: it has the 64 bits of
/// an address.
pub open spec fn wide_lengths() -> bool {
    usize::MAX as int == u64::MAX as int
}

/// The addresses leave room for a page each; and on a machine whose
/// lengths are shorter than its addresses, all their pages together fit
/// in a length.
pub open spec fn pages_fit(arr: Seq<u64>) -> bool {
    &&& wide_lengths() || arr.len() * 4096 <= usize::MAX
    &&& forall|i: int| 0 <= i < arr.len() ==> #[trigger] arr[i] + 4096 <= u64::MAX
}

/// Runs of whole pages, at most `n` pages each, none of which ends where
/// the next begins.
pub open spec fn runs_ok(blocks: Seq<IoVec>, n: int) -> bool {
    &&& forall|i: int|
        0 <= i < blocks.len() ==> (#[trigger] blocks[i]).len >= 4096 && blocks[i].len % 4096 == 0
            && blocks[i].len <= 4096 * n && blocks[i].start + blocks[i].len <= u64::MAX
    &&& forall|i: int|
        0 <= i < blocks.len() - 1 ==> (#[trigger] blocks[i]).start + blocks[i].len != blocks[i
            + 1].start
}

/// Adding a page to well-formed runs gives well-formed runs that end
/// behind that page, hold one page more, and expand to one address more.
pub proof fn lemma_add_page(prev: Seq<IoVec>, a: u64, n: int)
    requires
        runs_ok(prev, n),
        0 <= n,
        wide_lengths() || 4096 * (n + 1) <= usize::MAX,
        a + 4096 <= u64::MAX,
    ensures
        runs_ok(add_page(prev, a), n + 1),
        add_page(prev, a).len() > 0,
        add_page(prev, a).last().start + add_page(prev, a).last().len == a + 4096,
        prev.len() > 0 ==> add_page(prev, a)[0].start == prev[0].start,
        prev.len() == 0 ==> add_page(prev, a)[0].start == a,
        IoVec::total(add_page(prev, a)) == IoVec::total(prev) + 4096,
        expand(add_page(prev, a)) == expand(prev).push(a),
{
    let c = add_page(prev, a);
    if prev.len() > 0 && prev.last().start + prev.last().len == a {
        let l = prev.last();
        let e = IoVec { start: l.start, len: (l.len + 4096) as usize };
        assert(c.drop_last() =~= prev.drop_last());
        assert(c.last() == e);
        assert forall|i: int| 0 <= i < c.len() implies (#[trigger] c[i]).len >= 4096 && c[i].len
            % 4096 == 0 && c[i].len <= 4096 * (n + 1) && c[i].start + c[i].len <= u64::MAX by {
            if i < c.len() - 1 {
                assert(c[i] == prev[i]);
            }
        }
        assert forall|i: int| 0 <= i < c.len() - 1 implies (#[trigger] c[i]).start + c[i].len
            != c[i + 1].start by {
            assert(c[i] == prev[i]);
            if i + 1 < c.len() - 1 {
                assert(c[i + 1] == prev[i + 1]);
            } else {
                assert(c[i + 1].start == prev[i + 1].start);
            }
        }
        assert(run_pages(e) =~= run_pages(l).push(a));
        assert(expand(c) =~= expand(prev).push(a));
        if c.len() > 1 {
            assert(c[0] == prev[0]);
        }
    } else {
        let e = IoVec { start: a, len: 4096 };
        assert(c.drop_last() =~= prev);
        assert(c.last() == e);
        assert forall|i: int| 0 <= i < c.len() implies (#[trigger] c[i]).len >= 4096 && c[i].len
            % 4096 == 0 && c[i].len <= 4096 * (n + 1) && c[i].start + c[i].len <= u64::MAX by {
            if i < c.len() - 1 {
                assert(c[i] == prev[i]);
            }
        }
        assert forall|i: int| 0 <= i < c.len() - 1 implies (#[trigger] c[i]).start + c[i].len
            != c[i + 1].start by {
            assert(c[i] == prev[i]);
            if i + 1 < c.len() - 1 {
                assert(c[i + 1] == prev[i + 1]);
            }
        }
        assert(run_pages(e) =~= seq![a]);
        assert(expand(c) =~= expand(prev).push(a));
        if prev.len() > 0 {
            assert(c[0] == prev[0]);
        }
    }
}

/// The runs of `coalesce` are made of whole pages, as many as there are
/// addresses; the first run starts at the first address and the last ends
/// behind the last; no run ends where the next begins; and the pages of the
/// runs are the addresses, in order.
pub proof fn lemma_coalesce(arr: Seq<u64>)
    requires
        pages_fit(arr),
    ensures
        runs_ok(coalesce(arr), arr.len() as int),
        IoVec::total(coalesce(arr)) == 4096 * arr.len(),
        arr.len() > 0 ==> coalesce(arr).len() > 0 && coalesce(arr).last().start + coalesce(
            arr,
        ).last().len == arr.last() + 4096 && coalesce(arr)[0].start == arr[0],
        expand(coalesce(arr)) == arr,
    decreases arr.len(),
{
    if arr.len() == 0 {
        assert(expand(coalesce(arr)) =~= arr);
    } else {
        let d = arr.drop_last();
        assert forall|i: int| 0 <= i < d.len() implies #[trigger] d[i] + 4096 <= u64::MAX by {
            assert(d[i] == arr[i]);
        }
        lemma_coalesce(d);
        lemma_add_page(coalesce(d), arr.last(), d.len() as int);
        assert(d.push(arr.last()) =~= arr);
        if d.len() > 0 {
            assert(d[0] == arr[0]);
        }
    }
}

/// Gathers the pages at the addresses `arr` into runs and appends the runs
/// to `bs`.
pub fn ToBlocks(bs: &mut StackVec<IoVec>, arr: &[u64])
    requires
        arr@.len() > 0,
        pages_fit(arr@),
    ensures
        final(bs)@ == old(bs)@ + coalesce(arr@),
{
    let n = arr.len();
    let mut begin = arr[0];
    let mut expect = begin + MemoryDef::PAGE_SIZE;
    let mut i: usize = 1;
    proof {
        assert(arr@.take(1).drop_last() =~= Seq::<u64>::empty());
        assert(coalesce(arr@.take(1).drop_last()) =~= Seq::<IoVec>::empty());
        assert(arr@.take(1).last() == begin);
        assert(coalesce(arr@.take(1)) =~= seq![IoVec { start: begin, len: 4096 }]);
        lemma_fit_prefix(arr@, 1);
        lemma_coalesce(arr@.take(1));
    }
    while i < n
        invariant
            1 <= i <= n,
            n == arr@.len(),
            pages_fit(arr@),
            begin < expect,
            expect - begin <= 4096 * i,
            expect == arr@[i - 1] + 4096,
            coalesce(arr@.take(i as int)).len() > 0,
            old(bs)@ + coalesce(arr@.take(i as int)) == bs@.push(
                IoVec { start: begin, len: (expect - begin) as usize },
            ),
        decreases n - i,
    {
        let ghost pre = arr@.take(i as int);
        let ghost cur = arr@.take(i + 1);
        proof {
            assert(cur.drop_last() =~= pre);
            assert(cur.last() == arr@[i as int]);
            lemma_fit_prefix(arr@, i as int);
            lemma_fit_prefix(arr@, i + 1);
            lemma_coalesce(pre);
            let last = IoVec { start: begin, len: (expect - begin) as usize };
            assert((old(bs)@ + coalesce(pre)).last() == last);
            assert(coalesce(pre).last() == last);
            assert(coalesce(pre).drop_last() =~= (old(bs)@ + coalesce(pre)).drop_last().skip(
                old(bs)@.len() as int,
            ));
            assert((old(bs)@ + coalesce(pre)).drop_last() =~= bs@);
        }
        if arr[i] == expect {
            expect = expect + MemoryDef::PAGE_SIZE;
            proof {
                assert(old(bs)@ + coalesce(cur) =~= bs@.push(
                    IoVec { start: begin, len: (expect - begin) as usize },
                ));
            }
        } else {
            bs.Push(IoVec::NewFromAddr(begin, (expect - begin) as usize));
            begin = arr[i];
            expect = begin + MemoryDef::PAGE_SIZE;
            proof {
                assert(old(bs)@ + coalesce(cur) =~= bs@.push(
                    IoVec { start: begin, len: (expect - begin) as usize },
                ));
            }
        }
        i = i + 1;
    }
    proof {
        assert(arr@.take(n as int) =~= arr@);
    }
    bs.Push(IoVec::NewFromAddr(begin, (expect - begin) as usize));
}

/// A prefix of addresses that fit fits too.
pub proof fn lemma_fit_prefix(arr: Seq<u64>, n: int)
    requires
        pages_fit(arr),
        0 <= n <= arr.len(),
    ensures
        pages_fit(arr.take(n)),
{
    assert forall|i: int| 0 <= i < arr.take(n).len() implies #[trigger] arr.take(n)[i] + 4096
        <= u64::MAX by {
        assert(arr.take(n)[i] == arr[i]);
    }
}

} // verus!
