//! The page-frame allocator: a pool of 4 KiB physical frames, each with a
//! reference count and its contents.
use vstd::prelude::*;
use crate::linux_def::{Error, MemoryDef, SysErr};

verus! {

/// The state of a pool of frames, as mathematics. Frame `i` has the
/// physical address `base + 4096 * i` and holds the bytes
/// `mem[4096 * i .. 4096 * (i + 1)]`.
pub struct PmView {
    pub base: u64,
    pub refs: Seq<u64>,
    pub live: Seq<bool>,
    pub mem: Seq<u8>,
}

impl PmView {
    pub open spec fn frames(self) -> int {
        self.refs.len() as int
    }

    /// The pool's invariant.
    pub open spec fn wf(self) -> bool {
        &&& self.base % 4096 == 0
        &&& self.frames() <= PageMgr::MAX_FRAMES
        &&& self.live.len() == self.frames()
        &&& self.mem.len() == self.frames() * 4096
        &&& self.base + self.frames() * 4096 <= u64::MAX
        &&& forall|i: int| 0 <= i < self.frames() && !self.live[i] ==> #[trigger] self.refs[i] == 0
    }

    /// `pa` is the address of a frame of the pool.
    pub open spec fn is_frame(self, pa: int) -> bool {
        &&& self.base <= pa < self.base + self.frames() * 4096
        &&& (pa - self.base) % 4096 == 0
    }

    /// The number of the frame at `pa`.
    pub open spec fn index_of(self, pa: int) -> int {
        (pa - self.base) / 4096
    }

    /// The address of frame `i`.
    pub open spec fn addr_of(self, i: int) -> int {
        self.base + i * 4096
    }

    /// `pa` is the address of a frame that is allocated.
    pub open spec fn is_live(self, pa: int) -> bool {
        self.is_frame(pa) && self.live[self.index_of(pa)]
    }

    /// The reference count of the frame at `pa`; 0 for an address that is no
    /// frame's.
    pub open spec fn ref_of(self, pa: int) -> int {
        if self.is_frame(pa) {
            self.refs[self.index_of(pa)] as int
        } else {
            0
        }
    }

    /// The bytes `[pa, pa + len)` lie inside the pool.
    pub open spec fn holds(self, pa: int, len: int) -> bool {
        self.base <= pa && 0 <= len && pa + len <= self.base + self.frames() * 4096
    }

    /// The contents of `[pa, pa + len)`.
    pub open spec fn bytes(self, pa: int, len: int) -> Seq<u8> {
        self.mem.subrange(pa - self.base, pa - self.base + len)
    }

    /// Some frame is free.
    pub open spec fn has_free(self) -> bool {
        exists|i: int| 0 <= i < self.frames() && !#[trigger] self.live[i]
    }

    /// Frame `i` is the free frame with the lowest number.
    pub open spec fn first_free(self, i: int) -> bool {
        &&& 0 <= i < self.frames()
        &&& !self.live[i]
        &&& forall|j: int| 0 <= j < i ==> #[trigger] self.live[j]
    }

    /// The number of the free frame with the lowest number.
    pub open spec fn lowest_free(self) -> int {
        choose|i: int| self.first_free(i)
    }

    /// The pool after the lowest free frame was handed out.
    pub open spec fn allocate(self, zeroed: bool) -> PmView {
        let i = self.lowest_free();
        PmView {
            live: self.live.update(i, true),
            mem: if zeroed {
                Seq::new(
                    self.mem.len(),
                    |k: int|
                        if i * 4096 <= k < i * 4096 + 4096 {
                            0u8
                        } else {
                            self.mem[k]
                        },
                )
            } else {
                self.mem
            },
            ..self
        }
    }

    /// The pool after one more reference to the frame at `pa`. A count that
    /// has reached the largest value stays there; an address that is no
    /// allocated frame changes nothing.
    pub open spec fn retain(self, pa: int) -> PmView {
        let i = self.index_of(pa);
        if self.is_live(pa) && self.refs[i] < u64::MAX {
            PmView { refs: self.refs.update(i, (self.refs[i] + 1) as u64), ..self }
        } else {
            self
        }
    }

    /// The pool after one reference to the frame at `pa` was dropped: the
    /// frame is free once its count is 0. An address that is no allocated
    /// frame, or a frame without reference, changes nothing.
    pub open spec fn release(self, pa: int) -> PmView {
        let i = self.index_of(pa);
        if self.is_live(pa) && self.refs[i] > 0 {
            PmView {
                refs: self.refs.update(i, (self.refs[i] - 1) as u64),
                live: self.live.update(i, self.refs[i] > 1),
                ..self
            }
        } else {
            self
        }
    }

    /// The pool after an allocated frame that has no reference was given
    /// back.
    pub open spec fn free(self, pa: int) -> PmView {
        let i = self.index_of(pa);
        if self.is_live(pa) && self.refs[i] == 0 {
            PmView { live: self.live.update(i, false), ..self }
        } else {
            self
        }
    }

    /// The pool after `data` was written at `pa`.
    pub open spec fn write(self, pa: int, data: Seq<u8>) -> PmView {
        let at = pa - self.base;
        PmView {
            mem: Seq::new(
                self.mem.len(),
                |k: int|
                    if at <= k < at + data.len() {
                        data[k - at]
                    } else {
                        self.mem[k]
                    },
            ),
            ..self
        }
    }

    /// The pool after the frame at `src` was copied over the frame at
    /// `dst`.
    pub open spec fn copy_page(self, src: int, dst: int) -> PmView {
        self.write(dst, self.bytes(src, 4096))
    }

    /// The free frame with the lowest number is the only one.
    pub proof fn lemma_lowest_free(self, i: int)
        requires
            self.first_free(i),
        ensures
            self.lowest_free() == i,
            self.has_free(),
    {
        let j = self.lowest_free();
        assert(self.first_free(j));
        if j < i {
            assert(self.live[j]);
        }
        if i < j {
            assert(self.live[i]);
        }
    }
}

/// A pool of physical frames.
pub struct PageMgr {
    pub base: u64,
    pub refs: Vec<u64>,
    pub live: Vec<bool>,
    pub mem: Vec<u8>,
}

impl View for PageMgr {
    type V = PmView;

    open spec fn view(&self) -> PmView {
        PmView { base: self.base, refs: self.refs@, live: self.live@, mem: self.mem@ }
    }
}

impl PageMgr {
    /// The largest pool that can be made.
    pub const MAX_FRAMES: usize = 0x8_0000;

    /// The pool's invariant.
    pub open spec fn wf(&self) -> bool {
        self@.wf()
    }

    /// A pool of `frames` free, zero-filled frames whose first frame has the
    /// address `base`. Fails with `EINVAL` when `base` is not page-aligned,
    /// the pool is larger than `MAX_FRAMES`, or its last address does not
    /// fit in 64 bits.
    pub fn New(base: u64, frames: usize) -> (r: Result<PageMgr, Error>)
        ensures
            (base % 4096 == 0 && frames <= Self::MAX_FRAMES && base + frames * 4096 <= u64::MAX)
                <==> r.is_ok(),
            r.is_err() ==> r == Err::<PageMgr, Error>(Error::SysError(SysErr::EINVAL)),
            r.is_ok() ==> {
                let pm = r.unwrap();
                &&& pm.wf()
                &&& pm@.base == base
                &&& pm@.frames() == frames
                &&& forall|i: int| 0 <= i < frames ==> !#[trigger] pm@.live[i]
                &&& forall|i: int| 0 <= i < frames * 4096 ==> #[trigger] pm@.mem[i] == 0
            },
    {
        if base % MemoryDef::PAGE_SIZE != 0 || frames > Self::MAX_FRAMES {
            return Err(Error::SysError(SysErr::EINVAL));
        }
        let size: u64 = (frames as u64) * MemoryDef::PAGE_SIZE;
        if base > u64::MAX - size {
            return Err(Error::SysError(SysErr::EINVAL));
        }
        let mut refs: Vec<u64> = Vec::new();
        let mut live: Vec<bool> = Vec::new();
        let mut mem: Vec<u8> = Vec::new();
        let mut i: usize = 0;
        while i < frames
            invariant
                i <= frames,
                frames <= Self::MAX_FRAMES,
                refs@.len() == i,
                live@.len() == i,
                mem@.len() == i * 4096,
                forall|j: int| 0 <= j < i ==> #[trigger] refs@[j] == 0,
                forall|j: int| 0 <= j < i ==> !#[trigger] live@[j],
                forall|j: int| 0 <= j < i * 4096 ==> #[trigger] mem@[j] == 0,
            decreases frames - i,
        {
            refs.push(0);
            live.push(false);
            let mut k: usize = 0;
            while k < 4096
                invariant
                    k <= 4096,
                    i < frames,
                    frames <= Self::MAX_FRAMES,
                    mem@.len() == i * 4096 + k,
                    forall|j: int| 0 <= j < i * 4096 + k ==> #[trigger] mem@[j] == 0,
                decreases 4096 - k,
            {
                mem.push(0u8);
                k = k + 1;
            }
            i = i + 1;
        }
        Ok(PageMgr { base, refs, live, mem })
    }

    /// Number of frames in the pool.
    pub fn FrameCount(&self) -> (r: usize)
        ensures
            r == self@.frames(),
    {
        self.refs.len()
    }

    /// Whether `pa` is the address of a frame of the pool.
    pub fn IsFrame(&self, pa: u64) -> (r: bool)
        requires
            self.wf(),
        ensures
            r == self@.is_frame(pa as int),
    {
        let size: u64 = (self.refs.len() as u64) * MemoryDef::PAGE_SIZE;
        pa >= self.base && pa - self.base < size && (pa - self.base) % MemoryDef::PAGE_SIZE == 0
    }

    fn index(&self, pa: u64) -> (i: usize)
        requires
            self.wf(),
            self@.is_frame(pa as int),
        ensures
            i == self@.index_of(pa as int),
            i < self@.frames(),
            self@.addr_of(i as int) == pa,
    {
        ((pa - self.base) / MemoryDef::PAGE_SIZE) as usize
    }

    /// Whether `pa` is the address of an allocated frame.
    pub fn IsLive(&self, pa: u64) -> (r: bool)
        requires
            self.wf(),
        ensures
            r == self@.is_live(pa as int),
    {
        if !self.IsFrame(pa) {
            return false;
        }
        let i = self.index(pa);
        self.live[i]
    }

    /// Whether the bytes `[pa, pa + len)` lie inside the pool.
    pub fn Holds(&self, pa: u64, len: usize) -> (r: bool)
        requires
            self.wf(),
        ensures
            r == self@.holds(pa as int, len as int),
    {
        let size: u64 = (self.refs.len() as u64) * MemoryDef::PAGE_SIZE;
        pa >= self.base && pa - self.base <= size && len as u64 <= size - (pa - self.base)
    }

    /// Whether a frame is free.
    pub fn HasFree(&self) -> (r: bool)
        requires
            self.wf(),
        ensures
            r == self@.has_free(),
    {
        let n = self.live.len();
        let mut i: usize = 0;
        while i < n && self.live[i]
            invariant
                n == self@.frames(),
                n == self.live@.len(),
                i <= n,
                forall|j: int| 0 <= j < i ==> #[trigger] self.live@[j],
            decreases n - i,
        {
            i = i + 1;
        }
        i < n
    }

    /// Hands out the free frame with the lowest number, zero-filled on
    /// request and with its old contents otherwise. The frame starts with no
    /// reference. Fails with `ENOMEM`, changing nothing, when no frame is
    /// free.
    pub fn AllocPage(&mut self, zeroed: bool) -> (r: Result<u64, Error>)
        requires
            old(self).wf(),
        ensures
            final(self).wf(),
            r.is_ok() <==> old(self)@.has_free(),
            r.is_err() ==> r == Err::<u64, Error>(Error::SysError(SysErr::ENOMEM)) && final(self)@
                == old(self)@,
            r.is_ok() ==> {
                &&& r.unwrap() == old(self)@.addr_of(old(self)@.lowest_free())
                &&& old(self)@.first_free(old(self)@.lowest_free())
                &&& final(self)@ == old(self)@.allocate(zeroed)
                &&& final(self)@.is_live(r.unwrap() as int)
                &&& final(self)@.ref_of(r.unwrap() as int) == 0
            },
    {
        let n = self.live.len();
        let mut i: usize = 0;
        while i < n && self.live[i]
            invariant
                self.wf(),
                self@ == old(self)@,
                n == self@.frames(),
                i <= n,
                forall|j: int| 0 <= j < i ==> #[trigger] self.live@[j],
            decreases n - i,
        {
            i = i + 1;
        }
        if i == n {
            return Err(Error::SysError(SysErr::ENOMEM));
        }
        proof {
            old(self)@.lemma_lowest_free(i as int);
        }
        self.live.set(i, true);
        let pa: u64 = self.base + (i as u64) * MemoryDef::PAGE_SIZE;
        assert(self@.index_of(pa as int) == i);
        if zeroed {
            let start: usize = i * 4096;
            let mut k: usize = 0;
            while k < 4096
                invariant
                    k <= 4096,
                    i < n,
                    n == self@.frames(),
                    n <= Self::MAX_FRAMES,
                    start == i * 4096,
                    self.mem@.len() == old(self).mem@.len(),
                    self.mem@.len() == n * 4096,
                    self.base == old(self).base,
                    self.refs@ == old(self).refs@,
                    self.live@ == old(self).live@.update(i as int, true),
                    forall|j: int|
                        0 <= j < self.mem@.len() ==> #[trigger] self.mem@[j] == (if start <= j
                            < start + k {
                            0u8
                        } else {
                            old(self).mem@[j]
                        }),
                decreases 4096 - k,
            {
                self.mem.set(start + k, 0u8);
                k = k + 1;
            }
            assert(self.mem@ =~= old(self)@.allocate(zeroed).mem);
        }
        Ok(pa)
    }

    /// The reference count of the frame at `pa`; fails with `EFAULT` when
    /// `pa` is not the address of an allocated frame.
    pub fn GetRef(&self, pa: u64) -> (r: Result<u64, Error>)
        requires
            self.wf(),
        ensures
            self@.is_live(pa as int) ==> r == Ok::<u64, Error>(self@.ref_of(pa as int) as u64),
            !self@.is_live(pa as int) ==> r == Err::<u64, Error>(Error::SysError(SysErr::EFAULT)),
    {
        if !self.IsLive(pa) {
            return Err(Error::SysError(SysErr::EFAULT));
        }
        let i = self.index(pa);
        Ok(self.refs[i])
    }

    /// Adds one reference to the allocated frame at `pa`; a count at its
    /// largest value stays. Fails with `EFAULT`, changing nothing, when `pa`
    /// is not the address of an allocated frame. Returns the new count.
    pub fn Ref(&mut self, pa: u64) -> (r: Result<u64, Error>)
        requires
            old(self).wf(),
        ensures
            final(self).wf(),
            final(self)@ == old(self)@.retain(pa as int),
            old(self)@.is_live(pa as int) ==> r == Ok::<u64, Error>(
                final(self)@.ref_of(pa as int) as u64,
            ),
            !old(self)@.is_live(pa as int) ==> r == Err::<u64, Error>(
                Error::SysError(SysErr::EFAULT),
            ),
    {
        if !self.IsLive(pa) {
            return Err(Error::SysError(SysErr::EFAULT));
        }
        let i = self.index(pa);
        let c = self.refs[i];
        if c == u64::MAX {
            return Ok(c);
        }
        self.refs.set(i, c + 1);
        Ok(c + 1)
    }

    /// Drops one reference to the frame at `pa`; the frame becomes free when
    /// its last reference goes. Changes nothing when `pa` is not an
    /// allocated frame or has no reference. Returns the count that is left.
    pub fn Deref(&mut self, pa: u64) -> (left: u64)
        requires
            old(self).wf(),
        ensures
            final(self).wf(),
            final(self)@ == old(self)@.release(pa as int),
            left == final(self)@.ref_of(pa as int),
    {
        if !self.IsLive(pa) {
            return if self.IsFrame(pa) {
                let i = self.index(pa);
                self.refs[i]
            } else {
                0
            };
        }
        let i = self.index(pa);
        let c = self.refs[i];
        if c == 0 {
            return 0;
        }
        self.refs.set(i, c - 1);
        if c == 1 {
            self.live.set(i, false);
        }
        assert(self.live@ =~= old(self)@.release(pa as int).live);
        c - 1
    }

    /// Gives back an allocated frame that has no reference. Changes nothing
    /// for any other address.
    pub fn FreePage(&mut self, pa: u64)
        requires
            old(self).wf(),
        ensures
            final(self).wf(),
            final(self)@ == old(self)@.free(pa as int),
    {
        if !self.IsLive(pa) {
            return ;
        }
        let i = self.index(pa);
        if self.refs[i] == 0 {
            self.live.set(i, false);
        }
    }

    /// Appends the bytes `[pa, pa + len)` of the pool to `out`.
    pub fn ReadBytes(&self, pa: u64, len: usize, out: &mut Vec<u8>)
        requires
            self.wf(),
            self@.holds(pa as int, len as int),
        ensures
            final(out)@ == old(out)@ + self@.bytes(pa as int, len as int),
    {
        let start: usize = (pa - self.base) as usize;
        let mut k: usize = 0;
        while k < len
            invariant
                self.wf(),
                self@.holds(pa as int, len as int),
                start == pa - self.base,
                k <= len,
                out@ == old(out)@ + self@.bytes(pa as int, k as int),
            decreases len - k,
        {
            out.push(self.mem[start + k]);
            k = k + 1;
            assert(out@ =~= old(out)@ + self@.bytes(pa as int, k as int));
        }
    }

    /// Writes `src[from .. from + len]` over the bytes `[pa, pa + len)` of
    /// the pool.
    pub fn WriteBytes(&mut self, pa: u64, src: &[u8], from: usize, len: usize)
        requires
            old(self).wf(),
            old(self)@.holds(pa as int, len as int),
            from + len <= src@.len(),
        ensures
            final(self).wf(),
            final(self)@ == old(self)@.write(pa as int, src@.subrange(from as int, from + len)),
    {
        let start: usize = (pa - self.base) as usize;
        let total = src.len();
        let mut k: usize = 0;
        while k < len
            invariant
                self.wf(),
                old(self)@.holds(pa as int, len as int),
                from + len <= src@.len(),
                total == src@.len(),
                start == pa - self.base,
                k <= len,
                self.base == old(self).base,
                self.refs@ == old(self).refs@,
                self.live@ == old(self).live@,
                self.mem@.len() == old(self).mem@.len(),
                forall|j: int|
                    0 <= j < old(self).mem@.len() ==> #[trigger] self.mem@[j] == (if start <= j
                        < start + k {
                        src@[from + (j - start)]
                    } else {
                        old(self).mem@[j]
                    }),
            decreases len - k,
        {
            self.mem.set(start + k, src[from + k]);
            k = k + 1;
        }
        assert(self.mem@ =~= old(self)@.write(
            pa as int,
            src@.subrange(from as int, from + len),
        ).mem);
    }

    /// Fills the bytes `[pa, pa + len)` of the pool with zeros.
    pub fn ZeroBytes(&mut self, pa: u64, len: usize)
        requires
            old(self).wf(),
            old(self)@.holds(pa as int, len as int),
        ensures
            final(self).wf(),
            final(self)@ == old(self)@.write(pa as int, Seq::new(len as nat, |i: int| 0u8)),
    {
        let start: usize = (pa - self.base) as usize;
        let mut k: usize = 0;
        while k < len
            invariant
                self.wf(),
                old(self)@.holds(pa as int, len as int),
                start == pa - self.base,
                k <= len,
                self.base == old(self).base,
                self.refs@ == old(self).refs@,
                self.live@ == old(self).live@,
                self.mem@.len() == old(self).mem@.len(),
                forall|j: int|
                    0 <= j < old(self).mem@.len() ==> #[trigger] self.mem@[j] == (if start <= j
                        < start + k {
                        0u8
                    } else {
                        old(self).mem@[j]
                    }),
            decreases len - k,
        {
            self.mem.set(start + k, 0u8);
            k = k + 1;
        }
        assert(self.mem@ =~= old(self)@.write(pa as int, Seq::new(len as nat, |i: int| 0u8)).mem);
    }

    /// Copies the contents of the frame at `src` over the frame at `dst`.
    pub fn CopyPage(&mut self, src: u64, dst: u64)
        requires
            old(self).wf(),
            old(self)@.is_frame(src as int),
            old(self)@.is_frame(dst as int),
        ensures
            final(self).wf(),
            final(self)@ == old(self)@.copy_page(src as int, dst as int),
    {
        let s: usize = (src - self.base) as usize;
        let d: usize = (dst - self.base) as usize;
        if s == d {
            assert(self.mem@ =~= old(self)@.copy_page(src as int, dst as int).mem);
            return ;
        }
        let mut k: usize = 0;
        while k < 4096
            invariant
                self.wf(),
                old(self)@.is_frame(src as int),
                old(self)@.is_frame(dst as int),
                s == src - self.base,
                d == dst - self.base,
                s != d,
                k <= 4096,
                self.base == old(self).base,
                self.refs@ == old(self).refs@,
                self.live@ == old(self).live@,
                self.mem@.len() == old(self).mem@.len(),
                forall|j: int|
                    0 <= j < old(self).mem@.len() ==> #[trigger] self.mem@[j] == (if d <= j < d
                        + k {
                        old(self).mem@[j - d + s]
                    } else {
                        old(self).mem@[j]
                    }),
            decreases 4096 - k,
        {
            let b = self.mem[s + k];
            self.mem.set(d + k, b);
            k = k + 1;
        }
        assert(self.mem@ =~= old(self)@.copy_page(src as int, dst as int).mem);
    }
}

} // verus!
