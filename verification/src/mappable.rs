//! Backing objects of file mappings: each hands out the frame that holds a
//! page of its contents and counts how much of it every address space has
//! mapped.
use vstd::prelude::*;
use std::collections::HashMap;
use crate::linux_def::{Error, MemoryDef, SysErr};
use crate::addr::frame_ok;
use crate::range::Range;

verus! {

/// An object that memory can be mapped from. Page `i` of its contents
/// lives in the frame `frames[i]`.
pub struct Mappable {
    pub device: u64,
    pub inode: u64,
    pub name: &'static str,
    pub frames: Vec<u64>,
    /// Bytes mapped by each address space, by its identifier.
    pub maps: HashMap<u64, u64>,
}

impl Mappable {
    /// The object's invariant: its frames are whole pages.
    pub open spec fn wf(&self) -> bool {
        forall|i: int| 0 <= i < self.frames@.len() ==> frame_ok(#[trigger] self.frames@[i] as int)
    }

    /// Bytes of the object that the address space `mm` has mapped.
    pub open spec fn mapped_by(&self, mm: u64) -> int {
        if self.maps@.contains_key(mm) {
            self.maps@[mm] as int
        } else {
            0
        }
    }

    /// The frame that holds the page at `offset`: `EINVAL` for an offset
    /// that is not page-aligned, `EFAULT` for one past the object's end.
    pub open spec fn frame_at(&self, offset: u64) -> Result<u64, Error> {
        if offset % 4096 != 0 {
            Err(Error::SysError(SysErr::EINVAL))
        } else if offset / 4096 >= self.frames@.len() {
            Err(Error::SysError(SysErr::EFAULT))
        } else {
            Ok(self.frames@[offset as int / 4096])
        }
    }

    /// An object whose pages live in `frames` and that nobody has mapped.
    /// Fails with `EINVAL` when a frame is not a whole page.
    pub fn New(device: u64, inode: u64, name: &'static str, frames: Vec<u64>) -> (r: Result<
        Mappable,
        Error,
    >)
        ensures
            r.is_ok() <==> forall|i: int| 0 <= i < frames@.len() ==> frame_ok(#[trigger] frames@[i] as int),
            r.is_err() ==> r == Err::<Mappable, Error>(Error::SysError(SysErr::EINVAL)),
            r.is_ok() ==> {
                let f = r.unwrap();
                &&& f.wf()
                &&& f.device == device
                &&& f.inode == inode
                &&& f.name == name
                &&& f.frames@ == frames@
                &&& f.maps@ == Map::<u64, u64>::empty()
            },
    {
        let n = frames.len();
        let mut i: usize = 0;
        while i < n
            invariant
                n == frames@.len(),
                i <= n,
                forall|j: int| 0 <= j < i ==> frame_ok(#[trigger] frames@[j] as int),
            decreases n - i,
        {
            if frames[i] % MemoryDef::PAGE_SIZE != 0 || frames[i] > u64::MAX - MemoryDef::PAGE_SIZE {
                return Err(Error::SysError(SysErr::EINVAL));
            }
            i = i + 1;
        }
        Ok(Mappable { device, inode, name, frames, maps: HashMap::new() })
    }

    /// Bytes of the object that the address space `mm` has mapped.
    pub fn MappedBy(&self, mm: u64) -> (r: u64)
        ensures
            r == self.mapped_by(mm),
    {
        match self.maps.get(&mm) {
            Some(b) => *b,
            None => 0,
        }
    }

    /// Records that the address space `mm` maps `ar.len` bytes of the object
    /// from `offset` on. Fails, changing nothing, with `EINVAL` when the
    /// mapped part does not end inside 64 bits and with `ENOMEM` when the
    /// count of `mm` cannot grow by that much.
    pub fn AddMapping(&mut self, mm: u64, ar: &Range, offset: u64, writable: bool) -> (r: Result<
        (),
        Error,
    >)
        ensures
            final(self).frames@ == old(self).frames@,
            final(self).device == old(self).device,
            final(self).inode == old(self).inode,
            final(self).name == old(self).name,
            offset + ar.len > u64::MAX ==> r == Err::<(), Error>(Error::SysError(SysErr::EINVAL)),
            offset + ar.len <= u64::MAX && old(self).mapped_by(mm) + ar.len > u64::MAX ==> r
                == Err::<(), Error>(Error::SysError(SysErr::ENOMEM)),
            offset + ar.len <= u64::MAX && old(self).mapped_by(mm) + ar.len <= u64::MAX ==> r
                == Ok::<(), Error>(()),
            r.is_err() ==> final(self).maps@ == old(self).maps@,
            r.is_ok() ==> final(self).maps@ == old(self).maps@.insert(
                mm,
                (old(self).mapped_by(mm) + ar.len) as u64,
            ),
    {
        if ar.len > u64::MAX - offset {
            return Err(Error::SysError(SysErr::EINVAL));
        }
        let have = self.MappedBy(mm);
        if ar.len > u64::MAX - have {
            return Err(Error::SysError(SysErr::ENOMEM));
        }
        self.maps.insert(mm, have + ar.len);
        Ok(())
    }

    /// Records that the address space `mm` no longer maps `ar.len` bytes of
    /// the object. Fails with `EINVAL`, changing nothing, when `mm` has not
    /// mapped that much.
    pub fn RemoveMapping(&mut self, mm: u64, ar: &Range, offset: u64, writable: bool) -> (r:
        Result<(), Error>)
        ensures
            final(self).frames@ == old(self).frames@,
            final(self).device == old(self).device,
            final(self).inode == old(self).inode,
            final(self).name == old(self).name,
            old(self).mapped_by(mm) < ar.len ==> r == Err::<(), Error>(
                Error::SysError(SysErr::EINVAL),
            ) && final(self).maps@ == old(self).maps@,
            old(self).mapped_by(mm) >= ar.len ==> r == Ok::<(), Error>(()) && final(self).maps@
                == old(self).maps@.insert(mm, (old(self).mapped_by(mm) - ar.len) as u64),
    {
        let have = self.MappedBy(mm);
        if have < ar.len {
            return Err(Error::SysError(SysErr::EINVAL));
        }
        self.maps.insert(mm, have - ar.len);
        Ok(())
    }

    /// The frame that holds the page of the object at `fileOffset`.
    pub fn MapFilePage(&self, fileOffset: u64) -> (r: Result<u64, Error>)
        requires
            self.wf(),
        ensures
            r == self.frame_at(fileOffset),
            r.is_ok() ==> frame_ok(r.unwrap() as int),
    {
        if fileOffset % MemoryDef::PAGE_SIZE != 0 {
            return Err(Error::SysError(SysErr::EINVAL));
        }
        let i = fileOffset / MemoryDef::PAGE_SIZE;
        if i >= self.frames.len() as u64 {
            return Err(Error::SysError(SysErr::EFAULT));
        }
        Ok(self.frames[i as usize])
    }
}

/// The backing objects that areas refer to, by their index.
pub struct MappableTable {
    pub files: Vec<Mappable>,
}

impl MappableTable {
    /// Every object of the table is well formed.
    pub open spec fn wf(&self) -> bool {
        forall|i: int| 0 <= i < self.files@.len() ==> (#[trigger] self.files@[i]).wf()
    }

    /// `m` is the handle of an object of the table.
    pub open spec fn has(&self, m: u64) -> bool {
        m < self.files@.len()
    }

    /// Bytes of the object `m` that the address space `mm` has mapped; 0
    /// for a handle that the table does not have.
    pub open spec fn mapped_by(&self, m: u64, mm: u64) -> int {
        if self.has(m) {
            self.files@[m as int].mapped_by(mm)
        } else {
            0
        }
    }

    /// The frame that holds the page at `offset` of the object `m`;
    /// `EFAULT` for a handle that the table does not have.
    pub open spec fn frame_at(&self, m: u64, offset: u64) -> Result<u64, Error> {
        if self.has(m) {
            self.files@[m as int].frame_at(offset)
        } else {
            Err(Error::SysError(SysErr::EFAULT))
        }
    }

    /// The table holds the same objects as `o`, with the same frames; only
    /// the counts of what is mapped may differ.
    pub open spec fn same_objects(&self, o: &Self) -> bool {
        &&& self.files@.len() == o.files@.len()
        &&& forall|i: int|
            0 <= i < self.files@.len() ==> {
                &&& (#[trigger] self.files@[i]).frames@ == o.files@[i].frames@
                &&& self.files@[i].device == o.files@[i].device
                &&& self.files@[i].inode == o.files@[i].inode
                &&& self.files@[i].name == o.files@[i].name
            }
    }

    pub fn New() -> (r: Self)
        ensures
            r.wf(),
            r.files@.len() == 0,
    {
        MappableTable { files: Vec::new() }
    }

    /// Puts an object into the table and gives its handle.
    pub fn Add(&mut self, f: Mappable) -> (m: u64)
        requires
            old(self).wf(),
            f.wf(),
            old(self).files@.len() < u64::MAX,
        ensures
            final(self).wf(),
            m == old(self).files@.len(),
            final(self).files@ == old(self).files@.push(f),
    {
        let m = self.files.len() as u64;
        self.files.push(f);
        m
    }

    /// Whether `m` is the handle of an object of the table.
    pub fn Has(&self, m: u64) -> (r: bool)
        ensures
            r == self.has(m),
    {
        m < self.files.len() as u64
    }

    /// Records that the address space `mm` maps `ar.len` bytes of the object
    /// `m`; fails with `EFAULT` for a handle that the table does not have,
    /// and as `Mappable::AddMapping` does. On an error nothing changes.
    pub fn AddMapping(&mut self, m: u64, mm: u64, ar: &Range, offset: u64, writable: bool) -> (r:
        Result<(), Error>)
        requires
            old(self).wf(),
        ensures
            final(self).wf(),
            final(self).same_objects(old(self)),
            r == (if !old(self).has(m) {
                Err::<(), Error>(Error::SysError(SysErr::EFAULT))
            } else if offset + ar.len > u64::MAX {
                Err::<(), Error>(Error::SysError(SysErr::EINVAL))
            } else if old(self).mapped_by(m, mm) + ar.len > u64::MAX {
                Err::<(), Error>(Error::SysError(SysErr::ENOMEM))
            } else {
                Ok::<(), Error>(())
            }),
            forall|f: u64, u: u64|
                #[trigger] final(self).mapped_by(f, u) == old(self).mapped_by(f, u) + (if r.is_ok()
                    && f == m && u == mm {
                    ar.len as int
                } else {
                    0
                }),
    {
        let n = self.files.len();
        if m >= n as u64 {
            return Err(Error::SysError(SysErr::EFAULT));
        }
        let r = self.files[m as usize].AddMapping(mm, ar, offset, writable);
        proof {
            assert forall|i: int| 0 <= i < self.files@.len() implies (#[trigger] self.files@[i]).wf() by {
                if i != m {
                    assert(self.files@[i] == old(self).files@[i]);
                } else {
                    assert(old(self).files@[i].wf());
                }
            }
        }
        r
    }

    /// Records that the address space `mm` no longer maps `ar.len` bytes of
    /// the object `m`; fails with `EFAULT` for a handle that the table does
    /// not have, and as `Mappable::RemoveMapping` does. On an error nothing
    /// changes.
    pub fn RemoveMapping(&mut self, m: u64, mm: u64, ar: &Range, offset: u64, writable: bool) -> (r:
        Result<(), Error>)
        requires
            old(self).wf(),
        ensures
            final(self).wf(),
            final(self).same_objects(old(self)),
            r == (if !old(self).has(m) {
                Err::<(), Error>(Error::SysError(SysErr::EFAULT))
            } else if old(self).mapped_by(m, mm) < ar.len {
                Err::<(), Error>(Error::SysError(SysErr::EINVAL))
            } else {
                Ok::<(), Error>(())
            }),
            forall|f: u64, u: u64|
                #[trigger] final(self).mapped_by(f, u) == old(self).mapped_by(f, u) - (if r.is_ok()
                    && f == m && u == mm {
                    ar.len as int
                } else {
                    0
                }),
    {
        let n = self.files.len();
        if m >= n as u64 {
            return Err(Error::SysError(SysErr::EFAULT));
        }
        let r = self.files[m as usize].RemoveMapping(mm, ar, offset, writable);
        proof {
            assert forall|i: int| 0 <= i < self.files@.len() implies (#[trigger] self.files@[i]).wf() by {
                if i != m {
                    assert(self.files@[i] == old(self).files@[i]);
                } else {
                    assert(old(self).files@[i].wf());
                }
            }
        }
        r
    }

    /// The frame that holds the page at `offset` of the object `m`.
    pub fn MapFilePage(&self, m: u64, offset: u64) -> (r: Result<u64, Error>)
        requires
            self.wf(),
        ensures
            r == self.frame_at(m, offset),
            r.is_ok() ==> frame_ok(r.unwrap() as int),
    {
        let n = self.files.len();
        if m >= n as u64 {
            return Err(Error::SysError(SysErr::EFAULT));
        }
        self.files[m as usize].MapFilePage(offset)
    }
}

} // verus!
