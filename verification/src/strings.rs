//! Strings and vectors of strings from guest memory.
use vstd::prelude::*;
use vstd::utf8::encode_utf8;
use crate::areaset::AreaSet;
use crate::cstring::{first_nul, text_of, StringFromBytes};
use crate::linux_def::{Error, SysErr};
use crate::mappable::MappableTable;
use crate::mm::{fix_step, MemoryManager};
use crate::pagemgr::{PageMgr, PmView};
use crate::pagetable::PageEntry;
use crate::plain::decode_all;
use crate::usermem::{check_step, error_of, read_step};

verus! {

/// What reading a string of at most `maxlen` bytes at `addr` does and
/// reads: the page table and the pool after as much of the range as is
/// accessible was made so, and the bytes of that part, or the error.
pub open spec fn string_step(
    es: Seq<PageEntry>,
    pm: PmView,
    vmas: &AreaSet,
    files: &MappableTable,
    addr: u64,
    maxlen: usize,
) -> (Seq<PageEntry>, PmView, Result<Seq<u8>, Error>) {
    let c = check_step(es, pm, vmas, files, addr, maxlen as u64, false, true);
    match c.2 {
        Err(e) => (c.0, c.1, Err(e)),
        Ok(n) => read_step(c.0, c.1, vmas, files, addr, n as usize),
    }
}

/// The error that ends the reading of a vector when one of its strings
/// gives the error `e`: a string that is too long only because the budget
/// left is smaller than the largest size of a string has used the budget up.
pub open spec fn elem_error(e: Error, budget: int, maxElem: usize) -> Error {
    if e == Error::SysError(SysErr::ENAMETOOLONG) && budget < maxElem {
        Error::SysError(SysErr::ENOMEM)
    } else {
        e
    }
}

/// What reading one string of a vector does and gives: the page table and
/// the pool afterwards, and the text with the budget that is left, or the
/// error. A budget that is used up gives `ENOMEM`. The string may have as
/// many bytes as the budget allows, at most `maxElem`, and takes its bytes
/// and one more from the budget.
pub open spec fn elem_step(
    es: Seq<PageEntry>,
    pm: PmView,
    vmas: &AreaSet,
    files: &MappableTable,
    ptr: u64,
    maxElem: usize,
    budget: int,
) -> (Seq<PageEntry>, PmView, Result<(Seq<char>, int), Error>) {
    if budget <= 0 {
        (es, pm, Err(Error::SysError(SysErr::ENOMEM)))
    } else {
        let thisMax = if budget < maxElem {
            budget as usize
        } else {
            maxElem
        };
        let s = string_step(es, pm, vmas, files, ptr, thisMax);
        match s.2 {
            Err(e) => (s.0, s.1, Err(elem_error(e, budget, maxElem))),
            Ok(b) => match text_of(b).1 {
                Err(e) => (s.0, s.1, Err(elem_error(e, budget, maxElem))),
                Ok(_) => (s.0, s.1, Ok((text_of(b).0, budget - (first_nul(b) + 1)))),
            },
        }
    }
}

/// Where the reading of a vector of strings stands: the page table and the
/// pool, the strings read, the budget left, and how the reading ended if it
/// has.
pub struct VecState {
    pub es: Seq<PageEntry>,
    pub pm: PmView,
    pub out: Seq<Seq<char>>,
    pub budget: int,
    pub done: Option<Result<(), Error>>,
}

/// The reading of the strings behind the first `k` pointers of `ptrs`, one
/// after the other as `elem_step` says. A null pointer ends the vector, and
/// so does an error.
pub open spec fn vector_elems(
    es: Seq<PageEntry>,
    pm: PmView,
    vmas: &AreaSet,
    files: &MappableTable,
    ptrs: Seq<u64>,
    k: nat,
    maxElem: usize,
    budget: int,
) -> VecState
    decreases k,
{
    if k == 0 {
        VecState { es, pm, out: Seq::empty(), budget, done: None }
    } else {
        let p = vector_elems(es, pm, vmas, files, ptrs, (k - 1) as nat, maxElem, budget);
        let ptr = ptrs[k - 1];
        if p.done.is_some() {
            p
        } else if ptr == 0 {
            VecState { done: Some(Ok(())), ..p }
        } else {
            let s = elem_step(p.es, p.pm, vmas, files, ptr, maxElem, p.budget);
            match s.2 {
                Err(e) => VecState { es: s.0, pm: s.1, done: Some(Err(e)), ..p },
                Ok(t) => VecState { es: s.0, pm: s.1, out: p.out.push(t.0), budget: t.1, done: None },
            }
        }
    }
}

/// Once the reading of a vector has ended, further pointers change
/// nothing.
pub proof fn lemma_vector_ends(
    es: Seq<PageEntry>,
    pm: PmView,
    vmas: &AreaSet,
    files: &MappableTable,
    ptrs: Seq<u64>,
    k: nat,
    n: nat,
    maxElem: usize,
    budget: int,
)
    requires
        k <= n,
        vector_elems(es, pm, vmas, files, ptrs, k, maxElem, budget).done.is_some(),
    ensures
        vector_elems(es, pm, vmas, files, ptrs, n, maxElem, budget) == vector_elems(
            es,
            pm,
            vmas,
            files,
            ptrs,
            k,
            maxElem,
            budget,
        ),
    decreases n - k,
{
    if k < n {
        lemma_vector_ends(es, pm, vmas, files, ptrs, k, (n - 1) as nat, maxElem, budget);
    }
}

/// The texts of the strings.
pub open spec fn texts(v: Seq<String>) -> Seq<Seq<char>> {
    Seq::new(v.len(), |i: int| v[i]@)
}

impl MemoryManager {
    /// Reads a NUL-terminated string of at most `maxlen` bytes at `addr`.
    /// As much of the range as is accessible is read, and the text before
    /// the first NUL byte is returned, with `ENAMETOOLONG` when there is no
    /// NUL byte and `EILSEQ`, and no text, when the bytes encode no text. An
    /// error of the access comes with the empty text.
    pub fn CopyInString(
        &mut self,
        pm: &mut PageMgr,
        files: &MappableTable,
        addr: u64,
        maxlen: usize,
    ) -> (r: (String, Result<(), Error>))
        requires
            old(self).wf(),
            old(pm).wf(),
            files.wf(),
        ensures
            final(self).wf(),
            final(pm).wf(),
            final(self).same_but_pt(old(self)),
            ({
                let s = string_step(
                    old(self).leaves(),
                    old(pm)@,
                    &old(self).data.vmas,
                    files,
                    addr,
                    maxlen,
                );
                &&& final(self).leaves() == s.0
                &&& final(pm)@ == s.1
                &&& match s.2 {
                    Err(e) => r.0@ == Seq::<char>::empty() && r.1 == Err::<(), Error>(e),
                    Ok(b) => (r.0@, r.1) == text_of(b) && b.len() <= maxlen && (r.1.is_ok()
                        ==> encode_utf8(r.0@).len() == first_nul(b) && first_nul(b) < b.len()),
                }
            }),
    {
        let n = match self.CheckPermissionLocked(pm, files, addr, maxlen as u64, false, true) {
            Err(e) => {
                return (String::new(), Err(e));
            },
            Ok(l) => l as usize,
        };
        let data = match self.CopyDataInLocked(pm, files, addr, n) {
            Err(e) => {
                return (String::new(), Err(e));
            },
            Ok(d) => d,
        };
        assert(data@.len() == n);
        let r = StringFromBytes(data.as_slice());
        proof {
            if r.1.is_ok() {
                assert(data@.take(first_nul(data@)).len() == first_nul(data@));
            }
        }
        r
    }

    /// Reads one string of a vector: see `elem_step`. Returns the string
    /// and the budget that is left.
    pub fn CopyInElement(
        &mut self,
        pm: &mut PageMgr,
        files: &MappableTable,
        ptr: u64,
        maxElemSize: usize,
        budget: i32,
    ) -> (r: Result<(String, i32), Error>)
        requires
            old(self).wf(),
            old(pm).wf(),
            files.wf(),
        ensures
            final(self).wf(),
            final(pm).wf(),
            final(self).same_but_pt(old(self)),
            ({
                let s = elem_step(
                    old(self).leaves(),
                    old(pm)@,
                    &old(self).data.vmas,
                    files,
                    ptr,
                    maxElemSize,
                    budget as int,
                );
                &&& final(self).leaves() == s.0
                &&& final(pm)@ == s.1
                &&& match s.2 {
                    Err(e) => error_of(r) == Some(e),
                    Ok(t) => r.is_ok() && r.unwrap().0@ == t.0 && r.unwrap().1 == t.1,
                }
            }),
    {
        if budget <= 0 {
            return Err(Error::SysError(SysErr::ENOMEM));
        }
        let mut thisMax = maxElemSize;
        let limited = (budget as u64) < maxElemSize as u64;
        if limited {
            thisMax = budget as usize;
        }
        let (s, err) = self.CopyInString(pm, files, ptr, thisMax);
        match err {
            Err(e) => {
                if limited && IsNameTooLong(&e) {
                    return Err(Error::SysError(SysErr::ENOMEM));
                }
                return Err(e);
            },
            Ok(_) => {},
        }
        let strlen = s.as_str().len();
        Ok((s, budget - (strlen as i32 + 1)))
    }

    /// Reads the strings behind the pointers `addresses`, up to the first
    /// null pointer: see `vector_elems`.
    pub fn CopyInStrings(
        &mut self,
        pm: &mut PageMgr,
        files: &MappableTable,
        addresses: &Vec<u64>,
        maxElemSize: usize,
        maxTotalSize: i32,
    ) -> (r: Result<Vec<String>, Error>)
        requires
            old(self).wf(),
            old(pm).wf(),
            files.wf(),
        ensures
            final(self).wf(),
            final(pm).wf(),
            final(self).same_but_pt(old(self)),
            ({
                let st = vector_elems(
                    old(self).leaves(),
                    old(pm)@,
                    &old(self).data.vmas,
                    files,
                    addresses@,
                    addresses@.len(),
                    maxElemSize,
                    maxTotalSize as int,
                );
                &&& final(self).leaves() == st.es
                &&& final(pm)@ == st.pm
                &&& match st.done {
                    Some(Err(e)) => error_of(r) == Some(e),
                    _ => r.is_ok() && texts(r.unwrap()@) == st.out,
                }
            }),
    {
        let ghost ptrs = addresses@;
        let ghost es1 = self.leaves();
        let ghost pm1 = pm@;
        let mut v: Vec<String> = Vec::new();
        let mut budget: i32 = maxTotalSize;
        let n = addresses.len();
        let mut i: usize = 0;
        proof {
            assert(texts(v@) =~= Seq::<Seq<char>>::empty());
        }
        while i < n
            invariant
                self.wf(),
                pm.wf(),
                files.wf(),
                self.same_but_pt(old(self)),
                es1 == old(self).leaves(),
                pm1 == old(pm)@,
                n == ptrs.len(),
                ptrs == addresses@,
                i <= n,
                vector_elems(
                    es1,
                    pm1,
                    &self.data.vmas,
                    files,
                    ptrs,
                    i as nat,
                    maxElemSize,
                    maxTotalSize as int,
                ) == (VecState {
                    es: self.leaves(),
                    pm: pm@,
                    out: texts(v@),
                    budget: budget as int,
                    done: None,
                }),
            decreases n - i,
        {
            let ghost before = vector_elems(
                es1,
                pm1,
                &self.data.vmas,
                files,
                ptrs,
                i as nat,
                maxElemSize,
                maxTotalSize as int,
            );
            assert(((i + 1) as nat - 1) as nat == i as nat);
            let ptr = addresses[i];
            if ptr == 0 {
                proof {
                    lemma_vector_ends(
                        es1,
                        pm1,
                        &self.data.vmas,
                        files,
                        ptrs,
                        (i + 1) as nat,
                        n as nat,
                        maxElemSize,
                        maxTotalSize as int,
                    );
                }
                return Ok(v);
            }
            match self.CopyInElement(pm, files, ptr, maxElemSize, budget) {
                Err(e) => {
                    proof {
                        lemma_vector_ends(
                            es1,
                            pm1,
                            &self.data.vmas,
                            files,
                            ptrs,
                            (i + 1) as nat,
                            n as nat,
                            maxElemSize,
                            maxTotalSize as int,
                        );
                    }
                    return Err(e);
                },
                Ok((s, left)) => {
                    let ghost t = s@;
                    v.push(s);
                    budget = left;
                    proof {
                        assert(texts(v@) =~= before.out.push(t));
                    }
                },
            }
            i = i + 1;
        }
        Ok(v)
    }

    /// Reads a vector of strings: an array of pointers at `addr`, ended by a
    /// null pointer, and the string behind each pointer. A null `addr` is
    /// the empty vector. At most `maxElemSize` pointers are read, as many as
    /// are accessible, and each string has at most `maxElemSize` bytes; all
    /// strings together, with one byte more for each, may take
    /// `maxTotalSize`. See `vector_step`.
    pub fn CopyInVector(
        &mut self,
        pm: &mut PageMgr,
        files: &MappableTable,
        addr: u64,
        maxElemSize: usize,
        maxTotalSize: i32,
    ) -> (r: Result<Vec<String>, Error>)
        requires
            old(self).wf(),
            old(pm).wf(),
            files.wf(),
        ensures
            final(self).wf(),
            final(pm).wf(),
            final(self).same_but_pt(old(self)),
            ({
                let s = vector_step(
                    old(self).leaves(),
                    old(pm)@,
                    &old(self).data.vmas,
                    files,
                    addr,
                    maxElemSize,
                    maxTotalSize,
                );
                &&& final(self).leaves() == s.0
                &&& final(pm)@ == s.1
                &&& match s.2 {
                    Err(e) => error_of(r) == Some(e),
                    Ok(out) => r.is_ok() && texts(r.unwrap()@) == out,
                }
            }),
    {
        if addr == 0 {
            let v: Vec<String> = Vec::new();
            assert(texts(v@) =~= Seq::<Seq<char>>::empty());
            return Ok(v);
        }
        if maxElemSize as u64 > u64::MAX / 8 {
            return Err(Error::SysError(SysErr::EFAULT));
        }
        let maxlen = self.FixPermission(pm, files, addr, maxElemSize as u64 * 8, false, true)?;
        let count = (maxlen / 8) as usize;
        let addresses: Vec<u64> = self.CopyInVec(pm, files, addr, count)?;
        self.CopyInStrings(pm, files, &addresses, maxElemSize, maxTotalSize)
    }
}

/// What reading a vector of strings at `addr` does and gives: the page
/// table and the pool afterwards, and the texts, or the error. A null
/// `addr` is the empty vector. The array of pointers is made accessible as
/// far as it is, for at most `maxElem` pointers; the pointers that are whole
/// in that part are read, and the strings behind them as `vector_elems`
/// says.
pub open spec fn vector_step(
    es: Seq<PageEntry>,
    pm: PmView,
    vmas: &AreaSet,
    files: &MappableTable,
    addr: u64,
    maxElem: usize,
    budget: i32,
) -> (Seq<PageEntry>, PmView, Result<Seq<Seq<char>>, Error>) {
    if addr == 0 {
        (es, pm, Ok(Seq::empty()))
    } else if maxElem * 8 > u64::MAX {
        (es, pm, Err(Error::SysError(SysErr::EFAULT)))
    } else {
        let f = fix_step(es, pm, vmas, files, addr, (maxElem * 8) as u64, false, true);
        match f.2 {
            Err(e) => (f.0, f.1, Err(e)),
            Ok(n) => if n / 8 * 8 > usize::MAX {
                (f.0, f.1, Err(Error::SysError(SysErr::EFAULT)))
            } else {
                let rd = read_step(f.0, f.1, vmas, files, addr, (n / 8 * 8) as usize);
                match rd.2 {
                    Err(e) => (rd.0, rd.1, Err(e)),
                    Ok(bytes) => {
                        let ptrs = decode_all::<u64>(bytes, (n / 8) as nat);
                        let st = vector_elems(
                            rd.0,
                            rd.1,
                            vmas,
                            files,
                            ptrs,
                            ptrs.len(),
                            maxElem,
                            budget as int,
                        );
                        (
                            st.es,
                            st.pm,
                            match st.done {
                                Some(Err(e)) => Err(e),
                                _ => Ok(st.out),
                            },
                        )
                    },
                }
            },
        }
    }
}

/// Whether `e` is the error of a name that is too long.
pub fn IsNameTooLong(e: &Error) -> (r: bool)
    ensures
        r == (*e == Error::SysError(SysErr::ENAMETOOLONG)),
{
    match e {
        Error::SysError(n) => *n == SysErr::ENAMETOOLONG,
        _ => false,
    }
}

} // verus!
