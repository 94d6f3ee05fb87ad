//! NUL-terminated strings as guest memory holds them.
use vstd::prelude::*;
use vstd::utf8::{decode_utf8, decode_utf8_encode_utf8, encode_utf8, valid_utf8};
use crate::linux_def::{Error, SysErr};

verus! {

/// `String::from_utf8`: the text that the bytes encode, when they are valid
/// UTF-8, and nothing when they are not.
#[verifier::external_body]
fn utf8_text(bytes: &[u8]) -> (r: Option<String>)
    ensures
        r.is_some() == valid_utf8(bytes@),
        r.is_some() ==> r.unwrap()@ == decode_utf8(bytes@),
{
    String::from_utf8(bytes.to_vec()).ok()
}

/// The text that the bytes encode, when they are valid UTF-8.
pub fn TextFromBytes(bytes: &[u8]) -> (r: Option<String>)
    ensures
        r.is_some() == valid_utf8(bytes@),
        r.is_some() ==> r.unwrap()@ == decode_utf8(bytes@),
{
    utf8_text(bytes)
}

/// Position of the first NUL byte of `data`; the length of `data` when it
/// has none.
pub open spec fn first_nul(data: Seq<u8>) -> int
    decreases data.len(),
{
    if data.len() == 0 {
        0
    } else if data[0] == 0 {
        0
    } else {
        1 + first_nul(data.skip(1))
    }
}

/// A position with a NUL byte, or the end, before which no byte is NUL is
/// the position `first_nul`.
pub proof fn lemma_first_nul(data: Seq<u8>, i: int)
    requires
        0 <= i <= data.len(),
        forall|k: int| 0 <= k < i ==> #[trigger] data[k] != 0,
        i < data.len() ==> data[i] == 0,
    ensures
        first_nul(data) == i,
    decreases i,
{
    if i > 0 {
        let t = data.skip(1);
        assert(data[0] != 0);
        assert forall|k: int| 0 <= k < i - 1 implies #[trigger] t[k] != 0 by {
            assert(t[k] == data[k + 1]);
        }
        lemma_first_nul(t, i - 1);
    }
}

/// The text that `data` holds and what reading it gives. The text is what
/// the bytes before the first NUL encode. Without NUL the text is too long:
/// `ENAMETOOLONG` comes with it. Bytes that encode no text give the empty
/// text and `EILSEQ`.
#[verifier::opaque]
pub open spec fn text_of(data: Seq<u8>) -> (Seq<char>, Result<(), Error>) {
    let n = first_nul(data);
    let part = data.take(n);
    if !valid_utf8(part) {
        (Seq::<char>::empty(), Err(Error::SysError(SysErr::EILSEQ)))
    } else if n < data.len() {
        (decode_utf8(part), Ok(()))
    } else {
        (decode_utf8(part), Err(Error::SysError(SysErr::ENAMETOOLONG)))
    }
}

/// Position of the first NUL byte of `data`; the length of `data` when it
/// has none.
pub fn FirstNul(data: &[u8]) -> (i: usize)
    ensures
        i == first_nul(data@),
        i <= data@.len(),
{
    let n = data.len();
    let mut i: usize = 0;
    while i < n && data[i] != 0
        invariant
            n == data@.len(),
            i <= n,
            forall|k: int| 0 <= k < i ==> #[trigger] data@[k] != 0,
        decreases n - i,
    {
        i = i + 1;
    }
    proof {
        lemma_first_nul(data@, i as int);
    }
    i
}

/// The text that `data` holds and what reading it gives: see `text_of`. A
/// text that was read whole is shorter than `data`.
pub fn StringFromBytes(data: &[u8]) -> (r: (String, Result<(), Error>))
    ensures
        (r.0@, r.1) == text_of(data@),
        0 <= first_nul(data@) <= data@.len(),
        r.1.is_ok() ==> encode_utf8(r.0@) == data@.take(first_nul(data@)) && first_nul(data@)
            < data@.len(),
{
    reveal(text_of);
    let i = FirstNul(data);
    let part = vstd::slice::slice_subrange(data, 0, i);
    assert(part@ =~= data@.take(i as int));
    match utf8_text(part) {
        None => (String::new(), Err(Error::SysError(SysErr::EILSEQ))),
        Some(s) => {
            proof {
                decode_utf8_encode_utf8(part@);
            }
            if i < data.len() {
                (s, Ok(()))
            } else {
                (s, Err(Error::SysError(SysErr::ENAMETOOLONG)))
            }
        },
    }
}

/// A string with the NUL byte that ends it.
pub struct CString {
    pub data: Vec<u8>,
}

impl CString {
    /// The bytes of `s` and a NUL byte.
    pub fn New(s: &str) -> (r: Self)
        ensures
            r.data@ == encode_utf8(s@).push(0u8),
    {
        let b = s.as_bytes();
        let n = b.len();
        let mut data: Vec<u8> = Vec::new();
        let mut i: usize = 0;
        while i < n
            invariant
                n == b@.len(),
                i <= n,
                data@ == b@.take(i as int),
            decreases n - i,
        {
            data.push(b[i]);
            assert(b@.take(i + 1) =~= b@.take(i as int).push(b@[i as int]));
            i = i + 1;
        }
        assert(b@.take(n as int) =~= b@);
        data.push(0u8);
        CString { data }
    }

    pub fn Slice(&self) -> (r: &[u8])
        ensures
            r@ == self.data@,
    {
        self.data.as_slice()
    }

    pub fn Len(&self) -> (r: usize)
        ensures
            r == self.data@.len(),
    {
        self.data.len()
    }
}

} // verus!
