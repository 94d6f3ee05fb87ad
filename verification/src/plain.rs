//! Plain values: values that guest memory can hold, as the bytes that
//! stand for them.
use vstd::prelude::*;
use vstd::bytes::{
    lemma_auto_spec_u16_to_from_le_bytes, lemma_auto_spec_u32_to_from_le_bytes,
    lemma_auto_spec_u64_to_from_le_bytes, spec_u16_from_le_bytes, spec_u16_to_le_bytes,
    spec_u32_from_le_bytes, spec_u32_to_le_bytes, spec_u64_from_le_bytes, spec_u64_to_le_bytes,
    u16_from_le_bytes, u16_to_le_bytes, u32_from_le_bytes, u32_to_le_bytes, u64_from_le_bytes,
    u64_to_le_bytes,
};
use vstd::slice::slice_subrange;
use crate::linux_def::IoVec;

verus! {

/// A value without references that is stored as a fixed number of bytes.
pub trait Plain: Sized + Copy {
    /// Number of bytes of a value.
    spec fn size() -> nat;

    /// The bytes that stand for the value.
    spec fn encode(self) -> Seq<u8>;

    /// The value that the bytes stand for.
    spec fn decode(b: Seq<u8>) -> Self;

    /// A value has `size` bytes, at least one and at most a page, and is
    /// what its bytes stand for.
    proof fn lemma_plain(x: Self)
        ensures
            x.encode().len() == Self::size(),
            Self::decode(x.encode()) == x,
            0 < Self::size() <= 4096,
    ;

    fn Size() -> (n: usize)
        ensures
            n == Self::size(),
    ;

    /// Appends the bytes of the value to `out`.
    fn ToBytes(&self, out: &mut Vec<u8>)
        ensures
            final(out)@ == old(out)@ + self.encode(),
    ;

    /// The value that the `size` bytes of `b` from `at` on stand for.
    fn FromBytes(b: &[u8], at: usize) -> (x: Self)
        requires
            at + Self::size() <= b@.len(),
        ensures
            x == Self::decode(b@.subrange(at as int, at + Self::size())),
    ;

    /// Whether the two values are the same.
    fn Same(&self, other: &Self) -> (r: bool)
        ensures
            r == (*self == *other),
    ;
}

impl Plain for u8 {
    open spec fn size() -> nat {
        1
    }

    open spec fn encode(self) -> Seq<u8> {
        seq![self]
    }

    open spec fn decode(b: Seq<u8>) -> u8 {
        b[0]
    }

    proof fn lemma_plain(x: u8) {
    }

    fn Size() -> (n: usize) {
        1
    }

    fn ToBytes(&self, out: &mut Vec<u8>) {
        out.push(*self);
        assert(out@ =~= old(out)@ + seq![*self]);
    }

    fn FromBytes(b: &[u8], at: usize) -> (x: u8) {
        b[at]
    }

    fn Same(&self, other: &u8) -> (r: bool) {
        *self == *other
    }
}

impl Plain for u16 {
    open spec fn size() -> nat {
        2
    }

    open spec fn encode(self) -> Seq<u8> {
        spec_u16_to_le_bytes(self)
    }

    open spec fn decode(b: Seq<u8>) -> u16 {
        spec_u16_from_le_bytes(b)
    }

    proof fn lemma_plain(x: u16) {
        lemma_auto_spec_u16_to_from_le_bytes();
    }

    fn Size() -> (n: usize) {
        2
    }

    fn ToBytes(&self, out: &mut Vec<u8>) {
        let mut b = u16_to_le_bytes(*self);
        out.append(&mut b);
    }

    fn FromBytes(b: &[u8], at: usize) -> (x: u16) {
        let n = b.len();
        assert(at + 2 <= n);
        u16_from_le_bytes(slice_subrange(b, at, at + 2))
    }

    fn Same(&self, other: &u16) -> (r: bool) {
        *self == *other
    }
}

impl Plain for u32 {
    open spec fn size() -> nat {
        4
    }

    open spec fn encode(self) -> Seq<u8> {
        spec_u32_to_le_bytes(self)
    }

    open spec fn decode(b: Seq<u8>) -> u32 {
        spec_u32_from_le_bytes(b)
    }

    proof fn lemma_plain(x: u32) {
        lemma_auto_spec_u32_to_from_le_bytes();
    }

    fn Size() -> (n: usize) {
        4
    }

    fn ToBytes(&self, out: &mut Vec<u8>) {
        let mut b = u32_to_le_bytes(*self);
        out.append(&mut b);
    }

    fn FromBytes(b: &[u8], at: usize) -> (x: u32) {
        let n = b.len();
        assert(at + 4 <= n);
        u32_from_le_bytes(slice_subrange(b, at, at + 4))
    }

    fn Same(&self, other: &u32) -> (r: bool) {
        *self == *other
    }
}

impl Plain for u64 {
    open spec fn size() -> nat {
        8
    }

    open spec fn encode(self) -> Seq<u8> {
        spec_u64_to_le_bytes(self)
    }

    open spec fn decode(b: Seq<u8>) -> u64 {
        spec_u64_from_le_bytes(b)
    }

    proof fn lemma_plain(x: u64) {
        lemma_auto_spec_u64_to_from_le_bytes();
    }

    fn Size() -> (n: usize) {
        8
    }

    fn ToBytes(&self, out: &mut Vec<u8>) {
        let mut b = u64_to_le_bytes(*self);
        out.append(&mut b);
    }

    fn FromBytes(b: &[u8], at: usize) -> (x: u64) {
        let n = b.len();
        assert(at + 8 <= n);
        u64_from_le_bytes(slice_subrange(b, at, at + 8))
    }

    fn Same(&self, other: &u64) -> (r: bool) {
        *self == *other
    }
}

impl Plain for IoVec {
    open spec fn size() -> nat {
        16
    }

    open spec fn encode(self) -> Seq<u8> {
        spec_u64_to_le_bytes(self.start) + spec_u64_to_le_bytes(self.len as u64)
    }

    open spec fn decode(b: Seq<u8>) -> IoVec {
        IoVec {
            start: spec_u64_from_le_bytes(b.subrange(0, 8)),
            len: spec_u64_from_le_bytes(b.subrange(8, 16)) as usize,
        }
    }

    proof fn lemma_plain(x: IoVec) {
        lemma_auto_spec_u64_to_from_le_bytes();
        let a = spec_u64_to_le_bytes(x.start);
        let b = spec_u64_to_le_bytes(x.len as u64);
        assert((a + b).subrange(0, 8) =~= a);
        assert((a + b).subrange(8, 16) =~= b);
    }

    fn Size() -> (n: usize) {
        16
    }

    fn ToBytes(&self, out: &mut Vec<u8>) {
        let mut a = u64_to_le_bytes(self.start);
        let mut b = u64_to_le_bytes(self.len as u64);
        out.append(&mut a);
        out.append(&mut b);
        assert(out@ =~= old(out)@ + self.encode());
    }

    fn FromBytes(b: &[u8], at: usize) -> (x: IoVec) {
        let n = b.len();
        assert(at + 16 <= n);
        let start = u64_from_le_bytes(slice_subrange(b, at, at + 8));
        let len = u64_from_le_bytes(slice_subrange(b, at + 8, at + 16));
        proof {
            let whole = b@.subrange(at as int, at + 16);
            assert(whole.subrange(0, 8) =~= b@.subrange(at as int, at + 8));
            assert(whole.subrange(8, 16) =~= b@.subrange(at + 8, at + 16));
        }
        IoVec { start, len: #[verifier::truncate] (len as usize) }
    }

    fn Same(&self, other: &IoVec) -> (r: bool) {
        self.start == other.start && self.len == other.len
    }
}

/// The bytes that stand for the values `xs`, one value after the other.
pub open spec fn encode_all<T: Plain>(xs: Seq<T>) -> Seq<u8>
    decreases xs.len(),
{
    if xs.len() == 0 {
        Seq::<u8>::empty()
    } else {
        encode_all(xs.drop_last()) + xs.last().encode()
    }
}

/// The `n` values that the bytes `b` stand for, one value after the
/// other.
pub open spec fn decode_all<T: Plain>(b: Seq<u8>, n: nat) -> Seq<T> {
    Seq::new(n, |i: int| T::decode(b.subrange(i * T::size(), (i + 1) * T::size())))
}

} // verus!
