//! Flags of a page-table leaf, as the `x86_64` crate defines them.
use vstd::prelude::*;
use x86_64::structures::paging::PageTableFlags;

verus! {

#[verifier::external_type_specification]
#[verifier::external_body]
pub struct ExPageTableFlags(PageTableFlags);

/// The 64-bit pattern of a set of page-table flags.
pub uninterp spec fn flag_bits(f: PageTableFlags) -> u64;

/// The bits that are page-table flags: 0 to 11 and 52 to 63.
pub open spec fn known_bits() -> u64 {
    0xfff0_0000_0000_0fffu64
}

/// `PageTableFlags::bits`: the bit pattern of the flags.
#[verifier::external_body]
fn flags_val(f: &PageTableFlags) -> (r: u64)
    ensures
        r == flag_bits(*f),
{
    f.bits()
}

/// `PageTableFlags::from_bits_truncate`: the flags among `bits`; bits that
/// are no flag are dropped.
#[verifier::external_body]
fn flags_of(bits: u64) -> (r: PageTableFlags)
    ensures
        flag_bits(r) == bits & known_bits(),
{
    PageTableFlags::from_bits_truncate(bits)
}

/// `PageTableFlags::PRESENT`: bit 0.
#[verifier::external_body]
fn flag_present() -> (r: PageTableFlags)
    ensures
        flag_bits(r) == 1,
{
    PageTableFlags::PRESENT
}

/// `PageTableFlags::WRITABLE`: bit 1.
#[verifier::external_body]
fn flag_writable() -> (r: PageTableFlags)
    ensures
        flag_bits(r) == 2,
{
    PageTableFlags::WRITABLE
}

/// `PageTableFlags::USER_ACCESSIBLE`: bit 2.
#[verifier::external_body]
fn flag_user() -> (r: PageTableFlags)
    ensures
        flag_bits(r) == 4,
{
    PageTableFlags::USER_ACCESSIBLE
}

/// `PageTableFlags::union`: the flags of either set.
#[verifier::external_body]
fn flags_union(a: &PageTableFlags, b: &PageTableFlags) -> (r: PageTableFlags)
    ensures
        flag_bits(r) == flag_bits(*a) | flag_bits(*b),
{
    a.union(*b)
}

/// `PageTableFlags::difference`: the flags of `a` that are not in `b`.
#[verifier::external_body]
fn flags_difference(a: &PageTableFlags, b: &PageTableFlags) -> (r: PageTableFlags)
    ensures
        flag_bits(r) == flag_bits(*a) & !flag_bits(*b),
{
    a.difference(*b)
}

/// `PageTableFlags::contains`: every flag of `b` is in `a`.
#[verifier::external_body]
fn flags_contains(a: &PageTableFlags, b: &PageTableFlags) -> (r: bool)
    ensures
        r == (flag_bits(*a) & flag_bits(*b) == flag_bits(*b)),
{
    a.contains(*b)
}

/// The leaf is present.
pub open spec fn pte_present(bits: u64) -> bool {
    bits & 1 != 0
}

/// The leaf allows writes.
pub open spec fn pte_writable(bits: u64) -> bool {
    bits & 2 != 0
}

/// The leaf can be reached from user mode.
pub open spec fn pte_user(bits: u64) -> bool {
    bits & 4 != 0
}

/// The bits of a present user leaf that is read-only.
pub open spec fn user_ro_bits() -> u64 {
    5
}

/// The bits of a present user leaf that can be written.
pub open spec fn user_rw_bits() -> u64 {
    7
}

/// The bit pattern of a leaf after it was write-protected.
pub open spec fn clear_write(bits: u64) -> u64 {
    bits & !2u64
}

/// The bit pattern of a leaf after writes were allowed.
pub open spec fn set_write(bits: u64) -> u64 {
    bits | 2u64
}

/// Write-protecting a leaf touches no other flag; allowing writes neither.
pub proof fn lemma_write_bit(bits: u64)
    ensures
        !pte_writable(clear_write(bits)),
        pte_user(clear_write(bits)) == pte_user(bits),
        pte_present(clear_write(bits)) == pte_present(bits),
        pte_writable(set_write(bits)),
        pte_user(set_write(bits)) == pte_user(bits),
        pte_present(set_write(bits)) == pte_present(bits),
        !pte_writable(bits) ==> clear_write(bits) == bits,
        pte_writable(bits) ==> set_write(bits) == bits,
{
    assert((bits & !2u64) & 2 == 0) by (bit_vector);
    assert(((bits & !2u64) & 4 != 0) == (bits & 4 != 0)) by (bit_vector);
    assert(((bits & !2u64) & 1 != 0) == (bits & 1 != 0)) by (bit_vector);
    assert((bits | 2u64) & 2 != 0) by (bit_vector);
    assert(((bits | 2u64) & 4 != 0) == (bits & 4 != 0)) by (bit_vector);
    assert(((bits | 2u64) & 1 != 0) == (bits & 1 != 0)) by (bit_vector);
    assert(bits & 2 == 0 ==> bits & !2u64 == bits) by (bit_vector);
    assert(bits & 2 != 0 ==> bits | 2u64 == bits) by (bit_vector);
}

/// Whether a leaf with these bits allows writes.
pub fn IsWritable(bits: u64) -> (r: bool)
    ensures
        r == pte_writable(bits),
{
    bits & flags_val(&flag_writable()) != 0
}

/// Whether a leaf with these bits can be reached from user mode.
pub fn IsUser(bits: u64) -> (r: bool)
    ensures
        r == pte_user(bits),
{
    bits & flags_val(&flag_user()) != 0
}

/// The bits of the leaf, write-protected.
pub fn ClearWritable(bits: u64) -> (r: u64)
    ensures
        r == clear_write(bits),
{
    bits & !flags_val(&flag_writable())
}

/// The bits of the leaf, with writes allowed.
pub fn SetWritable(bits: u64) -> (r: u64)
    ensures
        r == set_write(bits),
{
    bits | flags_val(&flag_writable())
}

/// Options for a mapping: the flags that its leaves get.
pub struct PageOpts(pub PageTableFlags);

impl PageOpts {
    /// The bit pattern of the options.
    pub open spec fn bits(&self) -> u64 {
        flag_bits(self.0)
    }

    /// No flag at all.
    pub fn Zero() -> (r: Self)
        ensures
            r.bits() == 0,
    {
        let f = flags_of(0);
        assert(0u64 & 0xfff0_0000_0000_0fffu64 == 0) by (bit_vector);
        PageOpts(f)
    }

    /// The options whose bit pattern is `bits` without the bits that are no
    /// flag.
    pub fn FromBits(bits: u64) -> (r: Self)
        ensures
            r.bits() == bits & known_bits(),
    {
        PageOpts(flags_of(bits))
    }

    /// Present, and reachable from user mode and writable as asked.
    pub fn New(user: bool, write: bool) -> (r: Self)
        ensures
            r.bits() == 1u64 + (if write { 2u64 } else { 0u64 }) + (if user { 4u64 } else { 0u64 }),
    {
        let mut f = flag_present();
        if write {
            f = flags_union(&f, &flag_writable());
        }
        if user {
            f = flags_union(&f, &flag_user());
        }
        assert(1u64 | 2u64 == 3) by (bit_vector);
        assert(1u64 | 4u64 == 5) by (bit_vector);
        assert(3u64 | 4u64 == 7) by (bit_vector);
        PageOpts(f)
    }

    /// A present, read-only leaf for user mode.
    pub fn UserReadOnly() -> (r: Self)
        ensures
            r.bits() == user_ro_bits(),
    {
        Self::New(true, false)
    }

    /// A present, writable leaf for user mode.
    pub fn UserReadWrite() -> (r: Self)
        ensures
            r.bits() == user_rw_bits(),
    {
        Self::New(true, true)
    }

    /// A present, writable leaf for the kernel only.
    pub fn KernelReadWrite() -> (r: Self)
        ensures
            r.bits() == 3,
    {
        Self::New(false, true)
    }

    /// The flags themselves.
    pub fn Val(&self) -> (r: PageTableFlags)
        ensures
            flag_bits(r) == self.bits(),
    {
        self.0
    }

    /// The bit pattern of the flags.
    pub fn Bits(&self) -> (r: u64)
        ensures
            r == self.bits(),
    {
        flags_val(&self.0)
    }

    pub fn Present(&self) -> (r: bool)
        ensures
            r == pte_present(self.bits()),
    {
        let r = flags_contains(&self.0, &flag_present());
        let ghost b = self.bits();
        assert((b & 1 == 1) == (b & 1 != 0)) by (bit_vector);
        r
    }

    pub fn Write(&self) -> (r: bool)
        ensures
            r == pte_writable(self.bits()),
    {
        let r = flags_contains(&self.0, &flag_writable());
        let ghost b = self.bits();
        assert((b & 2 == 2) == (b & 2 != 0)) by (bit_vector);
        r
    }

    pub fn User(&self) -> (r: bool)
        ensures
            r == pte_user(self.bits()),
    {
        let r = flags_contains(&self.0, &flag_user());
        let ghost b = self.bits();
        assert((b & 4 == 4) == (b & 4 != 0)) by (bit_vector);
        r
    }

    /// Allows writes; every other flag stays.
    pub fn SetWrite(&mut self)
        ensures
            final(self).bits() == set_write(old(self).bits()),
    {
        self.0 = flags_union(&self.0, &flag_writable());
    }

    /// Forbids writes; every other flag stays.
    pub fn ClearWrite(&mut self)
        ensures
            final(self).bits() == clear_write(old(self).bits()),
    {
        self.0 = flags_difference(&self.0, &flag_writable());
    }
}

} // verus!
