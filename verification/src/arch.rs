//! Address arithmetic delegated to the architecture support crate.
//!
//! The formulas are fixed by the x86-64 paging scheme: a virtual address
//! carries one 9-bit table index per level, and alignment is always to a
//! power of two. Each helper states the exact value it returns.

use vstd::prelude::*;

verus! {

/// `x` is a power of two that fits in 64 bits.
pub open spec fn is_pow2_u64(x: u64) -> bool {
    exists|n: nat| n <= 63 && x as nat == vstd::arithmetic::power2::pow2(n)
}

/// The smallest multiple of `align` that is not below `addr`.
pub open spec fn spec_align_up(addr: int, align: int) -> int
    recommends
        align > 0,
{
    if addr % align == 0 {
        addr
    } else {
        addr + (align - addr % align)
    }
}

/// Relies on x86_64::align_up: returns the smallest address of the given
/// power-of-two alignment that is not below `addr`; it panics on overflow,
/// which the precondition rules out.
#[verifier::external_body]
pub fn align_up_u64(addr: u64, align: u64) -> (r: u64)
    requires
        is_pow2_u64(align),
        spec_align_up(addr as int, align as int) <= u64::MAX,
    ensures
        r == spec_align_up(addr as int, align as int),
{
    x86_64::align_up(addr, align)
}

/// Index into the level-4 table: bits 39 to 47 of the address.
pub open spec fn spec_l4_index(va: u64) -> int {
    ((va >> 39) & 0x1ff) as int
}

/// Index into the level-3 table: bits 30 to 38 of the address.
pub open spec fn spec_l3_index(va: u64) -> int {
    ((va >> 30) & 0x1ff) as int
}

/// Index into the level-2 table: bits 21 to 29 of the address.
pub open spec fn spec_l2_index(va: u64) -> int {
    ((va >> 21) & 0x1ff) as int
}

/// Index into the level-1 table: bits 12 to 20 of the address.
pub open spec fn spec_l1_index(va: u64) -> int {
    ((va >> 12) & 0x1ff) as int
}

/// Relies on x86_64::VirtAddr::p4_index (on an address made canonical by
/// VirtAddr::new): the 9 address bits starting at bit 39.
#[verifier::external_body]
pub fn l4_index_of(va: u64) -> (r: usize)
    requires
        va < 0x8000_0000_0000,
    ensures
        r == spec_l4_index(va),
{
    usize::from(x86_64::VirtAddr::new(va).p4_index())
}

/// Relies on x86_64::VirtAddr::p3_index: the 9 address bits starting at bit
/// 30.
#[verifier::external_body]
pub fn l3_index_of(va: u64) -> (r: usize)
    requires
        va < 0x8000_0000_0000,
    ensures
        r == spec_l3_index(va),
{
    usize::from(x86_64::VirtAddr::new(va).p3_index())
}

/// Relies on x86_64::VirtAddr::p2_index: the 9 address bits starting at bit
/// 21.
#[verifier::external_body]
pub fn l2_index_of(va: u64) -> (r: usize)
    requires
        va < 0x8000_0000_0000,
    ensures
        r == spec_l2_index(va),
{
    usize::from(x86_64::VirtAddr::new(va).p2_index())
}

/// Relies on x86_64::VirtAddr::p1_index: the 9 address bits starting at bit
/// 12.
#[verifier::external_body]
pub fn l1_index_of(va: u64) -> (r: usize)
    requires
        va < 0x8000_0000_0000,
    ensures
        r == spec_l1_index(va),
{
    usize::from(x86_64::VirtAddr::new(va).p1_index())
}

/// Each level index is a valid table slot.
pub proof fn lemma_index_bounds(va: u64)
    ensures
        0 <= spec_l4_index(va) < 512,
        0 <= spec_l3_index(va) < 512,
        0 <= spec_l2_index(va) < 512,
        0 <= spec_l1_index(va) < 512,
{
    assert(((va >> 39) & 0x1ff) < 512) by (bit_vector);
    assert(((va >> 30) & 0x1ff) < 512) by (bit_vector);
    assert(((va >> 21) & 0x1ff) < 512) by (bit_vector);
    assert(((va >> 12) & 0x1ff) < 512) by (bit_vector);
}

/// Two page-aligned addresses below the canonical boundary with the same
/// four table indices are the same address.
pub proof fn lemma_indices_determine_page(va1: u64, va2: u64)
    requires
        va1 % 4096 == 0,
        va2 % 4096 == 0,
        va1 < 0x8000_0000_0000,
        va2 < 0x8000_0000_0000,
        spec_l4_index(va1) == spec_l4_index(va2),
        spec_l3_index(va1) == spec_l3_index(va2),
        spec_l2_index(va1) == spec_l2_index(va2),
        spec_l1_index(va1) == spec_l1_index(va2),
    ensures
        va1 == va2,
{
    assert(va1 % 4096 == 0 && va2 % 4096 == 0 && va1 < 0x8000_0000_0000 && va2
        < 0x8000_0000_0000 && ((va1 >> 39) & 0x1ff) == ((va2 >> 39) & 0x1ff) && ((va1 >> 30)
        & 0x1ff) == ((va2 >> 30) & 0x1ff) && ((va1 >> 21) & 0x1ff) == ((va2 >> 21) & 0x1ff) && ((
    va1 >> 12) & 0x1ff) == ((va2 >> 12) & 0x1ff) ==> va1 == va2) by (bit_vector);
}

} // verus!
