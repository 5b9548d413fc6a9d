//! Alignment arithmetic shared by the frame manager and the heap layout.

use vstd::prelude::*;

verus! {

/// Size in bytes of a machine pointer; reference-typed stack slots and the
/// special nil type occupy exactly this many bytes.
pub const PTR_WIDTH: i32 = 8;

/// Size in bytes of a virtual-memory page; every heap region boundary lies
/// on a multiple of this.
pub const PAGE_SIZE: usize = 4096;

/// `value` rounded up to the next multiple of `alignment`.
pub open spec fn align_up(value: int, alignment: int) -> int
    recommends
        alignment > 0,
{
    if value % alignment == 0 {
        value
    } else {
        value + alignment - value % alignment
    }
}

pub proof fn lemma_align_up_properties(value: int, alignment: int)
    requires
        alignment > 0,
        value >= 0,
    ensures
        align_up(value, alignment) % alignment == 0,
        value <= align_up(value, alignment) < value + alignment,
{
    let r = value % alignment;
    vstd::arithmetic::div_mod::lemma_mod_division_less_than_divisor(value, alignment);
    if r != 0 {
        let q = value / alignment;
        vstd::arithmetic::div_mod::lemma_fundamental_div_mod(value, alignment);
        assert(value + (alignment - r) == alignment * (q + 1)) by {
            vstd::arithmetic::mul::lemma_mul_is_distributive_add(alignment, q, 1);
        }
        vstd::arithmetic::div_mod::lemma_mod_multiples_basic(q + 1, alignment);
    }
}

/// Round a non-negative byte count up to the next multiple of `alignment`.
pub fn align_i32(value: i32, alignment: i32) -> (r: i32)
    requires
        value >= 0,
        alignment > 0,
        align_up(value as int, alignment as int) <= i32::MAX,
    ensures
        r == align_up(value as int, alignment as int),
        r >= value,
        r % alignment == 0,
{
    proof {
        lemma_align_up_properties(value as int, alignment as int);
    }
    let rem = value % alignment;
    if rem == 0 {
        value
    } else {
        value + (alignment - rem)
    }
}

/// Round a size or address up to the next page boundary.
pub fn page_align(value: usize) -> (r: usize)
    requires
        align_up(value as int, PAGE_SIZE as int) <= usize::MAX,
    ensures
        r == align_up(value as int, PAGE_SIZE as int),
        r >= value,
        r % 4096 == 0,
{
    proof {
        lemma_align_up_properties(value as int, PAGE_SIZE as int);
    }
    let rem = value % PAGE_SIZE;
    if rem == 0 {
        value
    } else {
        value + (PAGE_SIZE - rem)
    }
}

/// Size in bytes of a machine pointer, as the frame manager consumes it.
pub fn ptr_width() -> (r: i32)
    ensures
        r == PTR_WIDTH,
{
    PTR_WIDTH
}

} // verus!
