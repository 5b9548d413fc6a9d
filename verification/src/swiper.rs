//! Geometry of the two-generation heap and its write-barrier metadata.
//!
//! A contiguous reservation is split into young space, old space, a card
//! table and a crossing map, all on page boundaries. The card-table offset
//! is chosen so that the write barrier can find the card byte for any heap
//! address with one shift and one add: the card for address `a` lives at
//! `(a >> CARD_SIZE_BITS) + card_table_offset`, and that address always
//! lands inside the card table.

use vstd::prelude::*;

use crate::mem::{align_up, lemma_align_up_properties, page_align, PAGE_SIZE};

verus! {

/// The young generation receives one part in `YOUNG_RATIO` of the heap.
pub const YOUNG_RATIO: usize = 5;

/// Bytes of heap covered by one card-table byte.
pub const CARD_SIZE: usize = 512;

/// `CARD_SIZE` as a shift amount.
pub const CARD_SIZE_BITS: usize = 9;

/// Number of minor collections an object survives in the young generation
/// before it is promoted.
pub const PROMOTION_AGE: u32 = 4;

/// An immutable address range `[start, end)`.
#[derive(Copy, Clone, PartialEq, Eq, Structural, Debug)]
pub struct Region {
    pub start: usize,
    pub end: usize,
}

impl Region {
    /// Byte size of the range.
    pub open spec fn spec_size(self) -> int {
        self.end - self.start
    }

    /// The range is ordered.
    pub open spec fn wf(self) -> bool {
        self.start <= self.end
    }

    pub fn new(start: usize, end: usize) -> (r: Region)
        requires
            start <= end,
        ensures
            r == (Region { start, end }),
    {
        Region { start, end }
    }

    /// The address lies inside the range.
    pub fn includes(&self, addr: usize) -> (r: bool)
        ensures
            r == (self.start <= addr < self.end),
    {
        self.start <= addr && addr < self.end
    }

    pub fn size(&self) -> (r: usize)
        requires
            self.wf(),
        ensures
            r == self.spec_size(),
    {
        self.end - self.start
    }
}

/// Rounding up to a multiple never passes the next multiple already at or
/// beyond the value.
proof fn lemma_align_up_le_multiple(v: int, a: int, m: int)
    requires
        a > 0,
        0 <= v <= m,
        m % a == 0,
    ensures
        align_up(v, a) <= m,
{
    lemma_align_up_properties(v, a);
    if align_up(v, a) > m {
        let u = align_up(v, a);
        assert(u % a == 0 && v <= u < v + a);
        assert(m < u);
        assert((u - m) % a == 0) by {
            vstd::arithmetic::div_mod::lemma_sub_mod_noop(u, m, a);
            vstd::arithmetic::div_mod::lemma_mod_self_0(a);
        }
        assert(0 < u - m < a);
        vstd::arithmetic::div_mod::lemma_small_mod((u - m) as nat, a as nat);
        assert(false);
    }
}

/// A multiple of the page size is a multiple of the card size.
proof fn lemma_page_multiple_is_card_multiple(v: int)
    requires
        v % (PAGE_SIZE as int) == 0,
        v >= 0,
    ensures
        v % (CARD_SIZE as int) == 0,
{
    let q = v / (PAGE_SIZE as int);
    vstd::arithmetic::div_mod::lemma_fundamental_div_mod(v, PAGE_SIZE as int);
    assert(v == (8 * q) * (CARD_SIZE as int)) by {
        vstd::arithmetic::mul::lemma_mul_is_associative(8, q, CARD_SIZE as int);
        vstd::arithmetic::mul::lemma_mul_is_commutative(PAGE_SIZE as int, q);
    }
    vstd::arithmetic::div_mod::lemma_mod_multiples_basic(8 * q, CARD_SIZE as int);
}

/// What the allocation driver does next after one bump attempt in young
/// space: use the address, run a minor collection and retry once, or fall
/// back to the caller.
#[derive(Copy, Clone, PartialEq, Eq, Structural, Debug)]
pub enum AllocStep {
    Use(usize),
    CollectAndRetry,
    GiveUp,
}

/// Size facts for carving a page-multiple heap of `h` bytes: the young
/// share, the card table and the crossing map each fit within `h` after
/// page rounding, and the card table covers every heap byte.
proof fn lemma_layout_bounds(h: int)
    requires
        0 < h,
        h % (PAGE_SIZE as int) == 0,
    ensures
        0 <= h / (YOUNG_RATIO as int) <= h,
        align_up(h / (YOUNG_RATIO as int), PAGE_SIZE as int) <= h,
        align_up(h / (YOUNG_RATIO as int), PAGE_SIZE as int) % (PAGE_SIZE as int) == 0,
        0 <= align_up(h / (YOUNG_RATIO as int), PAGE_SIZE as int),
        0 <= h / (CARD_SIZE as int) <= h,
        align_up(h / (CARD_SIZE as int), PAGE_SIZE as int) <= h,
        0 <= align_up(h / (CARD_SIZE as int), PAGE_SIZE as int),
        align_up(h / (CARD_SIZE as int), PAGE_SIZE as int) * (CARD_SIZE as int) >= h,
        forall|d: int|
            0 <= d <= h ==> 0 <= #[trigger] align_up(d / (CARD_SIZE as int), PAGE_SIZE as int)
                <= h,
{
    vstd::arithmetic::div_mod::lemma_div_pos_is_pos(h, YOUNG_RATIO as int);
    vstd::arithmetic::div_mod::lemma_div_is_ordered_by_denominator(h, 1, YOUNG_RATIO as int);
    vstd::arithmetic::div_mod::lemma_div_by_self(1);
    lemma_align_up_le_multiple(h / (YOUNG_RATIO as int), PAGE_SIZE as int, h);
    lemma_align_up_properties(h / (YOUNG_RATIO as int), PAGE_SIZE as int);
    vstd::arithmetic::div_mod::lemma_div_pos_is_pos(h, CARD_SIZE as int);
    vstd::arithmetic::div_mod::lemma_div_is_ordered_by_denominator(h, 1, CARD_SIZE as int);
    lemma_align_up_le_multiple(h / (CARD_SIZE as int), PAGE_SIZE as int, h);
    lemma_align_up_properties(h / (CARD_SIZE as int), PAGE_SIZE as int);
    let cs = align_up(h / (CARD_SIZE as int), PAGE_SIZE as int);
    assert(cs * (CARD_SIZE as int) >= h) by {
        vstd::arithmetic::div_mod::lemma_fundamental_div_mod(h, CARD_SIZE as int);
        vstd::arithmetic::div_mod::lemma_mod_division_less_than_divisor(h, CARD_SIZE as int);
        vstd::arithmetic::mul::lemma_mul_inequality(h / (CARD_SIZE as int), cs, CARD_SIZE as int);
        vstd::arithmetic::mul::lemma_mul_is_commutative(h / (CARD_SIZE as int), CARD_SIZE as int);
    }
    assert forall|d: int| 0 <= d <= h
        implies 0 <= #[trigger] align_up(d / (CARD_SIZE as int), PAGE_SIZE as int) <= h by {
        vstd::arithmetic::div_mod::lemma_div_pos_is_pos(d, CARD_SIZE as int);
        vstd::arithmetic::div_mod::lemma_div_is_ordered(d, h, CARD_SIZE as int);
        lemma_align_up_le_multiple(d / (CARD_SIZE as int), PAGE_SIZE as int, h);
        lemma_align_up_properties(d / (CARD_SIZE as int), PAGE_SIZE as int);
    }
}

/// The two-generation heap: its regions, the precomputed card-table offset
/// for the write barrier, and the young generation's bump pointer.
pub struct Swiper {
    pub heap: Region,
    pub young: Region,
    pub old_gen: Region,
    pub card_table: Region,
    pub crossing_map: Region,
    pub card_table_offset: usize,
    pub young_top: usize,
}

impl Swiper {
    /// Current fill pointer of the young generation.
    pub open spec fn spec_young_top(self) -> int {
        self.young_top as int
    }

    /// The geometry invariant: the heap splits exactly into young and old
    /// space on page boundaries, the card table and crossing map follow it
    /// contiguously, the card table covers the whole heap, and the offset
    /// satisfies `card_table_offset == card_table.start - (heap.start >>
    /// CARD_SIZE_BITS)`.
    pub open spec fn wf(self) -> bool {
        &&& self.heap.wf() && self.young.wf() && self.old_gen.wf()
        &&& self.card_table.wf() && self.crossing_map.wf()
        &&& self.heap.start < self.heap.end
        &&& self.heap.start as int % (PAGE_SIZE as int) == 0
        &&& self.heap.spec_size() % (PAGE_SIZE as int) == 0
        &&& self.young.start == self.heap.start
        &&& self.young.end == self.old_gen.start
        &&& self.old_gen.end == self.heap.end
        &&& self.young.end as int % (PAGE_SIZE as int) == 0
        &&& self.card_table.start == self.heap.end
        &&& self.crossing_map.start == self.card_table.end
        &&& self.card_table.spec_size() * (CARD_SIZE as int) >= self.heap.spec_size()
        &&& self.card_table_offset
            == self.card_table.start - self.heap.start as int / (CARD_SIZE as int)
        &&& self.young.start <= self.spec_young_top() <= self.young.end
    }

    /// Page-aligned sizes of the four regions: whole heap, young space,
    /// card table and crossing map.
    #[verifier::rlimit(100)]
    #[verifier::spinoff_prover]
    fn layout_sizes(heap_size: usize) -> (r: (usize, usize, usize, usize))
        requires
            0 < heap_size,
            3 * align_up(heap_size as int, PAGE_SIZE as int) <= usize::MAX,
        ensures
            r.0 == align_up(heap_size as int, PAGE_SIZE as int),
            r.1 == align_up(r.0 as int / (YOUNG_RATIO as int), PAGE_SIZE as int),
            r.2 == align_up(r.0 as int / (CARD_SIZE as int), PAGE_SIZE as int),
            r.3 == align_up((r.0 - r.1) as int / (CARD_SIZE as int), PAGE_SIZE as int),
            0 < r.0 && r.1 <= r.0 && r.2 <= r.0 && r.3 <= r.0,
            r.0 as int % (PAGE_SIZE as int) == 0,
            r.1 as int % (PAGE_SIZE as int) == 0,
            r.2 as int * (CARD_SIZE as int) >= r.0 as int,
    {
        proof {
            lemma_align_up_properties(heap_size as int, PAGE_SIZE as int);
        }
        // round the heap itself up to whole pages
        let heap_size = page_align(heap_size);
        proof {
            lemma_layout_bounds(heap_size as int);
        }

        // one part in YOUNG_RATIO goes to the young generation
        let young_size = page_align(heap_size / YOUNG_RATIO);
        let old_size = heap_size - young_size;

        // card table: one byte for each CARD_SIZE bytes of heap
        let card_size = page_align(heap_size / CARD_SIZE);

        // crossing map: one entry per card of the old generation
        let crossing_size = page_align(old_size / CARD_SIZE);

        (heap_size, young_size, card_size, crossing_size)
    }

    /// Carve the geometry out of a page-aligned reservation at `base`. The
    /// caller reserves `reserve_size(heap_size)` bytes of contiguous
    /// virtual memory and hands in where they start.
    #[verifier::rlimit(100)]
    #[verifier::spinoff_prover]
    pub fn new(heap_size: usize, base: usize) -> (r: Swiper)
        requires
            0 < heap_size,
            base as int % (PAGE_SIZE as int) == 0,
            base + 3 * align_up(heap_size as int, PAGE_SIZE as int) <= usize::MAX,
        ensures
            r.wf(),
            r.heap.start == base,
            r.heap.spec_size() == align_up(heap_size as int, PAGE_SIZE as int),
            r.young.spec_size() == align_up(
                align_up(heap_size as int, PAGE_SIZE as int) / (YOUNG_RATIO as int),
                PAGE_SIZE as int,
            ),
            r.card_table.spec_size() == align_up(
                align_up(heap_size as int, PAGE_SIZE as int) / (CARD_SIZE as int),
                PAGE_SIZE as int,
            ),
            r.crossing_map.spec_size() == align_up(
                r.old_gen.spec_size() / (CARD_SIZE as int),
                PAGE_SIZE as int,
            ),
            r.spec_young_top() == r.young.start,
    {
        let (heap_size, young_size, card_size, crossing_size) = Self::layout_sizes(heap_size);

        let heap_start = base;
        let heap_end = base + heap_size;

        // card table begins right past the heap; the offset makes the
        // barrier's shift-and-add land on its bytes
        let card_start = heap_end;
        let card_end = card_start + card_size;
        proof {
            vstd::bits::lemma_usize_shr_is_div(heap_start, CARD_SIZE_BITS as usize);
            vstd::arithmetic::power2::lemma2_to64();
            assert(heap_start as nat / vstd::arithmetic::power2::pow2(9)
                == heap_start as int / (CARD_SIZE as int));
            vstd::arithmetic::div_mod::lemma_div_is_ordered_by_denominator(
                heap_start as int, 1, CARD_SIZE as int);
            vstd::arithmetic::div_mod::lemma_div_by_self(1);
            vstd::arithmetic::div_mod::lemma_div_pos_is_pos(heap_start as int, CARD_SIZE as int);
        }
        let card_table_offset = heap_end - (heap_start >> CARD_SIZE_BITS);

        let crossing_start = card_end;
        let crossing_end = crossing_start + crossing_size;

        let young_start = heap_start;
        let young_end = heap_start + young_size;

        let old_start = young_end;
        let old_end = heap_end;

        Swiper {
            heap: Region { start: heap_start, end: heap_end },
            young: Region { start: young_start, end: young_end },
            old_gen: Region { start: old_start, end: old_end },
            card_table: Region { start: card_start, end: card_end },
            crossing_map: Region { start: crossing_start, end: crossing_end },
            card_table_offset,
            young_top: young_start,
        }
    }

    /// Bytes of contiguous virtual memory a reservation for `heap_size`
    /// bytes of heap needs: the heap itself, then the card table, then the
    /// crossing map, exactly as `new` lays them out.
    pub fn reserve_size(heap_size: usize) -> (r: usize)
        requires
            0 < heap_size,
            3 * align_up(heap_size as int, PAGE_SIZE as int) <= usize::MAX,
        ensures
            ({
                let h = align_up(heap_size as int, PAGE_SIZE as int);
                r == h + align_up(h / (CARD_SIZE as int), PAGE_SIZE as int)
                    + align_up(
                        (h - align_up(h / (YOUNG_RATIO as int), PAGE_SIZE as int))
                            / (CARD_SIZE as int),
                        PAGE_SIZE as int,
                    )
            }),
            r <= 3 * align_up(heap_size as int, PAGE_SIZE as int),
    {
        let (heap_size, young_size, card_size, crossing_size) = Self::layout_sizes(heap_size);
        heap_size + card_size + crossing_size
    }

    /// Every store of a reference is followed by a card mark, whatever the
    /// generation written to.
    pub fn needs_write_barrier(&self) -> (r: bool)
        ensures
            r == true,
    {
        true
    }

    /// The constant the code generator bakes into the write barrier.
    pub fn card_table_offset(&self) -> (r: usize)
        ensures
            r == self.card_table_offset,
    {
        self.card_table_offset
    }

    /// Address of the card byte covering `addr`: the write barrier's
    /// shift-and-add. The result always lies inside the card table.
    pub fn card_byte_address(&self, addr: usize) -> (r: usize)
        requires
            self.wf(),
            self.heap.start <= addr < self.heap.end,
        ensures
            r == addr as int / (CARD_SIZE as int) + self.card_table_offset,
            self.card_table.start <= r < self.card_table.end,
    {
        proof {
            vstd::bits::lemma_usize_shr_is_div(addr, CARD_SIZE_BITS as usize);
            vstd::arithmetic::power2::lemma2_to64();
            lemma_card_for_heap_address(*self, addr as int);
        }
        (addr >> CARD_SIZE_BITS) + self.card_table_offset
    }

    /// Bump-allocate `size` bytes in the young generation; the caller asks
    /// for a minor collection and retries when nothing is returned.
    pub fn alloc_obj(&mut self, size: usize) -> (r: Option<usize>)
        requires
            old(self).wf(),
            0 < size,
        ensures
            final(self).wf(),
            final(self).heap == old(self).heap,
            final(self).young == old(self).young,
            final(self).old_gen == old(self).old_gen,
            final(self).card_table == old(self).card_table,
            final(self).crossing_map == old(self).crossing_map,
            final(self).card_table_offset == old(self).card_table_offset,
            r matches Some(p) ==> {
                &&& p == old(self).spec_young_top()
                &&& old(self).young.start <= p
                &&& p + size <= old(self).young.end
                &&& final(self).spec_young_top() == p + size
            },
            r is None ==> {
                &&& old(self).spec_young_top() + size > old(self).young.end
                &&& final(self).spec_young_top() == old(self).spec_young_top()
            },
    {
        if size <= self.young.end - self.young_top {
            let p = self.young_top;
            self.young_top = self.young_top + size;
            Some(p)
        } else {
            None
        }
    }

    /// Decide the next step of an object allocation from the outcome of a
    /// bump attempt: hand the address out, ask the runtime for one minor
    /// collection and a retry, or give up so the caller allocates in old
    /// space or aborts. At most one collection is ever requested per
    /// allocation.
    pub fn alloc_obj_step(attempt: Option<usize>, collected: bool) -> (r: AllocStep)
        ensures
            attempt matches Some(p) ==> r == AllocStep::Use(p),
            attempt is None && !collected ==> r == AllocStep::CollectAndRetry,
            attempt is None && collected ==> r == AllocStep::GiveUp,
    {
        match attempt {
            Option::Some(p) => AllocStep::Use(p),
            Option::None => {
                if collected {
                    AllocStep::GiveUp
                } else {
                    AllocStep::CollectAndRetry
                }
            },
        }
    }

    /// Reset the young generation's bump pointer to its start, as a minor
    /// collection does after evacuating the survivors.
    pub fn reset_young(&mut self)
        requires
            old(self).wf(),
        ensures
            final(self).wf(),
            final(self).heap == old(self).heap,
            final(self).young == old(self).young,
            final(self).old_gen == old(self).old_gen,
            final(self).card_table == old(self).card_table,
            final(self).crossing_map == old(self).crossing_map,
            final(self).card_table_offset == old(self).card_table_offset,
            final(self).spec_young_top() == final(self).young.start,
    {
        self.young_top = self.young.start;
    }
}

/// Law: for every heap address `a`, the write barrier's card address
/// `(a >> CARD_SIZE_BITS) + card_table_offset` lies inside the card table.
pub proof fn lemma_card_for_heap_address(s: Swiper, a: int)
    requires
        s.wf(),
        s.heap.start <= a < s.heap.end,
    ensures
        s.card_table.start <= a / (CARD_SIZE as int) + s.card_table_offset < s.card_table.end,
{
    let c = CARD_SIZE as int;
    let base = s.heap.start as int;
    let d = a - base;
    let h = s.heap.spec_size();
    lemma_page_multiple_is_card_multiple(base);
    lemma_page_multiple_is_card_multiple(h);
    let q = base / c;
    vstd::arithmetic::div_mod::lemma_fundamental_div_mod(base, c);
    assert(base == c * q + base % c);
    assert(base == q * c) by {
        vstd::arithmetic::mul::lemma_mul_is_commutative(c, q);
    }
    // a / c splits into the heap-start cards and the cards inside the heap
    assert(a / c == q + d / c) by {
        vstd::arithmetic::div_mod::lemma_hoist_over_denominator(d, q, c as nat);
    }
    // at most h / c - 1 whole cards fit before the end of the heap
    assert(d / c <= (h - 1) / c) by {
        vstd::arithmetic::div_mod::lemma_div_is_ordered(d, h - 1, c);
    }
    assert((h - 1) / c == h / c - 1) by {
        let m = h / c;
        vstd::arithmetic::div_mod::lemma_fundamental_div_mod(h, c);
        assert(h == m * c) by {
            vstd::arithmetic::mul::lemma_mul_is_commutative(c, m);
        }
        assert((c * (m - 1) + (c - 1)) / c == m - 1) by {
            vstd::arithmetic::div_mod::lemma_div_multiples_vanish_fancy(m - 1, c - 1, c);
        }
        assert(c * (m - 1) + (c - 1) == h - 1) by {
            vstd::arithmetic::mul::lemma_mul_is_distributive_sub(c, m, 1);
            vstd::arithmetic::mul::lemma_mul_is_commutative(c, m);
        }
    }
    // the card table holds at least h / c bytes
    assert(h / c <= s.card_table.spec_size()) by {
        let m = h / c;
        vstd::arithmetic::div_mod::lemma_fundamental_div_mod(h, c);
        assert(h == m * c) by {
            vstd::arithmetic::mul::lemma_mul_is_commutative(c, m);
        }
        if m > s.card_table.spec_size() {
            vstd::arithmetic::mul::lemma_mul_inequality(s.card_table.spec_size() + 1, m, c);
            assert(false);
        }
    }
    assert(d / c >= 0) by {
        vstd::arithmetic::div_mod::lemma_div_pos_is_pos(d, c);
    }
}

} // verus!
