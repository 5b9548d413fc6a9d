//! Best-fit free-slot arena for the stack-frame builder.
//!
//! The arena keeps the free byte ranges of a frame in a list that is sorted
//! by start, with the ranges pairwise non-overlapping and non-adjacent: any
//! two touching ranges have been merged. `free` reinserts a range and
//! coalesces it with its neighbours; `alloc` serves a best-fit aligned
//! allocation, splitting off residual fragments.
//!
//! All coordinates are distances from the frame base, growing away from it,
//! so a slot at `start = 4, size = 8` stands for the frame bytes from
//! offset `-4` down to `-12`, the latter exclusive.

use vstd::prelude::*;

use crate::mem::{align_up, lemma_align_up_properties};

verus! {

/// A free byte range `[start, start + size)` in distance-from-frame-base
/// coordinates.
#[derive(Copy, Clone, PartialEq, Eq, Structural, Debug)]
pub struct FreeSlot {
    pub start: u32,
    pub size: u32,
}

impl FreeSlot {
    /// One-past-the-end coordinate of the range.
    pub open spec fn spec_end(self) -> int {
        self.start + self.size
    }

    /// The range is non-empty and its end fits the coordinate type.
    pub open spec fn wf(self) -> bool {
        self.size > 0 && self.start + self.size <= u32::MAX
    }

    /// The coordinate `x` lies inside the range.
    pub open spec fn spec_contains(self, x: int) -> bool {
        self.start <= x < self.spec_end()
    }

    pub fn new(start: u32, size: u32) -> (r: FreeSlot)
        ensures
            r == (FreeSlot { start, size }),
    {
        FreeSlot { start, size }
    }

    pub fn start(self) -> (r: u32)
        ensures
            r == self.start,
    {
        self.start
    }

    pub fn size(self) -> (r: u32)
        ensures
            r == self.size,
    {
        self.size
    }

    pub fn end(self) -> (r: u32)
        requires
            self.start + self.size <= u32::MAX,
        ensures
            r == self.spec_end(),
    {
        self.start + self.size
    }
}

/// The arena invariant: every slot is well formed and any earlier slot ends
/// strictly before any later slot starts, so the list is sorted,
/// non-overlapping and non-adjacent.
pub open spec fn slots_wf(s: Seq<FreeSlot>) -> bool {
    &&& forall|i: int| 0 <= i < s.len() ==> (#[trigger] s[i]).wf()
    &&& forall|i: int, j: int|
        0 <= i < j < s.len() ==> (#[trigger] s[i]).spec_end() < (#[trigger] s[j]).start
}

/// The coordinate `x` is free: some slot of the list contains it.
pub open spec fn covers(s: Seq<FreeSlot>, x: int) -> bool {
    exists|i: int| 0 <= i < s.len() && #[trigger] s[i].spec_contains(x)
}

/// Inserting a slot adds exactly its range to the coverage.
pub proof fn lemma_covers_insert(s: Seq<FreeSlot>, idx: int, v: FreeSlot)
    requires
        0 <= idx <= s.len(),
    ensures
        forall|x: int| covers(s.insert(idx, v), x) <==> covers(s, x) || v.spec_contains(x),
{
    let s2 = s.insert(idx, v);
    s.insert_ensures(idx, v);
    assert forall|x: int| covers(s2, x) implies covers(s, x) || v.spec_contains(x) by {
        let i = choose|i: int| 0 <= i < s2.len() && #[trigger] s2[i].spec_contains(x);
        if i < idx {
            assert(s[i].spec_contains(x));
        } else if i > idx {
            assert(s[i - 1].spec_contains(x));
        }
    }
    assert forall|x: int| covers(s, x) || v.spec_contains(x) implies covers(s2, x) by {
        if v.spec_contains(x) {
            assert(s2[idx].spec_contains(x));
        } else {
            let i = choose|i: int| 0 <= i < s.len() && #[trigger] s[i].spec_contains(x);
            if i < idx {
                assert(s2[i].spec_contains(x));
            } else {
                assert(s2[i + 1].spec_contains(x));
            }
        }
    }
}

/// Removing a slot takes exactly its range out of the coverage, provided no
/// other slot shares a coordinate with it.
pub proof fn lemma_covers_remove(s: Seq<FreeSlot>, idx: int)
    requires
        0 <= idx < s.len(),
        forall|j: int, x: int|
            0 <= j < s.len() && j != idx && #[trigger] s[j].spec_contains(x)
                ==> !s[idx].spec_contains(x),
    ensures
        forall|x: int|
            covers(s.remove(idx), x) <==> covers(s, x) && !s[idx].spec_contains(x),
{
    let s2 = s.remove(idx);
    s.remove_ensures(idx);
    assert forall|x: int| covers(s2, x) implies covers(s, x) && !s[idx].spec_contains(x) by {
        let i = choose|i: int| 0 <= i < s2.len() && #[trigger] s2[i].spec_contains(x);
        if i < idx {
            assert(s[i].spec_contains(x));
        } else {
            assert(s[i + 1].spec_contains(x));
        }
    }
    assert forall|x: int| covers(s, x) && !s[idx].spec_contains(x) implies covers(s2, x) by {
        let i = choose|i: int| 0 <= i < s.len() && #[trigger] s[i].spec_contains(x);
        if i < idx {
            assert(s2[i].spec_contains(x));
        } else {
            assert(s2[i - 1].spec_contains(x));
        }
    }
}

/// Replacing the slot at `idx` swaps its range for the new one in the
/// coverage, provided no other slot shares a coordinate with either.
pub proof fn lemma_covers_update(s: Seq<FreeSlot>, idx: int, v: FreeSlot)
    requires
        0 <= idx < s.len(),
        forall|j: int, x: int|
            0 <= j < s.len() && j != idx && #[trigger] s[j].spec_contains(x)
                ==> !s[idx].spec_contains(x) && !v.spec_contains(x),
    ensures
        forall|x: int|
            covers(s.update(idx, v), x)
                <==> (covers(s, x) && !s[idx].spec_contains(x)) || v.spec_contains(x),
{
    let s2 = s.update(idx, v);
    assert forall|x: int|
        covers(s2, x) implies (covers(s, x) && !s[idx].spec_contains(x)) || v.spec_contains(x) by {
        let i = choose|i: int| 0 <= i < s2.len() && #[trigger] s2[i].spec_contains(x);
        if i != idx {
            assert(s[i].spec_contains(x));
        }
    }
    assert forall|x: int|
        (covers(s, x) && !s[idx].spec_contains(x)) || v.spec_contains(x) implies covers(s2, x) by {
        if v.spec_contains(x) {
            assert(s2[idx].spec_contains(x));
        } else {
            let i = choose|i: int| 0 <= i < s.len() && #[trigger] s[i].spec_contains(x);
            assert(s2[i].spec_contains(x));
        }
    }
}

/// Appending a slot adds exactly its range to the coverage.
pub proof fn lemma_covers_push(s: Seq<FreeSlot>, v: FreeSlot)
    ensures
        forall|x: int| covers(s.push(v), x) <==> covers(s, x) || v.spec_contains(x),
{
    let s2 = s.push(v);
    assert forall|x: int| covers(s2, x) implies covers(s, x) || v.spec_contains(x) by {
        let i = choose|i: int| 0 <= i < s2.len() && #[trigger] s2[i].spec_contains(x);
        if i < s.len() {
            assert(s[i].spec_contains(x));
        }
    }
    assert forall|x: int| covers(s, x) || v.spec_contains(x) implies covers(s2, x) by {
        if v.spec_contains(x) {
            assert(s2[s.len() as int].spec_contains(x));
        } else {
            let i = choose|i: int| 0 <= i < s.len() && #[trigger] s[i].spec_contains(x);
            assert(s2[i].spec_contains(x));
        }
    }
}

/// No slot other than `s[idx]` contains a coordinate of `s[idx]`.
pub proof fn lemma_wf_slots_disjoint(s: Seq<FreeSlot>, idx: int)
    requires
        slots_wf(s),
        0 <= idx < s.len(),
    ensures
        forall|j: int, x: int|
            0 <= j < s.len() && j != idx && #[trigger] s[j].spec_contains(x)
                ==> !s[idx].spec_contains(x),
{
    assert forall|j: int, x: int|
        0 <= j < s.len() && j != idx && #[trigger] s[j].spec_contains(x)
            implies !s[idx].spec_contains(x) by {
        if j < idx {
            assert(s[j].spec_end() < s[idx].start);
        } else {
            assert(s[idx].spec_end() < s[j].start);
        }
    }
}

/// A range that shares no coordinate with the coverage lies entirely before
/// or entirely after each slot of the list.
pub proof fn lemma_range_clear_of_slot(s: Seq<FreeSlot>, i: int, n: FreeSlot)
    requires
        0 <= i < s.len(),
        n.wf(),
        s[i].wf(),
        forall|x: int| n.spec_contains(x) ==> !covers(s, x),
    ensures
        n.spec_end() <= s[i].start || s[i].spec_end() <= n.start,
{
    if n.spec_end() > s[i].start && s[i].spec_end() > n.start {
        let x: int = if n.start >= s[i].start {
            n.start as int
        } else {
            s[i].start as int
        };
        assert(n.spec_contains(x));
        assert(s[i].spec_contains(x));
        assert(false);
    }
}

/// Inserting a slot that fits strictly between its neighbours keeps the
/// list well formed.
proof fn lemma_insert_wf(gs: Seq<FreeSlot>, idx: int, new: FreeSlot)
    requires
        slots_wf(gs),
        new.wf(),
        0 <= idx <= gs.len(),
        forall|j: int| 0 <= j < idx ==> (#[trigger] gs[j]).spec_end() < new.start,
        idx < gs.len() ==> new.spec_end() < gs[idx].start,
    ensures
        slots_wf(gs.insert(idx, new)),
{
    let s2 = gs.insert(idx, new);
    gs.insert_ensures(idx, new);
    assert forall|i: int, j: int| 0 <= i < j < s2.len()
        implies (#[trigger] s2[i]).spec_end() < (#[trigger] s2[j]).start by {
        if j < idx {
            assert(s2[i] == gs[i] && s2[j] == gs[j]);
        } else if j == idx {
            assert(s2[i] == gs[i] && s2[j] == new);
        } else if i < idx {
            assert(s2[i] == gs[i] && s2[j] == gs[j - 1]);
            assert(gs[i].spec_end() < gs[j - 1].start);
        } else if i == idx {
            assert(s2[i] == new && s2[j] == gs[j - 1]);
            if j - 1 > idx {
                assert(gs[idx].spec_end() < gs[j - 1].start);
                assert(gs[idx].start < gs[idx].spec_end());
            }
        } else {
            assert(s2[i] == gs[i - 1] && s2[j] == gs[j - 1]);
        }
    }
    assert forall|i: int| 0 <= i < s2.len() implies (#[trigger] s2[i]).wf() by {
        if i < idx {
            assert(s2[i] == gs[i]);
        } else if i == idx {
            assert(s2[i] == new);
        } else {
            assert(s2[i] == gs[i - 1]);
        }
    }
}

/// Replacing the slot at `idx` with one that still lies strictly between
/// the neighbours keeps the list well formed.
proof fn lemma_update_wf(gs: Seq<FreeSlot>, idx: int, v: FreeSlot)
    requires
        slots_wf(gs),
        v.wf(),
        0 <= idx < gs.len(),
        forall|j: int| 0 <= j < idx ==> (#[trigger] gs[j]).spec_end() < v.start,
        idx + 1 < gs.len() ==> v.spec_end() < gs[idx + 1].start,
        v.start <= gs[idx].start,
        gs[idx].spec_end() <= v.spec_end(),
    ensures
        slots_wf(gs.update(idx, v)),
{
    let s2 = gs.update(idx, v);
    assert forall|i: int, j: int| 0 <= i < j < s2.len()
        implies (#[trigger] s2[i]).spec_end() < (#[trigger] s2[j]).start by {
        if i != idx && j != idx {
            assert(s2[i] == gs[i] && s2[j] == gs[j]);
        } else if j == idx {
            assert(s2[i] == gs[i]);
        } else {
            assert(s2[i] == v && s2[j] == gs[j]);
            if j > idx + 1 {
                assert(gs[idx + 1].spec_end() < gs[j].start);
                assert(gs[idx + 1].start < gs[idx + 1].spec_end());
            }
        }
    }
    assert forall|i: int| 0 <= i < s2.len() implies (#[trigger] s2[i]).wf() by {
        if i != idx {
            assert(s2[i] == gs[i]);
        }
    }
}

/// Removing one slot and widening its successor into the freed room keeps
/// the list well formed.
proof fn lemma_remove_update_wf(gs: Seq<FreeSlot>, idx: int, v: FreeSlot)
    requires
        slots_wf(gs),
        v.wf(),
        0 <= idx && idx + 1 < gs.len(),
        forall|j: int| 0 <= j < idx ==> (#[trigger] gs[j]).spec_end() < v.start,
        v.spec_end() == gs[idx + 1].spec_end(),
    ensures
        slots_wf(gs.remove(idx).update(idx, v)),
{
    let s2 = gs.remove(idx).update(idx, v);
    gs.remove_ensures(idx);
    assert forall|i: int, j: int| 0 <= i < j < s2.len()
        implies (#[trigger] s2[i]).spec_end() < (#[trigger] s2[j]).start by {
        if j < idx {
            assert(s2[i] == gs[i] && s2[j] == gs[j]);
        } else if j == idx {
            assert(s2[i] == gs[i]);
        } else if i < idx {
            assert(s2[i] == gs[i] && s2[j] == gs[j + 1]);
            assert(gs[i].spec_end() < gs[j + 1].start);
        } else if i == idx {
            assert(s2[i] == v && s2[j] == gs[j + 1]);
            assert(gs[idx + 1].spec_end() < gs[j + 1].start);
        } else {
            assert(s2[i] == gs[i + 1] && s2[j] == gs[j + 1]);
        }
    }
    assert forall|i: int| 0 <= i < s2.len() implies (#[trigger] s2[i]).wf() by {
        if i < idx {
            assert(s2[i] == gs[i]);
        } else if i > idx {
            assert(s2[i] == gs[i + 1]);
        }
    }
}

/// Appending a slot past the end of every other keeps the list well formed.
proof fn lemma_push_wf(gs: Seq<FreeSlot>, new: FreeSlot)
    requires
        slots_wf(gs),
        new.wf(),
        forall|j: int| 0 <= j < gs.len() ==> (#[trigger] gs[j]).spec_end() < new.start,
    ensures
        slots_wf(gs.push(new)),
{
    let s2 = gs.push(new);
    assert forall|i: int, j: int| 0 <= i < j < s2.len()
        implies (#[trigger] s2[i]).spec_end() < (#[trigger] s2[j]).start by {
        if j < gs.len() {
            assert(s2[i] == gs[i] && s2[j] == gs[j]);
        } else {
            assert(s2[i] == gs[i] && s2[j] == new);
        }
    }
    assert forall|i: int| 0 <= i < s2.len() implies (#[trigger] s2[i]).wf() by {
        if i < gs.len() {
            assert(s2[i] == gs[i]);
        }
    }
}

/// Removing a slot keeps the list well formed.
proof fn lemma_remove_wf(gs: Seq<FreeSlot>, idx: int)
    requires
        slots_wf(gs),
        0 <= idx < gs.len(),
    ensures
        slots_wf(gs.remove(idx)),
{
    let s2 = gs.remove(idx);
    gs.remove_ensures(idx);
    assert forall|i: int, j: int| 0 <= i < j < s2.len()
        implies (#[trigger] s2[i]).spec_end() < (#[trigger] s2[j]).start by {
        if j < idx {
            assert(s2[i] == gs[i] && s2[j] == gs[j]);
        } else if i < idx {
            assert(s2[i] == gs[i] && s2[j] == gs[j + 1]);
        } else {
            assert(s2[i] == gs[i + 1] && s2[j] == gs[j + 1]);
        }
    }
    assert forall|i: int| 0 <= i < s2.len() implies (#[trigger] s2[i]).wf() by {
        if i < idx {
            assert(s2[i] == gs[i]);
        } else {
            assert(s2[i] == gs[i + 1]);
        }
    }
}

/// The slot can serve an allocation of `size` bytes at alignment
/// `alignment`: the aligned request lies within the slot. A residual gap of
/// zero on either side is allowed; for a slot of exactly the requested size
/// this says its start is already aligned.
pub open spec fn slot_fits(s: FreeSlot, size: u32, alignment: u32) -> bool {
    s.size >= size && align_up(s.start as int, alignment as int) + size <= s.spec_end()
}

/// The slot at index `i` is the one best-fit chooses: it can serve the
/// request, no other slot that can is smaller, and every earlier slot that
/// can is strictly larger, so ties fall to the first candidate.
pub open spec fn is_best_fit(s: Seq<FreeSlot>, size: u32, alignment: u32, i: int) -> bool {
    &&& 0 <= i < s.len()
    &&& slot_fits(s[i], size, alignment)
    &&& forall|j: int|
        0 <= j < s.len() && slot_fits(#[trigger] s[j], size, alignment) ==> s[i].size <= s[j].size
    &&& forall|j: int|
        0 <= j < i && slot_fits(#[trigger] s[j], size, alignment) ==> s[i].size < s[j].size
}

/// At most one index satisfies the best-fit characterisation, so the result
/// of an allocation is a function of the slot list alone.
pub proof fn lemma_best_fit_unique(s: Seq<FreeSlot>, size: u32, alignment: u32, i1: int, i2: int)
    requires
        is_best_fit(s, size, alignment, i1),
        is_best_fit(s, size, alignment, i2),
    ensures
        i1 == i2,
{
    if i1 < i2 {
        assert(s[i2].size < s[i1].size);
        assert(s[i1].size <= s[i2].size);
    }
    if i2 < i1 {
        assert(s[i1].size < s[i2].size);
        assert(s[i2].size <= s[i1].size);
    }
}

/// The free ranges of one stack frame, sorted, non-overlapping and
/// non-adjacent.
pub struct FreeSlots {
    pub slots: Vec<FreeSlot>,
}

impl FreeSlots {
    /// The arena invariant holds of the slot list.
    pub open spec fn wf(self) -> bool {
        slots_wf(self.slots@)
    }

    /// The coordinate `x` is inside one of the free ranges.
    pub open spec fn spec_covers(self, x: int) -> bool {
        covers(self.slots@, x)
    }

    /// An arena with no free range at all.
    pub fn new() -> (r: FreeSlots)
        ensures
            r.wf(),
            r.slots@ == Seq::<FreeSlot>::empty(),
    {
        FreeSlots { slots: Vec::new() }
    }

    /// Return the range `new` to the arena, merging it with an adjacent
    /// neighbour on either side so that the list stays non-adjacent.
    ///
    /// The coverage afterwards is exactly the old coverage plus the range.
    #[verifier::loop_isolation(false)]
    pub fn free(&mut self, new: FreeSlot)
        requires
            old(self).wf(),
            new.wf(),
            forall|x: int| new.spec_contains(x) ==> !old(self).spec_covers(x),
        ensures
            final(self).wf(),
            forall|x: int|
                final(self).spec_covers(x) <==> old(self).spec_covers(x) || new.spec_contains(x),
    {
        let ghost gs = self.slots@;
        let slots: usize = self.slots.len();
        let mut idx: usize = 0;

        while idx < slots
            invariant
                self.slots@ == gs,
                0 <= idx <= slots,
                forall|j: int| 0 <= j < idx ==> (#[trigger] gs[j]).spec_end() < new.start,
            decreases slots - idx,
        {
            let slot = self.slots[idx];
            proof {
                assert(gs[idx as int].wf());
                lemma_range_clear_of_slot(gs, idx as int, new);
            }

            if new.end() < slot.start() {
                // insert before the first slot that starts past the range
                proof {
                    lemma_covers_insert(gs, idx as int, new);
                    lemma_insert_wf(gs, idx as int, new);
                }
                self.slots.insert(idx, new);
                return;
            } else if new.end() == slot.start() {
                // extend the current slot from the left
                let merged = FreeSlot::new(new.start(), new.size() + slot.size());
                proof {
                    lemma_wf_slots_disjoint(gs, idx as int);
                    assert forall|j: int, x: int|
                        0 <= j < gs.len() && j != idx && #[trigger] gs[j].spec_contains(x)
                            implies !gs[idx as int].spec_contains(x) && !merged.spec_contains(x) by {
                        if j < idx {
                            assert(gs[j].spec_end() < new.start);
                        } else {
                            assert(gs[idx as int].spec_end() < gs[j].start);
                        }
                    }
                    lemma_covers_update(gs, idx as int, merged);
                    lemma_update_wf(gs, idx as int, merged);
                    assert forall|x: int|
                        covers(gs.update(idx as int, merged), x)
                            == (covers(gs, x) || new.spec_contains(x)) by {
                        if gs[idx as int].spec_contains(x) {
                            assert(covers(gs, x));
                        }
                    }
                }
                self.slots.set(idx, merged);
                return;
            } else if slot.end() == new.start() {
                if idx + 1 < slots && self.slots[idx + 1].start() == new.end() {
                    // the range exactly bridges two slots: merge all three
                    let left = slot;
                    let right = self.slots[idx + 1];
                    let merged = FreeSlot::new(left.start(), right.end() - left.start());
                    proof {
                        let r1 = gs.remove(idx as int);
                        gs.remove_ensures(idx as int);
                        lemma_wf_slots_disjoint(gs, idx as int);
                        lemma_covers_remove(gs, idx as int);
                        assert(r1[idx as int] == gs[idx as int + 1]);
                        assert forall|j: int, x: int|
                            0 <= j < r1.len() && j != idx && #[trigger] r1[j].spec_contains(x)
                                implies !r1[idx as int].spec_contains(x)
                                    && !merged.spec_contains(x) by {
                            if j < idx {
                                assert(r1[j] == gs[j]);
                                assert(gs[j].spec_end() < new.start);
                                assert(gs[j].spec_end() < gs[idx as int].start);
                            } else {
                                assert(r1[j] == gs[j + 1]);
                                assert(gs[idx as int + 1].spec_end() < gs[j + 1].start);
                            }
                        }
                        lemma_covers_update(r1, idx as int, merged);
                        lemma_remove_update_wf(gs, idx as int, merged);
                        assert forall|x: int|
                            covers(r1.update(idx as int, merged), x)
                                == (covers(gs, x) || new.spec_contains(x)) by {
                            if gs[idx as int].spec_contains(x) {
                                assert(covers(gs, x));
                            }
                            if gs[idx as int + 1].spec_contains(x) {
                                assert(covers(gs, x));
                            }
                        }
                    }
                    self.slots.remove(idx);
                    self.slots.set(idx, merged);
                } else {
                    // extend the current slot from the right
                    let merged = FreeSlot::new(slot.start(), slot.size() + new.size());
                    proof {
                        if idx as int + 1 < gs.len() {
                            assert(gs[idx as int + 1].wf());
                            lemma_range_clear_of_slot(gs, idx as int + 1, new);
                        }
                        lemma_wf_slots_disjoint(gs, idx as int);
                        assert forall|j: int, x: int|
                            0 <= j < gs.len() && j != idx && #[trigger] gs[j].spec_contains(x)
                                implies !gs[idx as int].spec_contains(x)
                                    && !merged.spec_contains(x) by {
                            if j < idx {
                                assert(gs[j].spec_end() < new.start);
                                assert(gs[j].spec_end() < gs[idx as int].start);
                            } else {
                                assert(gs[idx as int].spec_end() < gs[j].start);
                            }
                        }
                        lemma_covers_update(gs, idx as int, merged);
                        lemma_update_wf(gs, idx as int, merged);
                        assert forall|x: int|
                            covers(gs.update(idx as int, merged), x)
                                == (covers(gs, x) || new.spec_contains(x)) by {
                            if gs[idx as int].spec_contains(x) {
                                assert(covers(gs, x));
                            }
                        }
                    }
                    self.slots.set(idx, merged);
                }
                return;
            }

            // the range lies strictly past this slot: move on
            proof {
                assert(gs[idx as int].spec_end() < new.start);
            }
            idx = idx + 1;
        }

        // no slot starts at or after the range: append it
        proof {
            lemma_covers_push(gs, new);
            lemma_push_wf(gs, new);
        }
        self.slots.push(new);
    }

    /// Serve an allocation of `size` bytes at alignment `alignment` from the
    /// best-fitting free range: the smallest range that can hold the
    /// request, the earliest on a tie. Returns the aligned start of the
    /// chosen range, or nothing when no range can serve the request; the
    /// residual fragments of a larger range stay in the arena.
    #[verifier::loop_isolation(false)]
    #[verifier::rlimit(60)]
    pub fn allocate(&mut self, size: u32, alignment: u32) -> (r: Option<u32>)
        requires
            old(self).wf(),
            size > 0,
            alignment > 0,
        ensures
            final(self).wf(),
            r matches Some(start) ==> {
                &&& exists|i: int|
                    #[trigger] is_best_fit(old(self).slots@, size, alignment, i)
                        && start == align_up(old(self).slots@[i].start as int, alignment as int)
                &&& start as int % (alignment as int) == 0
                &&& start + size <= u32::MAX
                &&& forall|x: int| start <= x < start + size ==> old(self).spec_covers(x)
                &&& forall|x: int|
                    final(self).spec_covers(x)
                        <==> (old(self).spec_covers(x) && !(start <= x < start + size))
            },
            r is None ==> {
                &&& final(self).slots@ == old(self).slots@
                &&& forall|i: int|
                    0 <= i < old(self).slots@.len()
                        ==> !slot_fits(#[trigger] old(self).slots@[i], size, alignment)
            },
    {
        let ghost gs = self.slots@;
        let mut result: Option<usize> = None;
        let mut best: u32 = u32::MAX;
        let slots: usize = self.slots.len();
        let mut idx: usize = 0;

        while idx < slots
            invariant
                self.slots@ == gs,
                0 <= idx <= slots,
                result is None ==> best == u32::MAX,
                result is None ==> forall|j: int|
                    0 <= j < idx ==> !slot_fits(#[trigger] gs[j], size, alignment),
                result matches Some(c) ==> {
                    &&& 0 <= c < idx
                    &&& slot_fits(gs[c as int], size, alignment)
                    &&& gs[c as int].size > size
                    &&& best == gs[c as int].size - size
                    &&& forall|j: int|
                        0 <= j < idx && slot_fits(#[trigger] gs[j], size, alignment)
                            ==> gs[c as int].size <= gs[j].size
                    &&& forall|j: int|
                        0 <= j < c && slot_fits(#[trigger] gs[j], size, alignment)
                            ==> gs[c as int].size < gs[j].size
                },
                forall|j: int|
                    0 <= j < idx ==> !((#[trigger] gs[j]).size == size
                        && gs[j].start as int % (alignment as int) == 0),
            decreases slots - idx,
        {
            let slot = self.slots[idx];
            proof {
                assert(gs[idx as int].wf());
            }

            if slot.size() < size {
                // too small for the request
            } else if slot.size() == size {
                if is_aligned(slot.start(), alignment) {
                    // exact fit: remove the slot and hand out its start
                    proof {
                        lemma_align_up_properties(slot.start as int, alignment as int);
                        assert forall|j: int|
                            0 <= j < idx && slot_fits(#[trigger] gs[j], size, alignment)
                                implies gs[idx as int].size < gs[j].size by {
                            lemma_align_up_properties(gs[j].start as int, alignment as int);
                        }
                        assert(is_best_fit(gs, size, alignment, idx as int));
                        lemma_wf_slots_disjoint(gs, idx as int);
                        lemma_covers_remove(gs, idx as int);
                        lemma_remove_wf(gs, idx as int);
                        assert forall|x: int|
                            slot.start <= x < slot.start + size implies covers(gs, x) by {
                            assert(gs[idx as int].spec_contains(x));
                        }
                    }
                    self.slots.remove(idx);
                    return Some(slot.start());
                }
                // an exactly sized slot whose start is misaligned cannot
                // serve the request: the aligned start already passes its end
                proof {
                    lemma_align_up_properties(slot.start as int, alignment as int);
                }
            } else {
                let rem: u32 = slot.start() % alignment;
                let pad: u32 = if rem == 0 { 0 } else { alignment - rem };
                proof {
                    lemma_align_up_properties(slot.start as int, alignment as int);
                    assert(align_up(slot.start as int, alignment as int) == slot.start + pad);
                }
                if pad <= slot.size() - size {
                    // the aligned request fits inside the slot, possibly
                    // flush with its end; the waste is the size surplus,
                    // wherever the gaps fall
                    let gap: u32 = slot.size() - size;
                    if gap < best {
                        best = gap;
                        result = Some(idx);
                    }
                }
            }
            idx = idx + 1;
        }

        if let Some(cidx) = result {
            let ghost c = cidx as int;
            let slot = self.slots[cidx];
            proof {
                assert(slot_fits(gs[c], size, alignment) && gs[c].size > size);
                lemma_align_up_properties(slot.start as int, alignment as int);
            }
            let start = align(slot.start(), alignment);
            let gap_left: u32 = start - slot.start();
            let gap_right: u32 = slot.end() - (start + size);
            proof {
                assert(is_best_fit(gs, size, alignment, c));
                lemma_wf_slots_disjoint(gs, c);
                lemma_covers_remove(gs, c);
                lemma_remove_wf(gs, c);
                assert forall|x: int|
                    start <= x < start + size implies covers(gs, x) by {
                    assert(gs[c].spec_contains(x));
                }
            }
            self.slots.remove(cidx);
            let ghost r1 = gs.remove(c);
            proof {
                gs.remove_ensures(c);
            }
            let mut at = cidx;

            if gap_left > 0 {
                let frag = FreeSlot::new(slot.start(), gap_left);
                proof {
                    assert forall|j: int| 0 <= j < c
                        implies (#[trigger] r1[j]).spec_end() < frag.start by {
                        assert(r1[j] == gs[j]);
                        assert(gs[j].spec_end() < gs[c].start);
                    }
                    if c < r1.len() {
                        assert(r1[c] == gs[c + 1]);
                        assert(gs[c].spec_end() < gs[c + 1].start);
                    }
                    lemma_insert_wf(r1, c, frag);
                    lemma_covers_insert(r1, c, frag);
                }
                self.slots.insert(at, frag);
                at = at + 1;
            }
            let ghost r2 = self.slots@;

            if gap_right > 0 {
                let frag2 = FreeSlot::new(slot.end() - gap_right, gap_right);
                proof {
                    let a = at as int;
                    assert forall|j: int| 0 <= j < a
                        implies (#[trigger] r2[j]).spec_end() < frag2.start by {
                        if gap_left > 0 && j == a - 1 {
                        } else {
                            assert(r2[j] == gs[j]);
                            assert(gs[j].spec_end() < gs[c].start);
                        }
                    }
                    if a < r2.len() {
                        if gap_left > 0 {
                            assert(r2[a] == r1[a - 1] && r1[a - 1] == gs[c + 1]);
                        } else {
                            assert(r2[a] == gs[c + 1]);
                        }
                        assert(gs[c].spec_end() < gs[c + 1].start);
                    }
                    lemma_insert_wf(r2, a, frag2);
                    lemma_covers_insert(r2, a, frag2);
                }
                self.slots.insert(at, frag2);
            }

            proof {
                assert forall|x: int|
                    covers(self.slots@, x)
                        == (covers(gs, x) && !(start <= x < start + size)) by {
                    if gs[c].spec_contains(x) {
                        assert(covers(gs, x));
                    }
                }
            }
            Some(start)
        } else {
            None
        }
    }
}

/// Dropping the first slot drops exactly its range from the coverage.
proof fn lemma_covers_tail(s: Seq<FreeSlot>)
    requires
        slots_wf(s),
        s.len() > 0,
    ensures
        forall|x: int|
            covers(s.subrange(1, s.len() as int), x)
                <==> covers(s, x) && !s[0].spec_contains(x),
{
    let t = s.subrange(1, s.len() as int);
    assert forall|x: int| covers(t, x) implies covers(s, x) && !s[0].spec_contains(x) by {
        let i = choose|i: int| 0 <= i < t.len() && #[trigger] t[i].spec_contains(x);
        assert(t[i] == s[i + 1]);
        assert(s[i + 1].spec_contains(x));
        assert(s[0].spec_end() < s[i + 1].start);
    }
    assert forall|x: int| covers(s, x) && !s[0].spec_contains(x) implies covers(t, x) by {
        let i = choose|i: int| 0 <= i < s.len() && #[trigger] s[i].spec_contains(x);
        assert(t[i - 1].spec_contains(x));
    }
}

/// A well-formed slot list is a canonical form: two lists with the same
/// coverage are the same list. This is what makes the arena's behaviour a
/// function of which bytes are free, however the list came about.
pub proof fn lemma_wf_coverage_unique(a: Seq<FreeSlot>, b: Seq<FreeSlot>)
    requires
        slots_wf(a),
        slots_wf(b),
        forall|x: int| covers(a, x) <==> covers(b, x),
    ensures
        a == b,
    decreases a.len(),
{
    if a.len() == 0 {
        if b.len() > 0 {
            assert(b[0].spec_contains(b[0].start as int));
            assert(covers(b, b[0].start as int));
            assert(covers(a, b[0].start as int));
            let i = choose|i: int|
                0 <= i < a.len() && #[trigger] a[i].spec_contains(b[0].start as int);
            assert(false);
        }
        assert(a =~= b);
    } else if b.len() == 0 {
        assert(a[0].spec_contains(a[0].start as int));
        assert(covers(a, a[0].start as int));
        assert(covers(b, a[0].start as int));
        let i = choose|i: int|
            0 <= i < b.len() && #[trigger] b[i].spec_contains(a[0].start as int);
        assert(false);
    } else {
        // the first slots start together: each list covers the other's
        // first coordinate, and nothing before its own first slot
        assert(a[0].spec_contains(a[0].start as int));
        assert(b[0].spec_contains(b[0].start as int));
        assert(covers(a, a[0].start as int));
        assert(covers(b, a[0].start as int));
        assert(covers(b, b[0].start as int));
        assert(covers(a, b[0].start as int));
        let ja = choose|j: int|
            0 <= j < b.len() && #[trigger] b[j].spec_contains(a[0].start as int);
        if ja > 0 {
            assert(b[0].spec_end() < b[ja].start);
        }
        assert(b[0].start <= a[0].start);
        let jb = choose|j: int|
            0 <= j < a.len() && #[trigger] a[j].spec_contains(b[0].start as int);
        if jb > 0 {
            assert(a[0].spec_end() < a[jb].start);
        }
        assert(a[0].start <= b[0].start);
        assert(a[0].start == b[0].start);

        // and they end together: the coordinate just past the shorter one
        // would be covered by one list and not the other
        if a[0].spec_end() < b[0].spec_end() {
            let x = a[0].spec_end();
            assert(b[0].spec_contains(x));
            assert(covers(b, x));
            assert(covers(a, x));
            let i = choose|i: int| 0 <= i < a.len() && #[trigger] a[i].spec_contains(x);
            if i > 0 {
                assert(a[0].spec_end() < a[i].start);
            }
            assert(false);
        }
        if b[0].spec_end() < a[0].spec_end() {
            let x = b[0].spec_end();
            assert(a[0].spec_contains(x));
            assert(covers(a, x));
            assert(covers(b, x));
            let i = choose|i: int| 0 <= i < b.len() && #[trigger] b[i].spec_contains(x);
            if i > 0 {
                assert(b[0].spec_end() < b[i].start);
            }
            assert(false);
        }
        assert(a[0] == b[0]);

        // the tails cover the same coordinates, so they agree by induction
        let at = a.subrange(1, a.len() as int);
        let bt = b.subrange(1, b.len() as int);
        assert forall|i: int, j: int| 0 <= i < j < at.len()
            implies (#[trigger] at[i]).spec_end() < (#[trigger] at[j]).start by {
            assert(at[i] == a[i + 1] && at[j] == a[j + 1]);
        }
        assert forall|i: int| 0 <= i < at.len() implies (#[trigger] at[i]).wf() by {
            assert(at[i] == a[i + 1]);
        }
        assert forall|i: int, j: int| 0 <= i < j < bt.len()
            implies (#[trigger] bt[i]).spec_end() < (#[trigger] bt[j]).start by {
            assert(bt[i] == b[i + 1] && bt[j] == b[j + 1]);
        }
        assert forall|i: int| 0 <= i < bt.len() implies (#[trigger] bt[i]).wf() by {
            assert(bt[i] == b[i + 1]);
        }
        lemma_covers_tail(a);
        lemma_covers_tail(b);
        assert forall|x: int| covers(at, x) == covers(bt, x) by {
            assert(covers(at, x) == (covers(a, x) && !a[0].spec_contains(x)));
            assert(covers(bt, x) == (covers(b, x) && !b[0].spec_contains(x)));
            assert(covers(a, x) == covers(b, x));
        }
        lemma_wf_coverage_unique(at, bt);
        assert forall|i: int| 0 <= i < a.len() implies a[i] == b[i] by {
            if i > 0 {
                assert(at[i - 1] == bt[i - 1]);
            }
        }
        assert(a =~= b);
    }
}

/// Law: free ranges that together cover `[0, total)` without a gap end up,
/// once they are all back in the arena, as the single slot `(0, total)`,
/// whatever the order of the frees. Stated over the coverage that `free`
/// guarantees: a well-formed list whose coverage is exactly `[0, total)`
/// can only be that one slot.
pub proof fn lemma_contiguous_cover_single(s: Seq<FreeSlot>, total: int)
    requires
        slots_wf(s),
        0 < total,
        forall|x: int| covers(s, x) <==> 0 <= x < total,
    ensures
        s == seq![FreeSlot { start: 0, size: total as u32 }],
{
    assert(covers(s, total - 1));
    let i = choose|i: int| 0 <= i < s.len() && #[trigger] s[i].spec_contains(total - 1);
    assert(total <= s[i].spec_end() <= u32::MAX);
    let single = FreeSlot { start: 0, size: total as u32 };
    let sb = seq![single];
    assert forall|x: int| covers(sb, x) <==> 0 <= x < total by {
        if 0 <= x < total {
            assert(sb[0].spec_contains(x));
        }
        if covers(sb, x) {
            let j = choose|j: int| 0 <= j < sb.len() && #[trigger] sb[j].spec_contains(x);
            assert(sb[j] == single);
        }
    }
    lemma_wf_coverage_unique(s, sb);
}

/// Law: allocating a slot, freeing exactly that range again, and repeating
/// the allocation with the same size and alignment returns the identical
/// start. `pre` is the arena before the first allocation, `mid` the arena
/// it leaves behind, `post` the arena after the free; the hypotheses are
/// exactly what `allocate` and `free` guarantee about those three states.
pub proof fn lemma_alloc_free_alloc_round_trip(
    pre: Seq<FreeSlot>,
    mid: Seq<FreeSlot>,
    post: Seq<FreeSlot>,
    size: u32,
    alignment: u32,
    start: u32,
)
    requires
        slots_wf(pre),
        slots_wf(mid),
        slots_wf(post),
        exists|i: int|
            #[trigger] is_best_fit(pre, size, alignment, i)
                && start == align_up(pre[i].start as int, alignment as int),
        forall|x: int| start <= x < start + size ==> covers(pre, x),
        forall|x: int| covers(mid, x) <==> (covers(pre, x) && !(start <= x < start + size)),
        forall|x: int| covers(post, x) <==> covers(mid, x) || (start <= x < start + size),
    ensures
        post == pre,
        forall|i: int|
            #[trigger] is_best_fit(post, size, alignment, i)
                ==> start == align_up(post[i].start as int, alignment as int),
{
    assert forall|x: int| covers(post, x) <==> covers(pre, x) by {}
    lemma_wf_coverage_unique(post, pre);
    let i0 = choose|i: int|
        #[trigger] is_best_fit(pre, size, alignment, i)
            && start == align_up(pre[i].start as int, alignment as int);
    assert forall|i: int| #[trigger] is_best_fit(post, size, alignment, i)
        implies start == align_up(post[i].start as int, alignment as int) by {
        lemma_best_fit_unique(pre, size, alignment, i, i0);
    }
}

/// `value` is a multiple of `size`.
pub fn is_aligned(value: u32, size: u32) -> (r: bool)
    requires
        size > 0,
    ensures
        r == (value as int % size as int == 0),
{
    value % size == 0
}

/// Round a distance-from-frame-base coordinate up to the next multiple of
/// `alignment`.
///
/// A caution for maintainers: the formula
/// `(value * alignment + alignment - 1) / alignment`, sometimes reached
/// for in this role, is not a rounding at all. The remainder form below
/// computes the least multiple of `alignment` at or above `value`, and
/// the contract holds it to exactly that.
pub fn align(value: u32, alignment: u32) -> (r: u32)
    requires
        alignment > 0,
        align_up(value as int, alignment as int) <= u32::MAX,
    ensures
        r == align_up(value as int, alignment as int),
        r >= value,
        r as int % alignment as int == 0,
{
    proof {
        lemma_align_up_properties(value as int, alignment as int);
    }
    let rem: u32 = value % alignment;
    if rem == 0 {
        value
    } else {
        value + (alignment - rem)
    }
}

} // verus!
