use dora::slots::{align, is_aligned, FreeSlot, FreeSlots};

#[test]
fn merge_free_slots() {
    let mut free_slots = FreeSlots::new();
    free_slots.free(FreeSlot::new(0, 2));
    free_slots.free(FreeSlot::new(8, 8));
    free_slots.free(FreeSlot::new(2, 2));
    free_slots.free(FreeSlot::new(4, 4));

    assert_eq!(free_slots.slots, vec![FreeSlot::new(0, 16)]);

    let mut free_slots = FreeSlots::new();
    free_slots.free(FreeSlot::new(4, 8));
    free_slots.free(FreeSlot::new(0, 2));
    free_slots.free(FreeSlot::new(2, 2));

    assert_eq!(free_slots.slots, vec![FreeSlot::new(0, 12)]);
}

#[test]
fn alloc_free_slot() {
    let mut free_slots = FreeSlots::new();

    assert_eq!(free_slots.allocate(2, 2), None);
    free_slots.free(FreeSlot::new(0, 2));

    assert_eq!(free_slots.allocate(2, 2), Some(0));
    assert_eq!(free_slots.slots, Vec::new());

    free_slots.free(FreeSlot::new(0, 8));
    free_slots.free(FreeSlot::new(12, 4));
    assert_eq!(free_slots.allocate(4, 4), Some(12));
    assert_eq!(free_slots.slots, vec![FreeSlot::new(0, 8)]);
}

#[test]
fn contiguous_frees_coalesce_to_one_slot() {
    // disjoint ranges covering [0, 16) handed back in scrambled order
    let mut free_slots = FreeSlots::new();
    free_slots.free(FreeSlot::new(4, 4));
    free_slots.free(FreeSlot::new(12, 4));
    free_slots.free(FreeSlot::new(0, 4));
    free_slots.free(FreeSlot::new(8, 4));
    assert_eq!(free_slots.slots, vec![FreeSlot::new(0, 16)]);
}

#[test]
fn alloc_returns_aligned_start_inside_free_range() {
    let mut free_slots = FreeSlots::new();
    free_slots.free(FreeSlot::new(1, 9));
    let r = free_slots.allocate(4, 4);
    assert_eq!(r, Some(4));
    assert_eq!(r.unwrap() % 4, 0);
    // the residual fragments stay on both sides of the served range
    assert_eq!(free_slots.slots, vec![FreeSlot::new(1, 3), FreeSlot::new(8, 2)]);
}

#[test]
fn alloc_free_alloc_round_trip() {
    let mut free_slots = FreeSlots::new();
    free_slots.free(FreeSlot::new(0, 8));
    free_slots.free(FreeSlot::new(12, 4));

    let first = free_slots.allocate(4, 4);
    assert_eq!(first, Some(12));
    free_slots.free(FreeSlot::new(12, 4));
    let again = free_slots.allocate(4, 4);
    assert_eq!(again, Some(12));
}

#[test]
fn alloc_accepts_fit_flush_with_slot_end() {
    // the aligned request ends exactly at the slot's end: a legal fit
    // with a zero right gap; only the left padding stays free
    let mut free_slots = FreeSlots::new();
    free_slots.free(FreeSlot::new(2, 6));
    assert_eq!(free_slots.allocate(4, 4), Some(4));
    assert_eq!(free_slots.slots, vec![FreeSlot::new(2, 2)]);
}

#[test]
fn best_fit_prefers_smaller_slot_with_zero_gap() {
    // the six-byte slot serves the request (flush with its end) and
    // beats the eight-byte one
    let mut free_slots = FreeSlots::new();
    free_slots.free(FreeSlot::new(2, 6));
    free_slots.free(FreeSlot::new(16, 8));
    assert_eq!(free_slots.allocate(4, 4), Some(4));
    assert_eq!(free_slots.slots, vec![FreeSlot::new(2, 2), FreeSlot::new(16, 8)]);
}

#[test]
fn alloc_fails_when_no_slot_fits() {
    let mut free_slots = FreeSlots::new();
    free_slots.free(FreeSlot::new(0, 2));
    assert_eq!(free_slots.allocate(4, 4), None);
    assert_eq!(free_slots.slots, vec![FreeSlot::new(0, 2)]);
}

#[test]
fn best_fit_prefers_smallest_then_first() {
    let mut free_slots = FreeSlots::new();
    free_slots.free(FreeSlot::new(0, 8));
    free_slots.free(FreeSlot::new(16, 6));
    free_slots.free(FreeSlot::new(32, 6));
    // both six-byte slots beat the eight-byte one; the first wins the tie
    assert_eq!(free_slots.allocate(2, 2), Some(16));
    assert_eq!(
        free_slots.slots,
        vec![FreeSlot::new(0, 8), FreeSlot::new(18, 4), FreeSlot::new(32, 6)]
    );
}

#[test]
fn align_rounds_up_to_multiples() {
    assert_eq!(align(5, 4), 8);
    assert_eq!(align(8, 4), 8);
    assert_eq!(align(0, 8), 0);
    assert_eq!(align(1, 8), 8);
    assert!(is_aligned(8, 4));
    assert!(!is_aligned(6, 4));
}

#[test]
fn slot_accessors() {
    let s = FreeSlot::new(4, 8);
    assert_eq!(s.start(), 4);
    assert_eq!(s.size(), 8);
    assert_eq!(s.end(), 12);
}
