use dora::swiper::{AllocStep, Region, Swiper, CARD_SIZE};

const MIB: usize = 1024 * 1024;

#[test]
fn region_includes_and_size() {
    let r = Region::new(4096, 8192);
    assert_eq!(r.size(), 4096);
    assert!(r.includes(4096));
    assert!(r.includes(8191));
    assert!(!r.includes(8192));
    assert!(!r.includes(0));
}

#[test]
fn heap_geometry_default_layout() {
    // the default 32 MiB heap carved out of a page-aligned reservation
    let base: usize = 1 << 32;
    let heap = Swiper::new(32 * MIB, base);

    assert_eq!(heap.heap.start, base);
    assert_eq!(heap.heap.end, base + 32 * MIB);

    // young space: a fifth of the heap, rounded up to a page
    assert_eq!(heap.young.start, base);
    assert_eq!(heap.young.end - heap.young.start, 6713344);
    assert_eq!(heap.old_gen.start, heap.young.end);
    assert_eq!(heap.old_gen.end, heap.heap.end);

    // card table right after the heap, one byte per 512 heap bytes
    assert_eq!(heap.card_table.start, heap.heap.end);
    assert_eq!(heap.card_table.end - heap.card_table.start, 32 * MIB / 512);

    // crossing map right after the card table, covering old space
    assert_eq!(heap.crossing_map.start, heap.card_table.end);

    // the barrier constant: card table start minus the heap's first card
    assert_eq!(
        heap.card_table_offset(),
        heap.card_table.start - (heap.heap.start >> 9)
    );
}

#[test]
fn card_addresses_stay_inside_card_table() {
    let base: usize = 4096;
    let heap = Swiper::new(8 * MIB, base);

    let probes = [
        heap.heap.start,
        heap.heap.start + 1,
        heap.heap.start + CARD_SIZE,
        heap.old_gen.start,
        heap.heap.end - 1,
    ];
    for &a in probes.iter() {
        let card = heap.card_byte_address(a);
        assert!(heap.card_table.start <= card && card < heap.card_table.end);
        assert_eq!(card, (a >> 9) + heap.card_table_offset());
    }
}

#[test]
fn allocation_driver_collects_once_then_gives_up() {
    assert_eq!(Swiper::alloc_obj_step(Some(4096), false), AllocStep::Use(4096));
    assert_eq!(Swiper::alloc_obj_step(Some(4096), true), AllocStep::Use(4096));
    assert_eq!(Swiper::alloc_obj_step(None, false), AllocStep::CollectAndRetry);
    assert_eq!(Swiper::alloc_obj_step(None, true), AllocStep::GiveUp);
}

#[test]
fn reserve_covers_heap_card_table_and_crossing_map() {
    let base: usize = 4096;
    let heap = Swiper::new(8 * MIB, base);
    let reserved = Swiper::reserve_size(8 * MIB);
    assert_eq!(heap.crossing_map.end - heap.heap.start, reserved);
}

#[test]
fn young_space_bump_allocation() {
    let base: usize = 4096;
    let mut heap = Swiper::new(4 * MIB, base);
    assert!(heap.needs_write_barrier());

    let a = heap.alloc_obj(64).unwrap();
    let b = heap.alloc_obj(32).unwrap();
    assert_eq!(a, heap.young.start);
    assert_eq!(b, heap.young.start + 64);

    // the young space cannot hold more than its size in one object
    let young_size = heap.young.end - heap.young.start;
    assert!(heap.alloc_obj(young_size).is_none());

    // after a minor collection the bump pointer starts over
    heap.reset_young();
    let c = heap.alloc_obj(16).unwrap();
    assert_eq!(c, heap.young.start);
}
