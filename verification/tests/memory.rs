use oslibc::heap::{Allocation, LinkedListAllocator, LinkedNode};
use oslibc::mem::{calloc_total, memcmp, memcpy, memmove, memset, Heap, MallocStep, ReallocAction};
use oslibc::util::{align_down, align_up, U64Buf};

#[test]
fn align_up_rounds_to_next_multiple() {
    assert_eq!(align_up(17, 16), 32);
    assert_eq!(align_up(32, 16), 32);
    assert_eq!(align_up(0, 8), 0);
    assert_eq!(align_up(1, 1), 1);
    assert_eq!(align_up(4097, 4096), 8192);
}

#[test]
fn align_down_rounds_to_previous_multiple() {
    assert_eq!(align_down(17, 16), 16);
    assert_eq!(align_down(32, 16), 32);
    assert_eq!(align_down(15, 16), 0);
    assert_eq!(align_down(usize::MAX, 2), usize::MAX - 1);
}

#[test]
fn aligned_address_stays_put() {
    for a in [0usize, 16, 48, 4096] {
        assert_eq!(align_up(a, 16), a);
        assert_eq!(align_down(a, 16), a);
    }
}

#[test]
fn u64buf_writes_decimal_digits() {
    assert_eq!(U64Buf::new(0).as_str(), "0");
    assert_eq!(U64Buf::new(7).as_str(), "7");
    assert_eq!(U64Buf::new(12345).as_str(), "12345");
    assert_eq!(U64Buf::new(1000).as_str(), "1000");
    assert_eq!(U64Buf::new(u64::MAX).as_str(), "18446744073709551615");
}

#[test]
fn linked_node_addresses() {
    let n = LinkedNode::new(64);
    assert_eq!(n.size, 64);
    assert_eq!(n.start_addr(), 0);
    let placed = LinkedNode { start: 0x1000, size: 64 };
    assert_eq!(placed.start_addr(), 0x1000);
    assert_eq!(placed.end_addr(), 0x1040);
}

#[test]
fn find_region_splits_first_fit() {
    let mut a = LinkedListAllocator::new();
    a.add_free_memory_region(0x1000, 256);
    let r = a.find_region(48).unwrap();
    assert_eq!((r.start, r.end), (0x1000, 0x1030));
    assert_eq!(a.regions_len(), 1);
    let rest = a.region(0);
    assert_eq!((rest.start, rest.size), (0x1030, 208));
}

#[test]
fn find_region_takes_whole_region_when_rest_is_small() {
    let mut a = LinkedListAllocator::new();
    a.add_free_memory_region(0x1030, 208);
    let r: Allocation = a.find_region(200).unwrap();
    assert_eq!((r.start, r.end), (0x1030, 0x1100));
    assert_eq!(a.regions_len(), 0);
    // a rest of exactly one node is kept
    a.add_free_memory_region(0x2000, 64);
    let r = a.find_region(48).unwrap();
    assert_eq!((r.start, r.end), (0x2000, 0x2030));
    assert_eq!(a.regions_len(), 1);
    assert_eq!(a.region(0).start, 0x2030);
    assert_eq!(a.region(0).size, 16);
}

#[test]
fn find_region_fails_without_room() {
    let mut a = LinkedListAllocator::new();
    assert!(a.find_region(16).is_none());
    a.add_free_memory_region(0x1000, 32);
    assert!(a.find_region(48).is_none());
    assert_eq!(a.regions_len(), 1);
    assert!(a.find_region(usize::MAX - 0x800).is_none());
}

#[test]
fn find_region_searches_in_list_order() {
    let mut a = LinkedListAllocator::new();
    a.init(0x1000, 64);
    a.add_free_memory_region(0x8000, 32);
    // the newest region is at the front but too small
    let r = a.find_region(48).unwrap();
    assert_eq!(r.start, 0x1000);
    let r = a.find_region(16).unwrap();
    assert_eq!(r.start, 0x8000);
}

#[test]
fn malloc_serves_from_added_region() {
    let mut h = Heap::new();
    h.add_region(0x10000, 4096);
    assert_eq!(h.malloc_step(10), MallocStep::Done(0x10020));
    assert_eq!(h.malloc_step(0), MallocStep::Done(0x10050));
    assert_eq!(h.malloc_step(100), MallocStep::Done(0x10080));
}

#[test]
fn malloc_asks_for_more_memory_and_then_succeeds() {
    let mut h = Heap::new();
    assert_eq!(h.malloc_step(10), MallocStep::Grow(64));
    assert!(!h.grow(-1, 64));
    assert_eq!(h.malloc_step(10), MallocStep::Grow(64));
    assert!(h.is_fresh(0x20008, 64));
    assert!(h.grow(0x20008, 64));
    assert_eq!(h.malloc_step(10), MallocStep::Done(0x20030));
}

#[test]
fn malloc_of_huge_size_returns_null() {
    let mut h = Heap::new();
    assert_eq!(h.malloc_step(u64::MAX), MallocStep::Done(0));
    assert_eq!(h.malloc_step(u64::MAX - 31), MallocStep::Done(0));
    assert_eq!(h.malloc_step(u64::MAX - 63), MallocStep::Done(0));
    assert_eq!(h.malloc_step(1 << 62), MallocStep::Grow((1 << 62) + 48));
}

#[test]
fn grow_refuses_too_little_memory() {
    let mut h = Heap::new();
    assert!(!h.grow(0x1001, 16));
}

#[test]
fn free_returns_block_for_reuse() {
    let mut h = Heap::new();
    h.add_region(0x10000, 4096);
    let p = match h.malloc_step(10) {
        MallocStep::Done(p) => p,
        MallocStep::Grow(_) => panic!("no room"),
    };
    h.free(p);
    // the freed block is first in the free list and exactly fits
    assert_eq!(h.malloc_step(16), MallocStep::Done(p));
    // freeing null or a pointer without a header does nothing
    h.free(0);
    h.free(0x50020);
    assert_eq!(h.malloc_step(10), MallocStep::Done(0x10050));
}

#[test]
fn double_free_is_ignored() {
    let mut h = Heap::new();
    h.add_region(0x10000, 96);
    let p = match h.malloc_step(10) {
        MallocStep::Done(p) => p,
        _ => unreachable!(),
    };
    h.free(p);
    h.free(p);
    assert_eq!(h.malloc_step(10), MallocStep::Done(p));
    assert_eq!(h.malloc_step(10), MallocStep::Done(0x10050));
}

#[test]
fn fresh_range_detection() {
    let mut h = Heap::new();
    h.add_region(0x10000, 4096);
    assert!(!h.is_fresh(0x10800, 16));
    assert!(h.is_fresh(0x11000, 16));
    assert!(h.is_fresh(0xF000, 0x1000));
    assert!(!h.is_fresh(0xF000, 0x1001));
}

#[test]
fn realloc_decisions() {
    let mut h = Heap::new();
    h.add_region(0x10000, 4096);
    let p = match h.malloc_step(10) {
        MallocStep::Done(p) => p,
        _ => unreachable!(),
    };
    assert_eq!(h.realloc_decide(p, 0), ReallocAction::FreeThenNull);
    assert_eq!(h.realloc_decide(0, 5), ReallocAction::Malloc);
    assert_eq!(h.realloc_decide(p, 16), ReallocAction::Keep);
    assert_eq!(h.realloc_decide(p, 17), ReallocAction::Move { copy_len: 16 });
    assert_eq!(h.realloc_decide(0x90020, 17), ReallocAction::Null);
}

#[test]
fn calloc_sizes() {
    assert_eq!(calloc_total(0, 5), Some(1));
    assert_eq!(calloc_total(5, 0), Some(1));
    assert_eq!(calloc_total(3, 4), Some(12));
    assert_eq!(calloc_total(u64::MAX, 1), Some(u64::MAX));
    assert_eq!(calloc_total(u64::MAX, 2), None);
    assert_eq!(calloc_total(2, u64::MAX / 2 + 1), None);
}

#[test]
fn memset_fills_prefix() {
    let mut b = [9u8; 5];
    memset(&mut b, 0x141, 3);
    assert_eq!(b, [0x41, 0x41, 0x41, 9, 9]);
    memset(&mut b, 0, 0);
    assert_eq!(b, [0x41, 0x41, 0x41, 9, 9]);
}

#[test]
fn memmove_handles_overlap_both_ways() {
    let mut b = [1u8, 2, 3, 4, 5, 0, 0];
    memmove(&mut b, 1, 0, 4);
    assert_eq!(b, [1, 1, 2, 3, 4, 0, 0]);
    let mut c = [1u8, 2, 3, 4, 5, 0, 0];
    memmove(&mut c, 0, 1, 4);
    assert_eq!(c, [2, 3, 4, 5, 5, 0, 0]);
    let mut d = [1u8, 2, 3, 4, 5, 6];
    memmove(&mut d, 3, 0, 3);
    assert_eq!(d, [1, 2, 3, 1, 2, 3]);
}

#[test]
fn memcpy_copies_front_to_back() {
    let mut b = [1u8, 2, 3, 4, 5, 0, 0];
    memcpy(&mut b, 1, 0, 4);
    assert_eq!(b, [1, 1, 1, 1, 1, 0, 0]);
    let mut d = [1u8, 2, 3, 4, 5, 6];
    memcpy(&mut d, 3, 0, 3);
    assert_eq!(d, [1, 2, 3, 1, 2, 3]);
}

#[test]
fn memcpy_equals_memmove_without_overlap() {
    let base = [10u8, 20, 30, 40, 50, 60, 70, 80];
    let mut a = base;
    let mut b = base;
    memcpy(&mut a, 5, 0, 3);
    memmove(&mut b, 5, 0, 3);
    assert_eq!(a, b);
    assert_eq!(a, [10, 20, 30, 40, 50, 10, 20, 30]);
}

#[test]
fn memcmp_reports_first_difference() {
    assert_eq!(memcmp(&[1, 2, 3], &[1, 2, 4], 3), -1);
    assert_eq!(memcmp(&[1, 2, 3], &[1, 2, 4], 2), 0);
    assert_eq!(memcmp(&[200], &[1], 1), 199);
    assert_eq!(memcmp(&[], &[], 0), 0);
}
