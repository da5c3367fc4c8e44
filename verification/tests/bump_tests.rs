use arceos_core::bump::{AllocError, EarlyAllocator};

const PAGE: usize = 4096;

fn fresh() -> EarlyAllocator<PAGE> {
    let mut a = EarlyAllocator::<PAGE>::new();
    a.init(0x10_0000, 0x10_000);
    a
}

#[test]
fn new_allocator_is_empty() {
    let a = EarlyAllocator::<PAGE>::new();
    assert_eq!(a.total_bytes(), 0);
    assert_eq!(a.used_bytes(), 0);
    assert_eq!(a.available_bytes(), 0);
    assert_eq!(a.total_pages(), 0);
}

#[test]
fn init_makes_the_whole_range_free() {
    let a = fresh();
    assert_eq!(a.total_bytes(), 0x10_000);
    assert_eq!(a.used_bytes(), 0);
    assert_eq!(a.available_bytes(), 0x10_000);
    assert_eq!(a.total_pages(), 16);
    assert_eq!(a.used_pages(), 0);
    assert_eq!(a.available_pages(), 16);
}

#[test]
fn byte_allocations_go_forward_aligned() {
    let mut a = fresh();
    assert_eq!(a.alloc_bytes(10, 8), Ok(0x10_0000));
    assert_eq!(a.used_bytes(), 10);
    assert_eq!(a.alloc_bytes(4, 16), Ok(0x10_0010));
    assert_eq!(a.used_bytes(), 0x14);
    assert_eq!(a.alloc_bytes(1, 1), Ok(0x10_0014));
    assert_eq!(a.available_bytes(), 0x10_000 - 0x15);
}

#[test]
fn page_allocations_go_backward_aligned() {
    let mut a = fresh();
    assert_eq!(a.alloc_pages(2, PAGE), Ok(0x10_e000));
    assert_eq!(a.used_pages(), 2);
    assert_eq!(a.available_pages(), 14);
    // 0x10_e000 - 0x1000 = 0x10_d000, rounded down to 0x4000.
    assert_eq!(a.alloc_pages(1, 0x4000), Ok(0x10_c000));
    assert_eq!(a.used_pages(), 4);
}

#[test]
fn bytes_fail_when_they_would_reach_the_pages() {
    let mut a = fresh();
    assert_eq!(a.alloc_pages(15, PAGE), Ok(0x10_1000));
    assert_eq!(a.alloc_bytes(0x1000, 8), Ok(0x10_0000));
    assert_eq!(a.alloc_bytes(1, 1), Err(AllocError::NoMemory));
    assert_eq!(a.used_bytes(), 0x1000);
    assert_eq!(a.available_bytes(), 0);
}

#[test]
fn pages_fail_when_they_would_reach_the_bytes() {
    let mut a = fresh();
    assert_eq!(a.alloc_bytes(0x8001, 1), Ok(0x10_0000));
    assert_eq!(a.alloc_pages(8, PAGE), Err(AllocError::NoMemory));
    assert_eq!(a.alloc_pages(7, PAGE), Ok(0x10_9000));
    assert_eq!(a.available_pages(), 0);
}

#[test]
fn freeing_every_byte_block_empties_the_byte_area() {
    let mut a = fresh();
    let p = a.alloc_bytes(100, 8).unwrap();
    let q = a.alloc_bytes(200, 8).unwrap();
    a.alloc_pages(1, PAGE).unwrap();
    a.dealloc(p, 100, 8);
    assert_eq!(a.used_bytes(), 0x68 + 200);
    a.dealloc(q, 200, 8);
    assert_eq!(a.used_bytes(), 0);
    assert_eq!(a.used_pages(), 1);
    assert_eq!(a.alloc_bytes(8, 8), Ok(0x10_0000));
}

#[test]
fn pages_are_never_given_back() {
    let mut a = fresh();
    let p = a.alloc_pages(3, PAGE).unwrap();
    a.dealloc_pages(p, 3);
    assert_eq!(a.used_pages(), 3);
    assert_eq!(a.available_pages(), 13);
}

#[test]
fn adding_memory_is_refused() {
    let mut a = fresh();
    assert_eq!(a.add_memory(0x20_0000, 0x1000), Err(AllocError::NoMemory));
    assert_eq!(a.total_bytes(), 0x10_000);
}

#[test]
fn areas_add_up_to_the_range() {
    let mut a = fresh();
    a.alloc_bytes(0x123, 4).unwrap();
    a.alloc_pages(3, PAGE).unwrap();
    let page_area = a.used_pages() * PAGE;
    assert_eq!(a.used_bytes() + a.available_bytes() + page_area, a.total_bytes());
}

#[test]
fn page_alignment_that_is_not_a_power_of_two_clears_its_bits() {
    let mut a = fresh();
    // 0x10_f000 with the bits of 0x2fff cleared.
    assert_eq!(a.alloc_pages(1, 0x3000), Ok(0x10_d000));
    assert_eq!(a.used_pages(), 3);
}

#[test]
fn a_block_at_address_zero_is_refused() {
    let mut a = EarlyAllocator::<PAGE>::new();
    assert_eq!(a.alloc_bytes(0, 1), Err(AllocError::NoMemory));
    let mut b = EarlyAllocator::<PAGE>::new();
    b.init(0, 0x1000);
    assert_eq!(b.alloc_bytes(4, 4), Err(AllocError::NoMemory));
    assert_eq!(b.used_bytes(), 0);
}
