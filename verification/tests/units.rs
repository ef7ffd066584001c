use layered_alloc::allocator::{
    is_power_of_two, AllocError, Allocator, Layout, Resized, Slice, MAX_ALIGN, PAGE_ALIGN,
    SENTINEL,
};
use layered_alloc::page_alloc::dynamic_page_alloc::{
    DynamicPageAlloc, MapError, StatusError, MAPPING_UNIT, MAP_FAILED,
};
use layered_alloc::page_alloc::whole_pages;
use layered_alloc::region::is_admissible;
use layered_alloc::util::{align_offset, align_up, checked_next_multiple_of};
use layered_alloc::region::position;
use layered_alloc::valiating_alloc::{
    check_layout, first_overlap, ValidatingAllocator, ValidationError,
};

#[test]
fn test_align_up_1() {
    for ptr in 0..1024 {
        assert_eq!(align_offset(ptr, 1), 0);
    }
}

#[test]
fn align_up_gives_the_next_multiple() {
    assert_eq!(align_up(0, 8), 0);
    assert_eq!(align_up(1, 8), 8);
    assert_eq!(align_up(8, 8), 8);
    assert_eq!(align_up(9, 8), 16);
    assert_eq!(align_up(4095, 4096), 4096);
    assert_eq!(align_up(4097, 4096), 8192);
    assert_eq!(align_up(usize::MAX, 1), usize::MAX);
    assert_eq!(align_up(usize::MAX - 7, 8), usize::MAX - 7);
}

#[test]
fn align_offset_is_the_distance_to_the_next_multiple() {
    assert_eq!(align_offset(0, 16), 0);
    assert_eq!(align_offset(1, 16), 15);
    assert_eq!(align_offset(15, 16), 1);
    assert_eq!(align_offset(16, 16), 0);
    assert_eq!(align_offset(usize::MAX, 4096), 1);
    for ptr in 0..512usize {
        for pow in 0..8 {
            let align = 1usize << pow;
            let up = align_up(ptr, align);
            assert_eq!(up % align, 0);
            assert!(ptr <= up && up < ptr + align);
            assert_eq!(align_offset(ptr, align), up - ptr);
        }
    }
}

#[test]
fn rounding_up_to_a_multiple_reports_overflow() {
    assert_eq!(checked_next_multiple_of(0, 7), Some(0));
    assert_eq!(checked_next_multiple_of(1, 7), Some(7));
    assert_eq!(checked_next_multiple_of(14, 7), Some(14));
    assert_eq!(checked_next_multiple_of(15, 7), Some(21));
    assert_eq!(checked_next_multiple_of(usize::MAX, 2), None);
    assert_eq!(checked_next_multiple_of(usize::MAX, 1), Some(usize::MAX));
    assert_eq!(whole_pages(0), Some(0));
    assert_eq!(whole_pages(1), Some(4096));
    assert_eq!(whole_pages(4096), Some(4096));
    assert_eq!(whole_pages(4097), Some(8192));
    assert_eq!(whole_pages(usize::MAX), None);
}

#[test]
fn powers_of_two_are_told_apart() {
    assert!(!is_power_of_two(0));
    assert!(is_power_of_two(1));
    assert!(is_power_of_two(2));
    assert!(!is_power_of_two(3));
    assert!(is_power_of_two(4096));
    assert!(!is_power_of_two(4097));
    assert!(!is_power_of_two(6));
    assert!(is_power_of_two(1 << 40));
    assert!(!is_power_of_two(usize::MAX));
    assert!(is_power_of_two(usize::MAX / 2 + 1));
}

#[test]
fn a_layout_takes_only_a_power_of_two_as_alignment() {
    let layout = Layout::from_size_align(400, 4).unwrap();
    assert_eq!(layout.size(), 400);
    assert_eq!(layout.align(), 4);
    assert!(Layout::from_size_align(400, 0).is_none());
    assert!(Layout::from_size_align(400, 3).is_none());
    assert!(Layout::from_size_align(400, 12).is_none());
    assert!(Layout::from_size_align(0, 1).is_some());
    assert!(Layout::from_size_align(usize::MAX, 8192).is_some());
    assert_eq!(MAX_ALIGN, 4096);
    assert_eq!(PAGE_ALIGN, 4096);
}

#[test]
fn the_empty_range_stands_at_the_sentinel() {
    assert_eq!(Slice::empty(), Slice { ptr: SENTINEL, len: 0 });
    assert_eq!(SENTINEL, 1);
}

#[test]
fn ranges_overlap_when_one_starts_inside_the_other() {
    let a = Slice { ptr: 100, len: 50 };
    assert!(a.is_disjoint(&Slice { ptr: 150, len: 10 }));
    assert!(a.is_disjoint(&Slice { ptr: 90, len: 10 }));
    assert!(!a.is_disjoint(&Slice { ptr: 149, len: 10 }));
    assert!(!a.is_disjoint(&Slice { ptr: 90, len: 11 }));
    assert!(!a.is_disjoint(&Slice { ptr: 110, len: 5 }));
    assert!(!a.is_disjoint(&Slice { ptr: 0, len: 1000 }));
    assert!(!a.is_disjoint(&a));
    // the last bytes of the address space
    let top = Slice { ptr: usize::MAX - 9, len: 10 };
    assert!(top.is_disjoint(&Slice { ptr: usize::MAX - 19, len: 10 }));
    assert!(!top.is_disjoint(&Slice { ptr: usize::MAX - 19, len: 11 }));
}

#[test]
fn a_range_lies_within_another() {
    let page = Slice { ptr: 4096, len: 4096 };
    assert!(Slice { ptr: 4096, len: 4096 }.is_within(&page));
    assert!(Slice { ptr: 5000, len: 100 }.is_within(&page));
    assert!(!Slice { ptr: 4095, len: 100 }.is_within(&page));
    assert!(!Slice { ptr: 8000, len: 193 }.is_within(&page));
    assert!(Slice { ptr: 8000, len: 192 }.is_within(&page));
    assert!(!Slice { ptr: 9000, len: 1 }.is_within(&page));
    assert!(!Slice { ptr: 5000, len: usize::MAX }.is_within(&page));
}

#[test]
fn a_region_is_admitted_only_if_usable_and_clear_of_the_others() {
    let owned = vec![Slice { ptr: 4096, len: 8192 }, Slice { ptr: 1 << 20, len: 4096 }];
    let total = 8192 + 4096;
    assert!(is_admissible(&owned, total, Slice { ptr: 3 * 4096, len: 4096 }, 100));
    // too short for the request
    assert!(!is_admissible(&owned, total, Slice { ptr: 3 * 4096, len: 4096 }, 4097));
    // not at a multiple of 4096
    assert!(!is_admissible(&owned, total, Slice { ptr: 3 * 4096 + 8, len: 4096 }, 100));
    // at the null address
    assert!(!is_admissible(&owned, total, Slice { ptr: 0, len: 4096 }, 100));
    // without a byte
    assert!(!is_admissible(&owned, total, Slice { ptr: 3 * 4096, len: 0 }, 0));
    // overlapping a region owned
    assert!(!is_admissible(&owned, total, Slice { ptr: 2 * 4096, len: 4096 }, 100));
    assert!(!is_admissible(&owned, total, Slice { ptr: 4096, len: 8192 }, 100));
    // wrapping around the end of the address space
    assert!(!is_admissible(&owned, total, Slice { ptr: usize::MAX - 4095, len: 4097 }, 100));
    // more bytes than a count can hold
    assert!(!is_admissible(&owned, usize::MAX - 100, Slice { ptr: 3 * 4096, len: 4096 }, 100));
}

#[test]
fn the_mapping_size_is_a_multiple_of_2_mib() {
    assert_eq!(MAPPING_UNIT, 2 << 20);
    assert_eq!(DynamicPageAlloc::mapping_size(1), Some(2 << 20));
    assert_eq!(DynamicPageAlloc::mapping_size(2 << 20), Some(2 << 20));
    assert_eq!(DynamicPageAlloc::mapping_size((2 << 20) + 1), Some(4 << 20));
    assert_eq!(DynamicPageAlloc::mapping_size(128 << 20), Some(128 << 20));
    assert_eq!(DynamicPageAlloc::mapping_size(usize::MAX), None);
}

#[test]
fn the_answer_of_a_mapping_call_is_a_page_or_a_failure() {
    assert_eq!(MAP_FAILED, usize::MAX);
    assert_eq!(
        DynamicPageAlloc::mapped(0x7f00_0000_0000, 2 << 20),
        Ok(Slice { ptr: 0x7f00_0000_0000, len: 2 << 20 })
    );
    assert_eq!(DynamicPageAlloc::mapped(usize::MAX, 2 << 20), Err(MapError::Failed));
    assert_eq!(DynamicPageAlloc::mapped(0, 2 << 20), Err(MapError::Null));
}

#[test]
fn a_status_is_success_failure_or_unexpected() {
    assert_eq!(DynamicPageAlloc::status(0), Ok(()));
    assert_eq!(DynamicPageAlloc::status(-1), Err(StatusError::Failed));
    assert_eq!(DynamicPageAlloc::status(7), Err(StatusError::Unexpected(7)));
    assert_eq!(DynamicPageAlloc::status(-2), Err(StatusError::Unexpected(-2)));
}

#[test]
fn a_block_meets_a_layout_by_address_and_exact_length() {
    let layout = Layout::from_size_align(400, 16).unwrap();
    assert!(check_layout(Slice { ptr: 4096, len: 400 }, layout));
    assert!(!check_layout(Slice { ptr: 4100, len: 400 }, layout));
    assert!(!check_layout(Slice { ptr: 4096, len: 401 }, layout));
    assert!(!check_layout(Slice { ptr: 4096, len: 399 }, layout));
    let huge = Layout::from_size_align(32, 16).unwrap();
    assert!(!check_layout(Slice { ptr: usize::MAX - 15, len: 32 }, huge));
}

#[test]
fn the_first_overlap_and_the_first_place_are_found() {
    let alive = vec![
        Slice { ptr: 100, len: 10 },
        Slice { ptr: 200, len: 10 },
        Slice { ptr: 300, len: 10 },
    ];
    assert_eq!(first_overlap(&alive, Slice { ptr: 150, len: 10 }, None), None);
    assert_eq!(first_overlap(&alive, Slice { ptr: 205, len: 100 }, None), Some(1));
    assert_eq!(first_overlap(&alive, Slice { ptr: 205, len: 100 }, Some(1)), Some(2));
    assert_eq!(first_overlap(&alive, Slice { ptr: 205, len: 10 }, Some(1)), None);
    assert_eq!(position(&alive, Slice { ptr: 200, len: 10 }), Some(1));
    assert_eq!(position(&alive, Slice { ptr: 200, len: 11 }), None);
    assert_eq!(position(&alive, Slice { ptr: 201, len: 10 }), None);
}

/// An allocator that hands out what it is told to, right or wrong.
struct Scripted {
    answers: Vec<Result<Slice, AllocError>>,
    resizes: Vec<Result<Resized, AllocError>>,
    given_back: Vec<usize>,
}

impl Scripted {
    fn new(answers: Vec<Result<Slice, AllocError>>) -> Self {
        Scripted { answers, resizes: Vec::new(), given_back: Vec::new() }
    }
}

impl Allocator for Scripted {
    fn allocate(&mut self, _layout: Layout) -> Result<Slice, AllocError> {
        self.answers.remove(0)
    }

    fn deallocate(&mut self, ptr: usize, _layout: Layout) {
        self.given_back.push(ptr);
    }

    fn grow(&mut self, _ptr: usize, _old: Layout, _new: Layout) -> Result<Resized, AllocError> {
        self.resizes.remove(0)
    }

    fn shrink(&mut self, _ptr: usize, _old: Layout, _new: Layout) -> Result<Resized, AllocError> {
        self.resizes.remove(0)
    }
}

#[test]
fn the_wrapper_passes_a_good_block_and_keeps_it() {
    let inner = Scripted::new(vec![Ok(Slice { ptr: 4096, len: 64 })]);
    let mut alloc = ValidatingAllocator::new(inner);
    let layout = Layout::from_size_align(64, 16).unwrap();
    assert_eq!(alloc.allocate(layout), Ok(Slice { ptr: 4096, len: 64 }));
    assert_eq!(alloc.alive_count(), 1);
    assert!(alloc.is_alive(Slice { ptr: 4096, len: 64 }));
    alloc.deallocate(4096, layout);
    assert_eq!(alloc.alive_count(), 0);
    assert!(!alloc.is_alive(Slice { ptr: 4096, len: 64 }));
    assert_eq!(alloc.get_ref().given_back, vec![4096]);
}

#[test]
fn the_wrapper_reports_a_failure_of_the_wrapped_allocator() {
    let inner = Scripted::new(vec![Err(AllocError)]);
    let mut alloc = ValidatingAllocator::new(inner);
    let layout = Layout::from_size_align(64, 16).unwrap();
    assert_eq!(alloc.allocate(layout), Err(ValidationError::Alloc));
    assert_eq!(alloc.alive_count(), 0);
}

#[test]
fn the_wrapper_finds_a_misaligned_block() {
    let inner = Scripted::new(vec![Ok(Slice { ptr: 4100, len: 64 })]);
    let mut alloc = ValidatingAllocator::new(inner);
    let layout = Layout::from_size_align(64, 16).unwrap();
    assert_eq!(
        alloc.allocate(layout),
        Err(ValidationError::BadBlock(Slice { ptr: 4100, len: 64 }))
    );
    assert_eq!(alloc.alive_count(), 0);
}

#[test]
fn the_wrapper_finds_a_block_of_another_length() {
    let inner = Scripted::new(vec![Ok(Slice { ptr: 4096, len: 128 })]);
    let mut alloc = ValidatingAllocator::new(inner);
    let layout = Layout::from_size_align(64, 16).unwrap();
    assert_eq!(
        alloc.allocate(layout),
        Err(ValidationError::BadBlock(Slice { ptr: 4096, len: 128 }))
    );
}

#[test]
fn the_wrapper_finds_a_block_that_overlaps_a_live_one() {
    let inner = Scripted::new(vec![
        Ok(Slice { ptr: 4096, len: 64 }),
        Ok(Slice { ptr: 8192, len: 64 }),
        Ok(Slice { ptr: 8192 + 48, len: 64 }),
    ]);
    let mut alloc = ValidatingAllocator::new(inner);
    let layout = Layout::from_size_align(64, 16).unwrap();
    assert!(alloc.allocate(layout).is_ok());
    assert!(alloc.allocate(layout).is_ok());
    assert_eq!(
        alloc.allocate(layout),
        Err(ValidationError::Overlap(
            Slice { ptr: 8192 + 48, len: 64 },
            Slice { ptr: 8192, len: 64 }
        ))
    );
    assert_eq!(alloc.alive_count(), 2);
}

#[test]
fn the_wrapper_does_not_look_at_a_request_for_no_bytes() {
    let inner = Scripted::new(vec![Ok(Slice { ptr: 3, len: 0 })]);
    let mut alloc = ValidatingAllocator::new(inner);
    let zero = Layout::from_size_align(0, 16).unwrap();
    assert_eq!(alloc.allocate(zero), Ok(Slice { ptr: 3, len: 0 }));
    assert_eq!(alloc.alive_count(), 0);
    alloc.deallocate(3, zero);
    assert_eq!(alloc.get_ref().given_back, vec![3]);
}

#[test]
fn the_wrapper_tells_a_block_that_is_live_from_one_that_is_not() {
    let inner = Scripted::new(vec![Ok(Slice { ptr: 4096, len: 64 })]);
    let mut alloc = ValidatingAllocator::new(inner);
    let layout = Layout::from_size_align(64, 16).unwrap();
    assert!(!alloc.is_alive(Slice { ptr: 4096, len: 64 }));
    assert!(alloc.allocate(layout).is_ok());
    assert!(alloc.is_alive(Slice { ptr: 4096, len: 64 }));
    // another address, or the right address with another size, names no live block
    assert!(!alloc.is_alive(Slice { ptr: 8192, len: 64 }));
    assert!(!alloc.is_alive(Slice { ptr: 4096, len: 32 }));
    assert!(!alloc.is_alive(Slice { ptr: 4097, len: 63 }));
    alloc.deallocate(4096, layout);
    // and a block that was passed back is live no more
    assert!(!alloc.is_alive(Slice { ptr: 4096, len: 64 }));
    assert_eq!(alloc.alive_count(), 0);
    assert_eq!(alloc.get_ref().given_back, vec![4096]);
}

#[test]
fn passing_a_block_back_keeps_every_other_entry() {
    let inner = Scripted::new(vec![
        Ok(Slice { ptr: 4096, len: 64 }),
        Ok(Slice { ptr: 8192, len: 64 }),
        Ok(Slice { ptr: 12288, len: 64 }),
    ]);
    let mut alloc = ValidatingAllocator::new(inner);
    let layout = Layout::from_size_align(64, 16).unwrap();
    for _ in 0..3 {
        assert!(alloc.allocate(layout).is_ok());
    }
    alloc.deallocate(4096, layout);
    assert_eq!(alloc.alive_count(), 2);
    assert!(alloc.is_alive(Slice { ptr: 8192, len: 64 }));
    assert!(alloc.is_alive(Slice { ptr: 12288, len: 64 }));
    alloc.deallocate(12288, layout);
    assert_eq!(alloc.alive_count(), 1);
    assert!(alloc.is_alive(Slice { ptr: 8192, len: 64 }));
}

fn wrapper_with_two_blocks(
    resizes: Vec<Result<Resized, AllocError>>,
) -> ValidatingAllocator<Scripted> {
    let mut inner =
        Scripted::new(vec![Ok(Slice { ptr: 4096, len: 64 }), Ok(Slice { ptr: 8192, len: 64 })]);
    inner.resizes = resizes;
    let mut alloc = ValidatingAllocator::new(inner);
    let layout = Layout::from_size_align(64, 16).unwrap();
    assert!(alloc.allocate(layout).is_ok());
    assert!(alloc.allocate(layout).is_ok());
    alloc
}

#[test]
fn a_block_grown_in_place_takes_the_place_of_the_old_one() {
    let grown = Resized::InPlace(Slice { ptr: 4096, len: 128 });
    let mut alloc = wrapper_with_two_blocks(vec![Ok(grown)]);
    let old = Layout::from_size_align(64, 16).unwrap();
    let new = Layout::from_size_align(128, 16).unwrap();
    assert_eq!(alloc.grow(4096, old, new), Ok(grown));
    assert_eq!(alloc.alive_count(), 2);
    assert!(alloc.is_alive(Slice { ptr: 4096, len: 128 }));
    assert!(!alloc.is_alive(Slice { ptr: 4096, len: 64 }));
}

#[test]
fn a_block_that_moved_joins_the_old_one_until_that_is_passed_back() {
    let moved = Resized::Moved(Slice { ptr: 16384, len: 128 });
    let mut alloc = wrapper_with_two_blocks(vec![Ok(moved)]);
    let old = Layout::from_size_align(64, 16).unwrap();
    let new = Layout::from_size_align(128, 16).unwrap();
    assert_eq!(alloc.grow(4096, old, new), Ok(moved));
    assert_eq!(alloc.alive_count(), 3);
    assert!(alloc.is_alive(Slice { ptr: 4096, len: 64 }));
    assert!(alloc.is_alive(Slice { ptr: 16384, len: 128 }));
    alloc.deallocate(4096, old);
    assert_eq!(alloc.alive_count(), 2);
    assert!(!alloc.is_alive(Slice { ptr: 4096, len: 64 }));
    assert!(alloc.is_alive(Slice { ptr: 16384, len: 128 }));
    assert!(alloc.is_alive(Slice { ptr: 8192, len: 64 }));
}

#[test]
fn a_failed_resize_leaves_the_list_as_it_was() {
    let mut alloc = wrapper_with_two_blocks(vec![Err(AllocError), Err(AllocError)]);
    let old = Layout::from_size_align(64, 16).unwrap();
    let new = Layout::from_size_align(128, 16).unwrap();
    assert_eq!(alloc.grow(4096, old, new), Err(ValidationError::Alloc));
    assert_eq!(alloc.shrink(4096, old, old), Err(ValidationError::Alloc));
    assert_eq!(alloc.alive_count(), 2);
    assert!(alloc.is_alive(Slice { ptr: 4096, len: 64 }));
}

#[test]
fn a_block_grown_in_place_into_its_neighbour_is_found() {
    let grown = Resized::InPlace(Slice { ptr: 4096, len: 4097 });
    let mut alloc = wrapper_with_two_blocks(vec![Ok(grown)]);
    let old = Layout::from_size_align(64, 16).unwrap();
    let new = Layout::from_size_align(4097, 16).unwrap();
    assert_eq!(
        alloc.grow(4096, old, new),
        Err(ValidationError::Overlap(
            Slice { ptr: 4096, len: 4097 },
            Slice { ptr: 8192, len: 64 }
        ))
    );
    // the old block is gone from the wrapped allocator, so it leaves the list
    assert_eq!(alloc.alive_count(), 1);
    assert!(alloc.is_alive(Slice { ptr: 8192, len: 64 }));
}

#[test]
fn a_block_said_to_stand_in_place_has_to_start_where_the_old_one_did() {
    let grown = Resized::InPlace(Slice { ptr: 16384, len: 128 });
    let mut alloc = wrapper_with_two_blocks(vec![Ok(grown)]);
    let old = Layout::from_size_align(64, 16).unwrap();
    let new = Layout::from_size_align(128, 16).unwrap();
    assert_eq!(
        alloc.grow(4096, old, new),
        Err(ValidationError::BadBlock(Slice { ptr: 16384, len: 128 }))
    );
    assert_eq!(alloc.alive_count(), 1);
}

#[test]
fn a_block_shrunk_in_place_takes_the_place_of_the_old_one() {
    let shrunk = Resized::InPlace(Slice { ptr: 8192, len: 16 });
    let mut alloc = wrapper_with_two_blocks(vec![Ok(shrunk)]);
    let old = Layout::from_size_align(64, 16).unwrap();
    let new = Layout::from_size_align(16, 16).unwrap();
    assert_eq!(alloc.shrink(8192, old, new), Ok(shrunk));
    assert_eq!(alloc.alive_count(), 2);
    assert!(alloc.is_alive(Slice { ptr: 8192, len: 16 }));
}

#[test]
fn a_resize_to_no_bytes_is_not_looked_at() {
    let gone = Resized::InPlace(Slice::empty());
    let moved = Resized::Moved(Slice { ptr: 7, len: 0 });
    let mut alloc = wrapper_with_two_blocks(vec![Ok(gone), Ok(moved)]);
    let old = Layout::from_size_align(64, 16).unwrap();
    let new = Layout::from_size_align(0, 16).unwrap();
    assert_eq!(alloc.shrink(8192, old, new), Ok(gone));
    assert_eq!(alloc.alive_count(), 2);
    assert!(alloc.is_alive(Slice { ptr: 8192, len: 64 }));
    assert_eq!(alloc.grow(4096, old, new), Ok(moved));
    assert_eq!(alloc.alive_count(), 2);
    assert!(alloc.is_alive(Slice { ptr: 4096, len: 64 }));
}

#[test]
fn a_block_grown_from_no_bytes_joins_the_list() {
    let fresh = Resized::InPlace(Slice { ptr: 16384, len: 128 });
    let mut alloc = wrapper_with_two_blocks(vec![Ok(fresh)]);
    let old = Layout::from_size_align(0, 16).unwrap();
    let new = Layout::from_size_align(128, 16).unwrap();
    assert_eq!(alloc.grow(1, old, new), Ok(fresh));
    assert_eq!(alloc.alive_count(), 3);
    assert!(alloc.is_alive(Slice { ptr: 16384, len: 128 }));
}
