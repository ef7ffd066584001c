use layered_alloc::allocator::{AllocError, Allocator, Layout, Resized, Slice};
use layered_alloc::bump_alloc::{self, BumpAlloc};
use layered_alloc::local_alloc::{self, LocalAlloc};
use layered_alloc::page_alloc::{whole_pages, PageAlloc};

const KIB: usize = 1 << 10;
const MIB: usize = 1 << 20;

/// A page source over made-up addresses: it hands out what it is told to,
/// or else whole pages one behind the other, a gap of one page between them.
struct Pages {
    next: usize,
    script: Vec<Result<Slice, AllocError>>,
    asked: Vec<usize>,
    given: Vec<Slice>,
    taken_back: Vec<Slice>,
}

impl Pages {
    fn starting_at(next: usize) -> Self {
        Pages::scripted_at(next, Vec::new())
    }

    fn scripted(script: Vec<Result<Slice, AllocError>>) -> Self {
        Pages::scripted_at(1 << 30, script)
    }

    fn scripted_at(next: usize, script: Vec<Result<Slice, AllocError>>) -> Self {
        Pages { next, script, asked: Vec::new(), given: Vec::new(), taken_back: Vec::new() }
    }

    fn hand_out(&mut self, size: usize) -> Result<Slice, AllocError> {
        self.asked.push(size);
        if !self.script.is_empty() {
            return self.script.remove(0);
        }
        let len = whole_pages(size).ok_or(AllocError)?;
        let page = Slice { ptr: self.next, len };
        self.next += len + 4096;
        self.given.push(page);
        Ok(page)
    }
}

impl PageAlloc for Pages {
    fn alloc_page(&mut self, size: usize) -> Result<Slice, AllocError> {
        self.hand_out(size)
    }

    fn dealloc_page(&mut self, page: Slice) {
        self.taken_back.push(page);
    }
}

impl Allocator for Pages {
    fn allocate(&mut self, layout: Layout) -> Result<Slice, AllocError> {
        self.hand_out(layout.size())
    }

    fn deallocate(&mut self, ptr: usize, layout: Layout) {
        self.taken_back.push(Slice { ptr, len: layout.size() });
    }

    fn grow(&mut self, _ptr: usize, _old: Layout, _new: Layout) -> Result<Resized, AllocError> {
        Err(AllocError)
    }

    fn shrink(&mut self, _ptr: usize, _old: Layout, _new: Layout) -> Result<Resized, AllocError> {
        Err(AllocError)
    }
}

const BASE: usize = 0x10_0000;

fn local(min_page_size: usize, free_after: usize) -> LocalAlloc<Pages> {
    let mut config = local_alloc::Config::new(Pages::starting_at(BASE));
    config.min_page_size(min_page_size).free_after(free_after);
    LocalAlloc::new(config)
}

fn layout(size: usize, align: usize) -> Layout {
    Layout::from_size_align(size, align).unwrap()
}

fn free_ranges(alloc: &LocalAlloc<Pages>, page: usize) -> Vec<Slice> {
    let mut ranges = Vec::new();
    for j in 0..alloc.free_range_count(page) {
        ranges.push(alloc.free_range(page, j));
    }
    ranges.sort_by_key(|r| r.ptr);
    ranges
}

#[test]
fn a_new_allocator_owns_nothing() {
    let alloc = local(64 * KIB, MIB);
    assert_eq!(alloc.page_count(), 0);
    assert_eq!(alloc.owned_bytes(), 0);
    assert_eq!(alloc.live_count(), 0);
    assert!(alloc.page_alloc().asked.is_empty());
}

#[test]
fn the_defaults_are_those_of_the_settings() {
    assert_eq!(local_alloc::DEFAULT_FREE_AFTER, 512 * MIB);
    assert_eq!(local_alloc::DEFAULT_MIN_PAGE_SIZE, 128 * MIB);
    assert_eq!(bump_alloc::DEFAULT_MIN_ALLOC_SIZE, 16 * MIB);
    let mut alloc = LocalAlloc::new(local_alloc::Config::new(Pages::starting_at(BASE)));
    assert_eq!(alloc.page_request(1), 128 * MIB);
    assert_eq!(alloc.page_request(129 * MIB), 129 * MIB);
    assert!(alloc.allocate(layout(8, 8)).is_ok());
    assert_eq!(alloc.page_alloc().asked, vec![128 * MIB]);
    let mut arena = BumpAlloc::new(bump_alloc::Config::new(Pages::starting_at(BASE)));
    assert!(arena.allocate(layout(8, 8)).is_ok());
    assert_eq!(arena.base_alloc().asked, vec![16 * MIB]);
}

#[test]
fn the_first_block_stands_at_the_start_of_a_new_page() {
    let mut alloc = local(64 * KIB, MIB);
    let block = alloc.allocate(layout(400, 4)).unwrap();
    assert_eq!(block, Slice { ptr: BASE, len: 400 });
    assert_eq!(alloc.page_alloc().asked, vec![64 * KIB]);
    assert_eq!(alloc.page_count(), 1);
    assert_eq!(alloc.page(0), Slice { ptr: BASE, len: 64 * KIB });
    assert_eq!(alloc.owned_bytes(), 64 * KIB);
    assert_eq!(free_ranges(&alloc, 0), vec![Slice { ptr: BASE + 400, len: 64 * KIB - 400 }]);
    assert_eq!(alloc.live_size(BASE), Some(400));
    assert_eq!(alloc.live_size(BASE + 1), None);
}

#[test]
fn a_request_above_the_minimum_asks_for_a_page_of_its_own_size() {
    let mut alloc = local(64 * KIB, MIB);
    let block = alloc.allocate(layout(100 * KIB, 8)).unwrap();
    assert_eq!(block, Slice { ptr: BASE, len: 100 * KIB });
    assert_eq!(alloc.page_alloc().asked, vec![100 * KIB]);
    assert_eq!(alloc.page(0), Slice { ptr: BASE, len: 100 * KIB });
    // the block takes the whole page: no free range is left
    assert_eq!(alloc.free_range_count(0), 0);
}

#[test]
fn the_first_range_that_fits_serves_and_its_rest_stays_free() {
    let mut alloc = local(64 * KIB, MIB);
    let a = alloc.allocate(layout(400, 4)).unwrap();
    let b = alloc.allocate(layout(400, 4)).unwrap();
    assert_eq!(a, Slice { ptr: BASE, len: 400 });
    assert_eq!(b, Slice { ptr: BASE + 400, len: 400 });
    // 800 is not a multiple of 64: the block skips to 832
    let c = alloc.allocate(layout(69, 64)).unwrap();
    assert_eq!(c, Slice { ptr: BASE + 832, len: 69 });
    assert_eq!(
        free_ranges(&alloc, 0),
        vec![
            Slice { ptr: BASE + 800, len: 32 },
            Slice { ptr: BASE + 901, len: 64 * KIB - 901 },
        ]
    );
    // what was left behind the block comes first in the search now
    assert_eq!(alloc.free_range(0, 0), Slice { ptr: BASE + 901, len: 64 * KIB - 901 });
    assert_eq!(alloc.free_range(0, 1), Slice { ptr: BASE + 800, len: 32 });
    let d = alloc.allocate(layout(8, 8)).unwrap();
    assert_eq!(d, Slice { ptr: BASE + 904, len: 8 });
    assert_eq!(
        free_ranges(&alloc, 0),
        vec![
            Slice { ptr: BASE + 800, len: 32 },
            Slice { ptr: BASE + 901, len: 3 },
            Slice { ptr: BASE + 912, len: 64 * KIB - 912 },
        ]
    );
    assert_eq!(alloc.page_count(), 1);
    assert_eq!(alloc.live_count(), 4);
}

#[test]
fn a_request_that_no_range_fits_opens_a_second_page() {
    let mut alloc = local(64 * KIB, MIB);
    let a = alloc.allocate(layout(60 * KIB, 8)).unwrap();
    let b = alloc.allocate(layout(8 * KIB, 8)).unwrap();
    assert_eq!(a.ptr, BASE);
    assert_eq!(b, Slice { ptr: BASE + 64 * KIB + 4096, len: 8 * KIB });
    assert_eq!(alloc.page_count(), 2);
    assert_eq!(alloc.owned_bytes(), 128 * KIB);
    // the older page comes first in the search
    let c = alloc.allocate(layout(KIB, 8)).unwrap();
    assert_eq!(c, Slice { ptr: BASE + 60 * KIB, len: KIB });
}

#[test]
fn a_block_given_back_merges_with_the_ranges_that_touch_it() {
    let mut alloc = local(64 * KIB, MIB);
    let l = layout(1000, 8);
    let a = alloc.allocate(l).unwrap();
    let b = alloc.allocate(l).unwrap();
    let c = alloc.allocate(l).unwrap();
    let d = alloc.allocate(l).unwrap();
    assert_eq!(d.ptr, BASE + 3000);
    let tail = Slice { ptr: BASE + 4000, len: 64 * KIB - 4000 };
    assert_eq!(free_ranges(&alloc, 0), vec![tail]);

    // no neighbour
    alloc.deallocate(b.ptr, l);
    assert_eq!(free_ranges(&alloc, 0), vec![Slice { ptr: BASE + 1000, len: 1000 }, tail]);
    // a neighbour on the right
    alloc.deallocate(a.ptr, l);
    assert_eq!(free_ranges(&alloc, 0), vec![Slice { ptr: BASE, len: 2000 }, tail]);
    // a neighbour on the right, the tail
    alloc.deallocate(d.ptr, l);
    assert_eq!(
        free_ranges(&alloc, 0),
        vec![Slice { ptr: BASE, len: 2000 }, Slice { ptr: BASE + 3000, len: 64 * KIB - 3000 }]
    );
    // neighbours on both sides: the page is whole again
    alloc.deallocate(c.ptr, l);
    assert_eq!(free_ranges(&alloc, 0), vec![Slice { ptr: BASE, len: 64 * KIB }]);
    assert_eq!(alloc.live_count(), 0);
    // and kept, for the owned bytes are not above the mark
    assert_eq!(alloc.page_count(), 1);
    assert!(alloc.page_alloc().taken_back.is_empty());
}

#[test]
fn a_block_given_back_is_no_longer_live() {
    let mut alloc = local(64 * KIB, MIB);
    let l = layout(1000, 8);
    let a = alloc.allocate(l).unwrap();
    let b = alloc.allocate(l).unwrap();
    assert_eq!(alloc.live_size(a.ptr), Some(1000));
    assert_eq!(alloc.live_count(), 2);
    alloc.deallocate(a.ptr, l);
    assert_eq!(alloc.live_size(a.ptr), None);
    assert_eq!(alloc.live_size(b.ptr), Some(1000));
    assert_eq!(alloc.live_count(), 1);
    // its bytes are free again, behind the range that was free before
    assert_eq!(alloc.free_range(0, 0), Slice { ptr: BASE + 2000, len: 64 * KIB - 2000 });
    assert_eq!(alloc.free_range(0, 1), Slice { ptr: BASE, len: 1000 });
    // the search takes the ranges in that order
    assert_eq!(alloc.allocate(layout(600, 8)), Ok(Slice { ptr: BASE + 2000, len: 600 }));
    // what is left of the first range takes its place
    assert_eq!(alloc.free_range(0, 0), Slice { ptr: BASE + 2600, len: 64 * KIB - 2600 });
    assert_eq!(alloc.free_range(0, 1), Slice { ptr: BASE, len: 1000 });
    // once that is used up, the bytes of the block serve again
    let big = alloc.allocate(layout(64 * KIB - 2600, 8)).unwrap();
    assert_eq!(big, Slice { ptr: BASE + 2600, len: 64 * KIB - 2600 });
    assert_eq!(alloc.free_range_count(0), 1);
    assert_eq!(alloc.allocate(layout(1000, 8)), Ok(Slice { ptr: a.ptr, len: 1000 }));
    assert_eq!(alloc.free_range_count(0), 0);
}

#[test]
fn a_neighbour_on_the_left_is_merged() {
    let mut alloc = local(64 * KIB, MIB);
    let l = layout(1000, 8);
    let a = alloc.allocate(l).unwrap();
    let b = alloc.allocate(l).unwrap();
    let _c = alloc.allocate(l).unwrap();
    alloc.deallocate(a.ptr, l);
    alloc.deallocate(b.ptr, l);
    assert_eq!(
        free_ranges(&alloc, 0),
        vec![Slice { ptr: BASE, len: 2000 }, Slice { ptr: BASE + 3000, len: 64 * KIB - 3000 }]
    );
}

#[test]
fn allocate_then_deallocate_leaves_the_free_ranges_as_they_were() {
    let mut alloc = local(64 * KIB, MIB);
    let keep = alloc.allocate(layout(100, 4)).unwrap();
    let hole = alloc.allocate(layout(300, 4)).unwrap();
    let _more = alloc.allocate(layout(100, 4)).unwrap();
    alloc.deallocate(hole.ptr, layout(300, 4));
    let before = free_ranges(&alloc, 0);
    let live_before = alloc.live_count();
    for align in [1usize, 2, 8, 64, 256] {
        let l = layout(69, align);
        let block = alloc.allocate(l).unwrap();
        assert_eq!(block.ptr % align, 0);
        alloc.deallocate(block.ptr, l);
        assert_eq!(free_ranges(&alloc, 0), before);
        assert_eq!(alloc.live_count(), live_before);
    }
    assert_eq!(alloc.live_size(keep.ptr), Some(100));
}

#[test]
fn empty_pages_go_back_when_the_owned_bytes_are_above_the_mark() {
    let mut alloc = local(64 * KIB, 100 * KIB);
    let l = layout(60 * KIB, 8);
    let a = alloc.allocate(l).unwrap();
    let b = alloc.allocate(l).unwrap();
    let c = alloc.allocate(l).unwrap();
    assert_eq!(alloc.page_count(), 3);
    assert_eq!(alloc.owned_bytes(), 192 * KIB);
    let first = alloc.page(0);
    let second = alloc.page(1);
    let third = alloc.page(2);

    alloc.deallocate(b.ptr, l);
    assert_eq!(alloc.page_alloc().taken_back, vec![second]);
    assert_eq!(alloc.owned_bytes(), 128 * KIB);
    assert_eq!(alloc.page_count(), 2);

    alloc.deallocate(a.ptr, l);
    assert_eq!(alloc.page_alloc().taken_back, vec![second, first]);
    assert_eq!(alloc.owned_bytes(), 64 * KIB);
    assert_eq!(alloc.page_count(), 1);
    assert_eq!(alloc.page(0), third);

    // 64 KiB owned is not above the mark of 100 KiB: the last page stays
    alloc.deallocate(c.ptr, l);
    assert_eq!(alloc.page_alloc().taken_back, vec![second, first]);
    assert_eq!(alloc.owned_bytes(), 64 * KIB);
    assert_eq!(free_ranges(&alloc, 0), vec![third]);
}

#[test]
fn repeated_cycles_stay_within_the_mark_and_one_page() {
    let free_after = 100 * KIB;
    let min_page_size = 64 * KIB;
    let mut alloc = local(min_page_size, free_after);
    let l = layout(60 * KIB, 8);
    for _ in 0..50 {
        let mut held = Vec::new();
        for _ in 0..4 {
            held.push(alloc.allocate(l).unwrap());
        }
        for block in held {
            alloc.deallocate(block.ptr, l);
        }
        assert!(alloc.owned_bytes() <= free_after + min_page_size);
    }
}

#[test]
fn a_request_fails_once_the_owned_bytes_reach_the_limit() {
    let mut config = local_alloc::Config::new(Pages::starting_at(BASE));
    config.min_page_size(64 * KIB).error_after(64 * KIB);
    let mut alloc = LocalAlloc::new(config);
    let block = alloc.allocate(layout(400, 4)).unwrap();
    assert_eq!(block.ptr, BASE);
    // 64 KiB are owned now: every request fails, even one that would fit
    assert_eq!(alloc.allocate(layout(400, 4)), Err(AllocError));
    assert_eq!(alloc.allocate(layout(0, 1)), Err(AllocError));
    assert_eq!(alloc.live_count(), 1);
}

#[test]
fn an_alignment_above_4096_is_refused() {
    let mut alloc = local(64 * KIB, MIB);
    assert_eq!(alloc.allocate(layout(400, 8192)), Err(AllocError));
    assert_eq!(alloc.allocate(layout(0, 8192)), Err(AllocError));
    assert!(alloc.page_alloc().asked.is_empty());
    let block = alloc.allocate(layout(400, 4096)).unwrap();
    assert_eq!(block, Slice { ptr: BASE, len: 400 });
    let next = alloc.allocate(layout(400, 4096)).unwrap();
    assert_eq!(next, Slice { ptr: BASE + 4096, len: 400 });
}

#[test]
fn a_request_for_no_bytes_gets_the_empty_range() {
    let mut alloc = local(64 * KIB, MIB);
    assert_eq!(alloc.allocate(layout(0, 64)), Ok(Slice { ptr: 1, len: 0 }));
    assert_eq!(alloc.page_count(), 0);
    assert_eq!(alloc.live_count(), 0);
    alloc.deallocate(1, layout(0, 64));
    alloc.dealloc(12345, 0);
    assert_eq!(alloc.page_count(), 0);
    assert!(alloc.page_alloc().asked.is_empty());
}

#[test]
fn a_failure_of_the_page_source_is_passed_on() {
    let source = Pages::scripted(vec![Err(AllocError)]);
    let mut alloc = LocalAlloc::new(local_alloc::Config::new(source));
    assert_eq!(alloc.allocate(layout(400, 4)), Err(AllocError));
    assert_eq!(alloc.page_count(), 0);
    assert_eq!(alloc.owned_bytes(), 0);
}

#[test]
fn a_page_that_cannot_be_used_is_not_taken_in() {
    let good = Slice { ptr: BASE, len: 64 * KIB };
    let script = vec![
        Ok(good),
        // not at a multiple of 4096
        Ok(Slice { ptr: BASE + (1 << 20) + 8, len: 64 * KIB }),
        // shorter than the request
        Ok(Slice { ptr: BASE + (2 << 20), len: 1000 }),
        // long enough for the block, but shorter than the page asked for
        Ok(Slice { ptr: BASE + (3 << 20), len: 61 * KIB }),
        // at the null address
        Ok(Slice { ptr: 0, len: 64 * KIB }),
        // overlapping the page owned
        Ok(Slice { ptr: BASE + 4096, len: 64 * KIB }),
        // wrapping around the end of the address space
        Ok(Slice { ptr: usize::MAX - 4095, len: 64 * KIB }),
    ];
    let mut config = local_alloc::Config::new(Pages::scripted(script));
    config.min_page_size(64 * KIB);
    let mut alloc = LocalAlloc::new(config);
    let l = layout(60 * KIB, 8);
    assert_eq!(alloc.allocate(l), Ok(Slice { ptr: BASE, len: 60 * KIB }));
    for _ in 0..6 {
        assert_eq!(alloc.allocate(l), Err(AllocError));
        assert_eq!(alloc.page_count(), 1);
        assert_eq!(alloc.owned_bytes(), 64 * KIB);
        assert_eq!(alloc.live_count(), 1);
    }
    // each of them went back to the source
    assert_eq!(
        alloc.page_alloc().taken_back,
        vec![
            Slice { ptr: BASE + (1 << 20) + 8, len: 64 * KIB },
            Slice { ptr: BASE + (2 << 20), len: 1000 },
            Slice { ptr: BASE + (3 << 20), len: 61 * KIB },
            Slice { ptr: 0, len: 64 * KIB },
            Slice { ptr: BASE + 4096, len: 64 * KIB },
            Slice { ptr: usize::MAX - 4095, len: 64 * KIB },
        ]
    );
    assert!(alloc.page_usable(Slice { ptr: BASE + (4 << 20), len: 64 * KIB }, 60 * KIB));
    assert!(!alloc.page_usable(good, 60 * KIB));
}

#[test]
fn a_page_that_is_owned_and_handed_out_again_does_not_go_back() {
    let good = Slice { ptr: BASE, len: 64 * KIB };
    let mut config = local_alloc::Config::new(Pages::scripted(vec![Ok(good), Ok(good)]));
    config.min_page_size(64 * KIB);
    let mut alloc = LocalAlloc::new(config);
    let l = layout(60 * KIB, 8);
    assert_eq!(alloc.allocate(l), Ok(Slice { ptr: BASE, len: 60 * KIB }));
    assert_eq!(alloc.allocate(l), Err(AllocError));
    assert!(alloc.page_alloc().taken_back.is_empty());
    assert_eq!(alloc.page_count(), 1);
    assert_eq!(alloc.live_size(BASE), Some(60 * KIB));
}

#[test]
fn the_answer_of_the_page_source_is_taken_or_fails_the_request() {
    let mut alloc = local(64 * KIB, MIB);
    let l = layout(400, 4096);
    assert_eq!(alloc.take_page(Err(AllocError), l), Err(AllocError));
    assert_eq!(alloc.page_count(), 0);
    // too short for the page asked for
    let short = Slice { ptr: BASE, len: 60 * KIB };
    assert_eq!(alloc.take_page(Ok(short), l), Err(AllocError));
    assert_eq!(alloc.page_alloc().taken_back, vec![short]);
    assert_eq!(alloc.page_count(), 0);
    let page = Slice { ptr: BASE + MIB, len: 64 * KIB };
    assert_eq!(alloc.take_page(Ok(page), l), Ok(Slice { ptr: BASE + MIB, len: 400 }));
    assert_eq!(alloc.page(0), page);
    assert_eq!(alloc.owned_bytes(), 64 * KIB);
    assert_eq!(alloc.free_range(0, 0), Slice { ptr: BASE + MIB + 400, len: 64 * KIB - 400 });
    assert_eq!(alloc.live_size(BASE + MIB), Some(400));
    // a second page joins the first
    let next = Slice { ptr: BASE + 2 * MIB, len: 128 * KIB };
    assert_eq!(alloc.take_page(Ok(next), l), Ok(Slice { ptr: BASE + 2 * MIB, len: 400 }));
    assert_eq!(alloc.page_count(), 2);
    assert_eq!(alloc.owned_bytes(), 192 * KIB);
    assert_eq!(alloc.page_alloc().taken_back, vec![short]);
}

#[test]
fn a_block_grows_in_place_into_all_or_a_part_of_the_range_behind_it() {
    let mut alloc = local(64 * KIB, MIB);
    let a = alloc.allocate(layout(1000, 8)).unwrap();
    let b = alloc.allocate(layout(1000, 8)).unwrap();
    let c = alloc.allocate(layout(1000, 8)).unwrap();
    alloc.deallocate(b.ptr, layout(1000, 8));
    // a part of the hole
    assert_eq!(
        alloc.grow(a.ptr, layout(1000, 8), layout(1600, 8)),
        Ok(Resized::InPlace(Slice { ptr: BASE, len: 1600 }))
    );
    assert_eq!(
        free_ranges(&alloc, 0),
        vec![
            Slice { ptr: BASE + 1600, len: 400 },
            Slice { ptr: BASE + 3000, len: 64 * KIB - 3000 },
        ]
    );
    // all that is left of it
    assert_eq!(
        alloc.grow(a.ptr, layout(1600, 8), layout(2000, 8)),
        Ok(Resized::InPlace(Slice { ptr: BASE, len: 2000 }))
    );
    assert_eq!(free_ranges(&alloc, 0), vec![Slice { ptr: BASE + 3000, len: 64 * KIB - 3000 }]);
    assert_eq!(alloc.live_size(a.ptr), Some(2000));
    assert_eq!(alloc.live_count(), 2);
    // nothing is free behind it now: the block moves, and the old one stays live
    let moved = alloc.grow(a.ptr, layout(2000, 8), layout(2500, 8)).unwrap();
    assert_eq!(moved, Resized::Moved(Slice { ptr: BASE + 3000, len: 2500 }));
    assert_eq!(alloc.live_size(a.ptr), Some(2000));
    assert_eq!(alloc.live_count(), 3);
    alloc.deallocate(a.ptr, layout(2000, 8));
    assert_eq!(alloc.live_count(), 2);
    assert_eq!(alloc.live_size(c.ptr), Some(1000));
}

#[test]
fn a_hole_that_is_too_small_makes_the_block_move() {
    let mut alloc = local(64 * KIB, MIB);
    let a = alloc.allocate(layout(1000, 8)).unwrap();
    let b = alloc.allocate(layout(1000, 8)).unwrap();
    let _c = alloc.allocate(layout(1000, 8)).unwrap();
    alloc.deallocate(b.ptr, layout(1000, 8));
    let moved = alloc.grow(a.ptr, layout(1000, 8), layout(2001, 8)).unwrap();
    assert_eq!(moved, Resized::Moved(Slice { ptr: BASE + 3000, len: 2001 }));
    assert_eq!(alloc.live_size(a.ptr), Some(1000));
}

#[test]
fn growth_is_refused_unless_the_size_grows_and_the_alignment_stays() {
    let mut alloc = local(64 * KIB, MIB);
    let a = alloc.allocate(layout(1000, 8)).unwrap();
    assert_eq!(alloc.grow(a.ptr, layout(1000, 8), layout(1000, 8)), Err(AllocError));
    assert_eq!(alloc.grow(a.ptr, layout(1000, 8), layout(500, 8)), Err(AllocError));
    assert_eq!(alloc.grow(a.ptr, layout(1000, 8), layout(2000, 16)), Err(AllocError));
    assert_eq!(alloc.grow(a.ptr, layout(1000, 8), layout(2000, 4)), Err(AllocError));
    assert_eq!(alloc.live_size(a.ptr), Some(1000));
    assert_eq!(free_ranges(&alloc, 0), vec![Slice { ptr: BASE + 1000, len: 64 * KIB - 1000 }]);
}

#[test]
fn growth_from_no_bytes_is_a_fresh_block() {
    let mut alloc = local(64 * KIB, MIB);
    let empty = alloc.allocate(layout(0, 8)).unwrap();
    let grown = alloc.grow(empty.ptr, layout(0, 8), layout(100, 8)).unwrap();
    assert_eq!(grown, Resized::Moved(Slice { ptr: BASE, len: 100 }));
    assert_eq!(alloc.live_count(), 1);
}

#[test]
fn a_block_shrinks_by_moving_to_a_new_one() {
    let mut alloc = local(64 * KIB, MIB);
    let a = alloc.allocate(layout(1000, 8)).unwrap();
    let shrunk = alloc.shrink(a.ptr, layout(1000, 8), layout(100, 8)).unwrap();
    assert_eq!(shrunk, Resized::Moved(Slice { ptr: BASE + 1000, len: 100 }));
    assert_eq!(alloc.live_size(a.ptr), Some(1000));
    assert_eq!(alloc.shrink(a.ptr, layout(1000, 8), layout(1001, 8)), Err(AllocError));
    alloc.deallocate(a.ptr, layout(1000, 8));
    assert_eq!(alloc.live_count(), 1);
}

#[test]
fn release_gives_every_page_back() {
    let mut alloc = local(64 * KIB, MIB);
    let l = layout(60 * KIB, 8);
    alloc.allocate(l).unwrap();
    alloc.allocate(l).unwrap();
    let pages = vec![alloc.page(0), alloc.page(1)];
    alloc.release();
    assert_eq!(alloc.page_count(), 0);
    assert_eq!(alloc.owned_bytes(), 0);
    assert_eq!(alloc.live_count(), 0);
    assert_eq!(alloc.page_alloc().taken_back, pages);
    // the allocator serves again, from a new page
    let again = alloc.allocate(l).unwrap();
    assert_eq!(again.ptr, alloc.page(0).ptr);
    assert_eq!(alloc.page_count(), 1);
    let source = alloc.into_page_alloc();
    assert_eq!(source.taken_back, pages);
    assert_eq!(source.given.len(), 3);
}

fn arena(min_alloc_size: usize) -> BumpAlloc<Pages> {
    let mut config = bump_alloc::Config::new(Pages::starting_at(BASE));
    config.min_alloc_size(min_alloc_size);
    BumpAlloc::new(config)
}

#[test]
fn an_arena_needs_a_block_size_above_zero() {
    let mut config = bump_alloc::Config::new(Pages::starting_at(BASE));
    assert!(config.is_valid());
    config.min_alloc_size(0);
    assert!(!config.is_valid());
    config.min_alloc_size(1);
    assert!(config.is_valid());
    let mut alloc = BumpAlloc::new(config);
    assert_eq!(alloc.checked_block_request(100), Some(100));
    assert_eq!(arena(64 * KIB).checked_block_request(1), Some(64 * KIB));
    assert_eq!(arena(64 * KIB).checked_block_request(64 * KIB + 1), Some(128 * KIB));
    assert_eq!(arena(64 * KIB).checked_block_request(usize::MAX), None);
    assert_eq!(alloc.allocate(layout(100, 4)), Ok(Slice { ptr: BASE, len: 100 }));
    assert_eq!(alloc.base_alloc().asked, vec![100]);
}

#[test]
fn a_new_arena_has_taken_nothing() {
    let alloc = arena(64 * KIB);
    assert_eq!(alloc.block_count(), 0);
    assert_eq!(alloc.taken_bytes(), 0);
    assert_eq!(alloc.current(), Slice { ptr: 1, len: 0 });
}

#[test]
fn the_arena_serves_block_after_block_and_skips_to_the_alignment() {
    let mut alloc = arena(64 * KIB);
    let a = alloc.allocate(layout(100, 4)).unwrap();
    assert_eq!(a, Slice { ptr: BASE, len: 100 });
    assert_eq!(alloc.base_alloc().asked, vec![64 * KIB]);
    assert_eq!(alloc.current(), Slice { ptr: BASE + 100, len: 64 * KIB - 100 });
    let b = alloc.allocate(layout(10, 64)).unwrap();
    // 28 bytes are skipped; the block has the length asked for
    assert_eq!(b, Slice { ptr: BASE + 128, len: 10 });
    assert_eq!(alloc.current(), Slice { ptr: BASE + 138, len: 64 * KIB - 138 });
    let c = alloc.allocate(layout(6, 1)).unwrap();
    assert_eq!(c, Slice { ptr: BASE + 138, len: 6 });
    assert_eq!(alloc.block_count(), 1);
    assert_eq!(alloc.taken_bytes(), 64 * KIB);
}

#[test]
fn the_arena_takes_a_new_block_and_gives_up_what_was_left() {
    let mut alloc = arena(64 * KIB);
    let a = alloc.allocate(layout(60 * KIB, 8)).unwrap();
    let b = alloc.allocate(layout(8 * KIB, 8)).unwrap();
    assert_eq!(a, Slice { ptr: BASE, len: 60 * KIB });
    assert_eq!(b, Slice { ptr: BASE + 64 * KIB + 4096, len: 8 * KIB });
    assert_eq!(alloc.block_count(), 2);
    assert_eq!(alloc.taken_bytes(), 128 * KIB);
    // the 4 KiB left in the first block are never used again
    let c = alloc.allocate(layout(KIB, 8)).unwrap();
    assert_eq!(c, Slice { ptr: b.ptr + 8 * KIB, len: KIB });
    // a request above the block size asks for a multiple of it
    let d = alloc.allocate(layout(100 * KIB, 8)).unwrap();
    assert_eq!(d.len, 100 * KIB);
    assert_eq!(alloc.base_alloc().asked, vec![64 * KIB, 64 * KIB, 128 * KIB]);
    assert_eq!(alloc.block_at(2).len, 128 * KIB);
}

#[test]
fn the_arena_refuses_above_the_limit_and_above_4096() {
    let mut config = bump_alloc::Config::new(Pages::starting_at(BASE));
    config.min_alloc_size(64 * KIB).error_after(64 * KIB);
    let mut alloc = BumpAlloc::new(config);
    assert_eq!(alloc.allocate(layout(8, 8192)), Err(AllocError));
    assert_eq!(alloc.allocate(layout(0, 8)), Ok(Slice { ptr: 1, len: 0 }));
    assert!(alloc.allocate(layout(8, 4096)).is_ok());
    // 64 KiB are taken now
    assert_eq!(alloc.allocate(layout(8, 8)), Err(AllocError));
    assert_eq!(alloc.allocate(layout(0, 8)), Err(AllocError));
}

#[test]
fn the_arena_fails_when_the_block_size_does_not_fit() {
    let mut alloc = arena(64 * KIB);
    assert_eq!(alloc.allocate(layout(usize::MAX - 5, 1)), Err(AllocError));
    assert!(alloc.base_alloc().asked.is_empty());
}

#[test]
fn the_arena_does_not_take_in_a_block_that_cannot_be_used() {
    let script = vec![
        Ok(Slice { ptr: BASE, len: 64 * KIB }),
        Ok(Slice { ptr: BASE + 64, len: 64 * KIB }),
        Ok(Slice { ptr: BASE + (1 << 20), len: 100 }),
        Ok(Slice { ptr: BASE + (2 << 20), len: 60 * KIB }),
        Err(AllocError),
    ];
    let mut config = bump_alloc::Config::new(Pages::scripted(script));
    config.min_alloc_size(64 * KIB);
    let mut alloc = BumpAlloc::new(config);
    assert!(alloc.allocate(layout(60 * KIB, 8)).is_ok());
    for _ in 0..4 {
        assert_eq!(alloc.allocate(layout(8 * KIB, 8)), Err(AllocError));
        assert_eq!(alloc.block_count(), 1);
        assert_eq!(alloc.taken_bytes(), 64 * KIB);
    }
    // each block that was handed out and not taken in went back to the base
    assert_eq!(
        alloc.base_alloc().taken_back,
        vec![
            Slice { ptr: BASE + 64, len: 64 * KIB },
            Slice { ptr: BASE + (1 << 20), len: 100 },
            Slice { ptr: BASE + (2 << 20), len: 60 * KIB },
        ]
    );
    let blk = Slice { ptr: BASE + (4 << 20), len: 64 * KIB };
    assert_eq!(
        alloc.take_block(Ok(blk), layout(8 * KIB, 8)),
        Ok(Slice { ptr: blk.ptr, len: 8 * KIB })
    );
    assert_eq!(alloc.current(), Slice { ptr: blk.ptr + 8 * KIB, len: 56 * KIB });
    assert_eq!(alloc.take_block(Err(AllocError), layout(8 * KIB, 8)), Err(AllocError));
    assert_eq!(alloc.block_count(), 2);
    assert_eq!(alloc.taken_bytes(), 128 * KIB);
    assert!(!alloc.block_usable(Slice { ptr: BASE, len: 64 * KIB }, 8));
    assert!(alloc.block_usable(Slice { ptr: BASE + (1 << 20), len: 64 * KIB }, 8));
}

#[test]
fn the_arena_never_takes_a_block_back() {
    let mut alloc = arena(64 * KIB);
    let a = alloc.allocate(layout(100, 4)).unwrap();
    let current = alloc.current();
    alloc.deallocate(a.ptr, layout(100, 4));
    assert_eq!(alloc.current(), current);
    let b = alloc.allocate(layout(100, 4)).unwrap();
    assert_eq!(b.ptr, BASE + 100);
    assert!(alloc.base_alloc().taken_back.is_empty());
}

#[test]
fn only_the_last_block_of_the_arena_grows_in_place() {
    let mut alloc = arena(64 * KIB);
    let a = alloc.allocate(layout(100, 4)).unwrap();
    let b = alloc.allocate(layout(100, 4)).unwrap();
    assert_eq!(alloc.grow(a.ptr, layout(100, 4), layout(200, 4)), Err(AllocError));
    assert_eq!(
        alloc.grow(b.ptr, layout(100, 4), layout(200, 4)),
        Ok(Resized::InPlace(Slice { ptr: b.ptr, len: 200 }))
    );
    assert_eq!(alloc.current(), Slice { ptr: BASE + 300, len: 64 * KIB - 300 });
    // the alignment may fall, but not rise
    assert_eq!(
        alloc.grow(b.ptr, layout(200, 4), layout(300, 2)),
        Ok(Resized::InPlace(Slice { ptr: b.ptr, len: 300 }))
    );
    assert_eq!(alloc.grow(b.ptr, layout(300, 4), layout(400, 8)), Err(AllocError));
    // a size that does not grow is refused, but for a new size of zero
    assert_eq!(alloc.grow(b.ptr, layout(300, 4), layout(300, 4)), Err(AllocError));
    assert_eq!(alloc.grow(b.ptr, layout(300, 4), layout(200, 4)), Err(AllocError));
    assert_eq!(
        alloc.grow(b.ptr, layout(300, 4), layout(0, 4)),
        Ok(Resized::InPlace(Slice { ptr: 1, len: 0 }))
    );
    // more than the current range holds
    assert_eq!(alloc.grow(b.ptr, layout(300, 4), layout(64 * KIB, 4)), Err(AllocError));
    assert_eq!(alloc.current(), Slice { ptr: BASE + 400, len: 64 * KIB - 400 });
    assert_eq!(
        alloc.grow(b.ptr, layout(300, 4), layout(64 * KIB - 100, 4)),
        Ok(Resized::InPlace(Slice { ptr: b.ptr, len: 64 * KIB - 100 }))
    );
    assert_eq!(alloc.current().len, 0);
}

#[test]
fn the_arena_shrinks_by_moving_to_a_new_block() {
    let mut alloc = arena(64 * KIB);
    let a = alloc.allocate(layout(100, 4)).unwrap();
    assert_eq!(
        alloc.shrink(a.ptr, layout(100, 4), layout(50, 4)),
        Ok(Resized::Moved(Slice { ptr: BASE + 100, len: 50 }))
    );
    assert_eq!(alloc.shrink(a.ptr, layout(100, 4), layout(101, 4)), Err(AllocError));
}

#[test]
fn release_gives_every_block_of_the_arena_back() {
    let mut alloc = arena(64 * KIB);
    alloc.allocate(layout(60 * KIB, 8)).unwrap();
    alloc.allocate(layout(60 * KIB, 8)).unwrap();
    let blocks = vec![alloc.block_at(0), alloc.block_at(1)];
    alloc.release();
    assert_eq!(alloc.block_count(), 0);
    assert_eq!(alloc.taken_bytes(), 0);
    assert_eq!(alloc.current(), Slice { ptr: 1, len: 0 });
    assert_eq!(alloc.base_alloc().taken_back, blocks);
    // the arena serves again, from a new block
    let again = alloc.allocate(layout(8, 8)).unwrap();
    assert_eq!(again.ptr, alloc.block_at(0).ptr);
    let base = alloc.into_base_alloc();
    assert_eq!(base.taken_back, blocks);
    assert_eq!(base.given.len(), 3);
}

#[test]
fn an_arena_over_a_free_list_allocator_takes_its_blocks_from_one_page() {
    let mut base_config = local_alloc::Config::new(Pages::starting_at(BASE));
    base_config.min_page_size(MIB);
    let base = LocalAlloc::new(base_config);
    let mut config = bump_alloc::Config::new(base);
    config.min_alloc_size(64 * KIB);
    let mut alloc = BumpAlloc::new(config);
    let a = alloc.allocate(layout(60 * KIB, 8)).unwrap();
    let b = alloc.allocate(layout(60 * KIB, 8)).unwrap();
    assert_eq!(a, Slice { ptr: BASE, len: 60 * KIB });
    assert_eq!(b, Slice { ptr: BASE + 64 * KIB, len: 60 * KIB });
    assert_eq!(alloc.base_alloc().page_count(), 1);
    assert_eq!(alloc.base_alloc().live_count(), 2);
    alloc.release();
    let base = alloc.into_base_alloc();
    assert_eq!(base.live_count(), 0);
    assert_eq!(base.free_range(0, 0), base.page(0));
}
