//! The free-list allocator: it carves blocks out of pages, keeps the unused
//! ranges of each page, merges ranges that touch when a block comes back,
//! and returns empty pages to their source.

use crate::allocator::{
    block, lemma_page_aligned_is_aligned, AllocError, Allocator, Layout, Resized, Slice,
    MAX_ALIGN, SENTINEL,
};
use crate::free_list::{
    has_room, lemma_room_after_place, lemma_room_after_release, lemma_room_fits,
    carve, clear_of, fits, is_coalesced, is_first_fit, is_whole_free, lemma_drop_page,
    lemma_grow_in_place, lemma_idle_footprint, lemma_live_blocks_disjoint, lemma_open_page,
    lemma_open_page_then_release, lemma_page_index, lemma_place_then_release,
    lemma_place, lemma_release, merged, no_fit, placed, range_ending_at, range_starting_at,
    ranges_ok, separated, touches, Books,
};
use crate::page_alloc::PageAlloc;
use crate::region::{
    is_admissible, lemma_swap_removed, lemma_swap_removed_set, lemma_total_len_bounds,
    lemma_update_set, page_ok, position, swap_removed,
};
use crate::util::align_offset;
use vstd::prelude::*;

verus! {

/// Owned bytes above which empty pages are returned, unless configured: 512 MiB.
pub const DEFAULT_FREE_AFTER: usize = 0x2000_0000;

/// The smallest page asked for, unless configured: 128 MiB.
pub const DEFAULT_MIN_PAGE_SIZE: usize = 0x0800_0000;

/// The settings of a [`LocalAlloc`].
pub struct Config<P: PageAlloc> {
    page_alloc: P,
    free_after: usize,
    error_after: usize,
    min_page_size: usize,
}

impl<P: PageAlloc> Config<P> {
    /// The page source.
    pub closed spec fn spec_page_alloc(&self) -> P {
        self.page_alloc
    }

    /// Owned bytes above which empty pages are returned to the source.
    pub closed spec fn spec_free_after(&self) -> usize {
        self.free_after
    }

    /// Owned bytes from which on every request fails.
    pub closed spec fn spec_error_after(&self) -> usize {
        self.error_after
    }

    /// The smallest page asked for.
    pub closed spec fn spec_min_page_size(&self) -> usize {
        self.min_page_size
    }

    /// The default settings over `page_alloc`: empty pages are returned above
    /// 512 MiB, no limit on owned bytes, pages of at least 128 MiB.
    pub fn new(page_alloc: P) -> (res: Self)
        ensures
            res.spec_page_alloc() == page_alloc,
            res.spec_free_after() == DEFAULT_FREE_AFTER,
            res.spec_error_after() == usize::MAX,
            res.spec_min_page_size() == DEFAULT_MIN_PAGE_SIZE,
    {
        Config {
            page_alloc,
            free_after: DEFAULT_FREE_AFTER,
            error_after: usize::MAX,
            min_page_size: DEFAULT_MIN_PAGE_SIZE,
        }
    }

    /// Sets the number of owned bytes above which empty pages are returned.
    pub fn free_after(&mut self, free_after: usize) -> (res: &mut Self)
        ensures
            res.spec_free_after() == free_after,
            res.spec_page_alloc() == old(self).spec_page_alloc(),
            res.spec_error_after() == old(self).spec_error_after(),
            res.spec_min_page_size() == old(self).spec_min_page_size(),
            *final(self) == *final(res),
    {
        self.free_after = free_after;
        self
    }

    /// Sets the number of owned bytes from which on every request fails.
    pub fn error_after(&mut self, error_after: usize) -> (res: &mut Self)
        ensures
            res.spec_error_after() == error_after,
            res.spec_page_alloc() == old(self).spec_page_alloc(),
            res.spec_free_after() == old(self).spec_free_after(),
            res.spec_min_page_size() == old(self).spec_min_page_size(),
            *final(self) == *final(res),
    {
        self.error_after = error_after;
        self
    }

    /// Sets the smallest page asked for.
    pub fn min_page_size(&mut self, min_page_size: usize) -> (res: &mut Self)
        ensures
            res.spec_min_page_size() == min_page_size,
            res.spec_page_alloc() == old(self).spec_page_alloc(),
            res.spec_free_after() == old(self).spec_free_after(),
            res.spec_error_after() == old(self).spec_error_after(),
            *final(self) == *final(res),
    {
        self.min_page_size = min_page_size;
        self
    }
}

/// A free-list allocator over the pages of `P`.
pub struct LocalAlloc<P: PageAlloc> {
    page_alloc: P,
    pages: Vec<Slice>,
    free_list: Vec<Vec<Slice>>,
    free_after: usize,
    error_after: usize,
    min_page_size: usize,
    total_page_size: usize,
    ptr_to_size: Vec<Slice>,
}

impl<P: PageAlloc> LocalAlloc<P> {
    /// The books: the pages, the free ranges of each, and the live blocks.
    pub closed spec fn view(&self) -> Books {
        Books {
            pages: self.pages@,
            free: Seq::new(self.free_list@.len(), |i: int| self.free_list@[i]@),
            live: self.ptr_to_size@.to_set(),
        }
    }

    /// The page source.
    pub closed spec fn spec_page_alloc(&self) -> P {
        self.page_alloc
    }

    /// Owned bytes above which empty pages are returned to the source.
    pub closed spec fn spec_free_after(&self) -> usize {
        self.free_after
    }

    /// Owned bytes from which on every request fails.
    pub closed spec fn spec_error_after(&self) -> usize {
        self.error_after
    }

    /// The smallest page asked for.
    pub closed spec fn spec_min_page_size(&self) -> usize {
        self.min_page_size
    }

    /// The count of owned bytes that the allocator keeps.
    pub closed spec fn spec_owned_bytes(&self) -> usize {
        self.total_page_size
    }

    /// The record of the live blocks names each of them once.
    pub closed spec fn records_ok(&self) -> bool {
        self.ptr_to_size@.no_duplicates()
    }

    /// The settings and the page source are those of `other`.
    pub open spec fn same_setup(&self, other: &Self) -> bool {
        &&& self.spec_page_alloc() == other.spec_page_alloc()
        &&& self.spec_free_after() == other.spec_free_after()
        &&& self.spec_error_after() == other.spec_error_after()
        &&& self.spec_min_page_size() == other.spec_min_page_size()
    }

    /// An allocator that owns no page yet.
    pub fn new(config: Config<P>) -> (res: Self)
        requires
            config.spec_page_alloc().wf(),
        ensures
            res.wf(),
            res@.pages == Seq::<Slice>::empty(),
            res@.free == Seq::<Seq<Slice>>::empty(),
            res@.live == Set::<Slice>::empty(),
            res.spec_owned_bytes() == 0,
            res.spec_page_alloc() == config.spec_page_alloc(),
            res.spec_free_after() == config.spec_free_after(),
            res.spec_error_after() == config.spec_error_after(),
            res.spec_min_page_size() == config.spec_min_page_size(),
    {
        let res = LocalAlloc {
            page_alloc: config.page_alloc,
            free_after: config.free_after,
            error_after: config.error_after,
            min_page_size: config.min_page_size,
            free_list: Vec::new(),
            pages: Vec::new(),
            total_page_size: 0,
            ptr_to_size: Vec::new(),
        };
        assert(res@.free =~= Seq::<Seq<Slice>>::empty());
        assert(res@.live =~= Set::<Slice>::empty());
        res
    }

    /// Serves the request from the first free range that fits it, searching
    /// the pages in order and the ranges of each page in order. What is left
    /// of the range in front of the block and behind it stays free.
    pub fn try_alloc_in_existing_pages(&mut self, layout: Layout) -> (res: Option<Slice>)
        requires
            old(self).wf(),
            layout.size() > 0,
        ensures
            final(self).wf(),
            final(self).same_setup(old(self)),
            final(self).spec_owned_bytes() == old(self).spec_owned_bytes(),
            match res {
                Some(s) => exists|i: int, j: int|
                    {
                        &&& #[trigger] is_first_fit(
                            old(self)@.free,
                            i,
                            j,
                            layout.size(),
                            layout.align(),
                        )
                        &&& s == placed(old(self)@.free[i][j], layout.size(), layout.align())
                        &&& final(self)@ == old(self)@.place(i, j, layout.size(), layout.align())
                    },
                None => no_fit(old(self)@.free, layout.size(), layout.align()) && final(self)@
                    == old(self)@,
            },
            res matches Some(s) ==> {
                &&& s.len == layout.size()
                &&& s.ptr % layout.align() == 0
                &&& s.ptr > 0
                &&& !old(self)@.live.contains(s)
                &&& forall|b: Slice| #[trigger] old(self)@.live.contains(b) ==> b.disjoint(s)
            },
    {
        let size = layout.size();
        let align = layout.align();
        let ghost before = *self;
        let mut i: usize = 0;
        while i < self.free_list.len()
            invariant
                *self == before,
                before == *old(self),
                before.wf(),
                size == layout.size(),
                align == layout.align(),
                size > 0,
                align > 0,
                0 <= i <= self.free_list.len(),
                forall|i2: int, j2: int|
                    0 <= i2 < i && 0 <= j2 < before@.free[i2].len() ==> !fits(
                        #[trigger] before@.free[i2][j2],
                        size,
                        align,
                    ),
            decreases self.free_list.len() - i,
        {
            let mut j: usize = 0;
            while j < self.free_list[i].len()
                invariant
                    *self == before,
                    before == *old(self),
                    before.wf(),
                    size == layout.size(),
                    align == layout.align(),
                    size > 0,
                    align > 0,
                    0 <= i < self.free_list.len(),
                    0 <= j <= self.free_list[i as int].len(),
                    forall|i2: int, j2: int|
                        0 <= i2 < i && 0 <= j2 < before@.free[i2].len() ==> !fits(
                            #[trigger] before@.free[i2][j2],
                            size,
                            align,
                        ),
                    forall|j2: int|
                        0 <= j2 < j ==> !fits(#[trigger] before@.free[i as int][j2], size, align),
                decreases self.free_list[i as int].len() - j,
            {
                let r = self.free_list[i][j];
                let pad = align_offset(r.ptr, align);
                assert(r == before@.free[i as int][j as int]);
                if r.len >= pad && r.len - pad >= size {
                    proof {
                        assert(fits(r, size, align));
                        assert(is_first_fit(before@.free, i as int, j as int, size, align));
                        lemma_place(before@, i as int, j as int, size, align);
                    }
                    if pad > 0 {
                        self.free_list[i].push(Slice { ptr: r.ptr, len: pad });
                    }
                    if r.len - pad > size {
                        self.free_list[i].push(
                            Slice { ptr: r.ptr + pad + size, len: r.len - pad - size },
                        );
                    }
                    self.free_list[i].swap_remove(j);
                    let s = Slice { ptr: r.ptr + pad, len: size };
                    self.ptr_to_size.push(s);
                    proof {
                        let target = before@.place(i as int, j as int, size, align);
                        assert(s == placed(r, size, align));
                        assert(self.free_list@[i as int]@ == carve(
                            before@.free[i as int],
                            j as int,
                            size,
                            align,
                        ));
                        assert(self@.free =~= target.free);
                        before.ptr_to_size@.lemma_push_to_set_commute(s);
                        assert(self@.live =~= target.live);
                        assert(self@ == target);
                    }
                    return Some(s);
                }
                j += 1;
            }
            i += 1;
        }
        None
    }
}

impl<P: PageAlloc> LocalAlloc<P> {
    /// Whether `page` can be taken in to serve `size` bytes.
    pub fn page_usable(&self, page: Slice, size: usize) -> (res: bool)
        requires
            self.wf(),
        ensures
            res == self@.accepts(page, size),
    {
        is_admissible(&self.pages, self.total_page_size, page, size)
    }

    /// Takes `page` in and serves the request from its first bytes. The rest
    /// of the page, if any, becomes its one free range.
    pub fn alloc_in_new_page(&mut self, page: Slice, layout: Layout) -> (res: Slice)
        requires
            old(self).wf(),
            layout.size() > 0,
            layout.align() <= MAX_ALIGN,
            old(self)@.accepts(page, layout.size()),
            old(self).spec_page_alloc().owns(page),
        ensures
            final(self).wf(),
            final(self).same_setup(old(self)),
            final(self)@ == old(self)@.open_page(page, layout.size()),
            final(self).spec_owned_bytes() == old(self).spec_owned_bytes() + page.len,
            res == block(page.ptr, layout.size()),
            res.ptr % layout.align() == 0,
            !old(self)@.live.contains(res),
            forall|b: Slice| #[trigger] old(self)@.live.contains(b) ==> b.disjoint(res),
    {
        let size = layout.size();
        let align = layout.align();
        let ghost before = *self;
        proof {
            lemma_open_page(before@, page, size);
            lemma_page_aligned_is_aligned(page.ptr as int, align as int);
        }
        self.pages.push(page);
        self.total_page_size = self.total_page_size + page.len;
        let mut free_ranges: Vec<Slice> = Vec::new();
        if size < page.len {
            free_ranges.push(Slice { ptr: page.ptr + size, len: page.len - size });
        }
        self.free_list.push(free_ranges);
        let res = Slice { ptr: page.ptr, len: size };
        self.ptr_to_size.push(res);
        proof {
            let target = before@.open_page(page, size);
            assert(self@.free =~= target.free);
            before.ptr_to_size@.lemma_push_to_set_commute(res);
            assert(self@.live =~= target.live);
            assert(self@ == target);
        }
        res
    }

    /// `res` is what comes of the answer `answer` of the page source to a
    /// request for a page to serve `layout`, and `after` is the allocator
    /// that has dealt with it.
    ///
    /// A page that the books accept, for the number of bytes that
    /// `page_request` names, is taken in, and its first bytes serve the
    /// request. Any other answer fails the request and leaves the books as
    /// they were.
    pub open spec fn page_taken(
        &self,
        after: &Self,
        layout: Layout,
        answer: Result<Slice, AllocError>,
        res: Result<Slice, AllocError>,
    ) -> bool {
        &&& after.same_limits(self)
        &&& match answer {
            Ok(page) => if self@.accepts(page, self.page_request(layout.size())) {
                &&& res == Ok::<Slice, AllocError>(block(page.ptr, layout.size()))
                &&& page.ptr % layout.align() == 0
                &&& after@ == self@.open_page(page, layout.size())
                &&& after.spec_page_alloc() == self.spec_page_alloc()
            } else {
                res is Err && after@ == self@
            },
            Err(_) => res is Err && after@ == self@ && after.spec_page_alloc()
                == self.spec_page_alloc(),
        }
    }

    /// Deals with the answer of the page source to a request for a page to
    /// serve `layout`: a page that the books accept is taken in and serves
    /// the request from its first bytes; a page that they do not accept goes
    /// back to the source, unless it is one that is owned.
    pub fn take_page(&mut self, answer: Result<Slice, AllocError>, layout: Layout) -> (res: Result<
        Slice,
        AllocError,
    >)
        requires
            old(self).wf(),
            layout.size() > 0,
            layout.align() <= MAX_ALIGN,
            answer matches Ok(page) ==> old(self).spec_page_alloc().owns(page),
        ensures
            final(self).wf(),
            old(self).page_taken(final(self), layout, answer, res),
    {
        match answer {
            Ok(page) => {
                if self.page_usable(page, self.page_request(layout.size())) {
                    Ok(self.alloc_in_new_page(page, layout))
                } else {
                    if position(&self.pages, page).is_none() {
                        self.page_alloc.dealloc_page(page);
                    }
                    Err(AllocError)
                }
            },
            Err(e) => Err(e),
        }
    }

    /// The length of the live block that starts at `ptr`, if there is one.
    pub fn live_size(&self, ptr: usize) -> (res: Option<usize>)
        requires
            self.wf(),
        ensures
            match res {
                Some(len) => self@.live.contains(block(ptr, len)),
                None => !self@.live_at(ptr),
            },
    {
        let mut idx: usize = 0;
        while idx < self.ptr_to_size.len()
            invariant
                0 <= idx <= self.ptr_to_size.len(),
                forall|k: int| 0 <= k < idx ==> (#[trigger] self.ptr_to_size@[k]).ptr != ptr,
            decreases self.ptr_to_size.len() - idx,
        {
            let entry = self.ptr_to_size[idx];
            if entry.ptr == ptr {
                assert(self.ptr_to_size@.contains(entry));
                return Some(entry.len);
            }
            idx += 1;
        }
        proof {
            if self@.live_at(ptr) {
                let len = choose|len: usize| self@.live.contains(#[trigger] block(ptr, len));
                let k = choose|k: int|
                    0 <= k < self.ptr_to_size@.len() && self.ptr_to_size@[k] == block(ptr, len);
                assert(self.ptr_to_size@[k].ptr == ptr);
            }
        }
        None
    }

    /// The place of the live block that starts at `ptr` in the record.
    fn record_index(&self, ptr: usize) -> (idx: usize)
        requires
            self.wf(),
            self@.live_at(ptr),
        ensures
            idx < self.ptr_to_size@.len(),
            self.ptr_to_size@[idx as int] == self@.block_at(ptr),
            self@.live.contains(self@.block_at(ptr)),
    {
        proof {
            let len = choose|len: usize| self@.live.contains(#[trigger] block(ptr, len));
            assert(self@.block_at(ptr) == block(ptr, len));
            let k = choose|k: int|
                0 <= k < self.ptr_to_size@.len() && self.ptr_to_size@[k] == block(ptr, len);
            assert(self.ptr_to_size@[k].ptr == ptr);
        }
        let mut idx: usize = 0;
        while self.ptr_to_size[idx].ptr != ptr
            invariant
                0 <= idx < self.ptr_to_size.len(),
                exists|k: int|
                    idx <= k < self.ptr_to_size@.len() && (#[trigger] self.ptr_to_size@[k]).ptr
                        == ptr,
            decreases self.ptr_to_size.len() - idx,
        {
            idx += 1;
        }
        proof {
            let found = self.ptr_to_size@[idx as int];
            assert(self.ptr_to_size@.contains(found));
            lemma_live_blocks_disjoint(self@, found, self@.block_at(ptr));
        }
        idx
    }

    /// The place of the page in which the live block `b` lies.
    fn page_of(&self, b: Slice) -> (i: usize)
        requires
            self.wf(),
            self@.live.contains(b),
        ensures
            i == self@.page_index(b),
            i < self@.pages.len(),
            b.within(self@.pages[i as int]),
    {
        proof {
            lemma_page_index(self@, b, 0);
        }
        let mut i: usize = 0;
        while !b.is_within(&self.pages[i])
            invariant
                0 <= i < self.pages.len(),
                exists|k: int| i <= k < self.pages@.len() && b.within(#[trigger] self.pages@[k]),
            decreases self.pages.len() - i,
        {
            i += 1;
        }
        proof {
            lemma_page_index(self@, b, i as int);
        }
        i
    }

    /// Takes back the block that starts at `ptr`, whatever `size` is, unless
    /// `size` is zero: the block becomes a free range of its page, merged with
    /// the free ranges that touch it. Then, if the owned bytes are above the
    /// configured mark, the pages that are wholly free go back to the source.
    pub fn dealloc(&mut self, ptr: usize, size: usize)
        requires
            old(self).wf(),
            size > 0 ==> old(self)@.live_at(ptr),
        ensures
            final(self).wf(),
            old(self).took_back(final(self), ptr, size),
    {
        if size == 0 {
            return ;
        }
        let ghost before = self@;
        let idx = self.record_index(ptr);
        let b = self.ptr_to_size[idx];
        let i = self.page_of(b);
        proof {
            lemma_swap_removed_set(self.ptr_to_size@, idx as int);
            assert(ranges_ok(before.pages[i as int], before.free[i as int]));
            assert(clear_of(before.live, before.free[i as int]));
            assert(page_ok(before.pages[i as int]));
            assert forall|j: int| 0 <= j < before.free[i as int].len() implies (
            #[trigger] before.free[i as int][j]).disjoint(b) by {
                assert(b.disjoint(before.free[i as int][j]));
            }
        }
        self.ptr_to_size.swap_remove(idx);
        coalesce(&mut self.free_list[i], b);
        proof {
            let mid = self@;
            assert(mid.free.len() == before.free.len());
            assert forall|k: int| 0 <= k < before.free.len() && k != i implies #[trigger] mid.free[k]
                == before.free[k] by {}
            assert(before.released(b, mid));
            lemma_release(before, b, mid);
        }
        self.free_pages_if_needed();
    }

    /// Gives the pages that are wholly free back to the source, if the owned
    /// bytes are above the configured mark.
    pub fn free_pages_if_needed(&mut self)
        requires
            old(self).wf(),
        ensures
            final(self).wf(),
            final(self).same_limits(old(self)),
            if old(self).spec_free_after() >= old(self).spec_owned_bytes() {
                &&& final(self)@ == old(self)@
                &&& final(self).spec_page_alloc() == old(self).spec_page_alloc()
            } else {
                old(self)@.swept(final(self)@)
            },
    {
        if self.free_after >= self.total_page_size {
            return ;
        }
        let ghost before = self@;
        let mut page_index: usize = 0;
        while page_index < self.pages.len()
            invariant
                self.wf(),
                self.same_limits(old(self)),
                self@.live == before.live,
                0 <= page_index <= self.pages.len(),
                forall|page: Slice, ranges: Seq<Slice>| #[trigger]
                    self@.has_page(page, ranges) ==> before.has_page(page, ranges),
                forall|page: Slice, ranges: Seq<Slice>|
                    #[trigger] before.has_page(page, ranges) && !is_whole_free(page, ranges)
                        ==> self@.has_page(page, ranges),
                forall|k: int|
                    0 <= k < page_index ==> !is_whole_free(
                        #[trigger] self@.pages[k],
                        self@.free[k],
                    ),
            decreases self.pages.len() - page_index,
        {
            let page = self.pages[page_index];
            let whole_free = self.free_list[page_index].len() == 1 && self.free_list[page_index][0].ptr
                == page.ptr && self.free_list[page_index][0].len == page.len;
            proof {
                assert(self@.free[page_index as int] == self.free_list@[page_index as int]@);
                assert(whole_free == is_whole_free(
                    self@.pages[page_index as int],
                    self@.free[page_index as int],
                ));
            }
            if whole_free {
                let ghost cur = self@;
                proof {
                    lemma_drop_page(cur, page_index as int);
                    lemma_total_len_bounds(cur.pages, page_index as int);
                    lemma_swap_removed(cur.pages, page_index as int);
                    lemma_swap_removed(cur.free, page_index as int);
                    assert(self.spec_page_alloc().owns(cur.pages[page_index as int]));
                }
                self.pages.swap_remove(page_index);
                self.free_list.swap_remove(page_index);
                self.total_page_size = self.total_page_size - page.len;
                proof {
                    assert(self@.free =~= swap_removed(cur.free, page_index as int));
                    assert(self@.pages == swap_removed(cur.pages, page_index as int));
                    assert forall|k: int| 0 <= k < self@.pages.len() implies self.spec_page_alloc().owns(
                        #[trigger] self@.pages[k],
                    ) && self@.pages[k] != page by {
                        let src = if k == page_index {
                            cur.pages.len() - 1
                        } else {
                            k
                        };
                        assert(self@.pages[k] == cur.pages[src]);
                    }
                }
                self.page_alloc.dealloc_page(page);
                proof {
                    let now = self@;
                    assert forall|p: Slice, ranges: Seq<Slice>| #[trigger]
                        now.has_page(p, ranges) implies before.has_page(p, ranges) by {
                        let k = choose|k: int|
                            0 <= k < now.pages.len() && #[trigger] now.pages[k] == p && now.free[k]
                                == ranges;
                        let src = if k == page_index {
                            cur.pages.len() - 1
                        } else {
                            k
                        };
                        assert(cur.pages[src] == p && cur.free[src] == ranges);
                        assert(cur.has_page(p, ranges));
                    }
                    assert forall|p: Slice, ranges: Seq<Slice>|
                        #[trigger] before.has_page(p, ranges) && !is_whole_free(
                            p,
                            ranges,
                        ) implies now.has_page(p, ranges) by {
                        assert(cur.has_page(p, ranges));
                        let k = choose|k: int|
                            0 <= k < cur.pages.len() && #[trigger] cur.pages[k] == p && cur.free[k]
                                == ranges;
                        let dst = if k == cur.pages.len() - 1 {
                            page_index as int
                        } else {
                            k
                        };
                        assert(now.pages[dst] == p && now.free[dst] == ranges);
                    }
                }
            } else {
                page_index += 1;
            }
        }
        proof {
            let now = self@;
            assert forall|p: Slice, ranges: Seq<Slice>|
                #![trigger now.has_page(p, ranges)]
                #![trigger before.has_page(p, ranges)]
                now.has_page(p, ranges) <==> before.has_page(p, ranges) && !is_whole_free(
                    p,
                    ranges,
                ) by {
                if now.has_page(p, ranges) {
                    let k = choose|k: int|
                        0 <= k < now.pages.len() && #[trigger] now.pages[k] == p && now.free[k]
                            == ranges;
                    assert(!is_whole_free(now.pages[k], now.free[k]));
                }
            }
        }
    }

    /// Gives every page back to the source. The allocator owns nothing
    /// afterwards; the blocks that callers still hold are gone with the
    /// pages.
    pub fn release(&mut self)
        requires
            old(self).wf(),
        ensures
            final(self).wf(),
            final(self).same_limits(old(self)),
            final(self)@.pages == Seq::<Slice>::empty(),
            final(self)@.free == Seq::<Seq<Slice>>::empty(),
            final(self)@.live == Set::<Slice>::empty(),
            final(self).spec_owned_bytes() == 0,
    {
        let mut i: usize = 0;
        while i < self.pages.len()
            invariant
                0 <= i <= self.pages.len(),
                self@ == old(self)@,
                self@.wf(),
                self.same_limits(old(self)),
                self.spec_page_alloc().wf(),
                forall|k: int|
                    i <= k < self@.pages.len() ==> self.spec_page_alloc().owns(
                        #[trigger] self@.pages[k],
                    ),
            decreases self.pages.len() - i,
        {
            let page = self.pages[i];
            proof {
                assert forall|k: int| i < k < self@.pages.len() implies #[trigger] self@.pages[k]
                    != page by {
                    assert(page_ok(self@.pages[k]));
                    assert(self@.pages[k].disjoint(self@.pages[i as int]));
                }
            }
            self.page_alloc.dealloc_page(page);
            i += 1;
        }
        self.pages = Vec::new();
        self.free_list = Vec::new();
        self.ptr_to_size = Vec::new();
        self.total_page_size = 0;
        proof {
            assert(self@.free =~= Seq::<Seq<Slice>>::empty());
            assert(self@.live =~= Set::<Slice>::empty());
        }
    }

    /// Hands the page source out, with whatever pages the allocator owns.
    pub fn into_page_alloc(self) -> (res: P)
        ensures
            res == self.spec_page_alloc(),
    {
        self.page_alloc
    }

    /// `after` is the allocator that has taken back the block at `ptr`,
    /// named with `size` bytes.
    ///
    /// With a `size` of zero nothing changes. Otherwise the live block that
    /// starts at `ptr` is given back in the books; then, if the owned bytes
    /// were above the configured mark, the pages that are wholly free are
    /// given up.
    pub open spec fn took_back(&self, after: &Self, ptr: usize, size: usize) -> bool {
        &&& after.same_limits(self)
        &&& size == 0 ==> after@ == self@ && after.spec_page_alloc() == self.spec_page_alloc()
        &&& size > 0 ==> {
            &&& after@.live == self@.live.remove(self@.block_at(ptr))
            &&& exists|mid: Books|
                {
                    &&& #[trigger] self@.released(self@.block_at(ptr), mid)
                    &&& if self.spec_free_after() >= self.spec_owned_bytes() {
                        after@ == mid && after.spec_page_alloc() == self.spec_page_alloc()
                    } else {
                        mid.swept(after@)
                    }
                }
        }
    }

    /// The place, among the free ranges of page `i`, of the range that
    /// starts where the live block `b` ends, if there is one.
    fn slot_behind_index(&self, i: usize, b: Slice) -> (res: Option<usize>)
        requires
            self.wf(),
            self@.live.contains(b),
            i == self@.page_index(b),
        ensures
            match res {
                Some(j) => self@.slot_behind(b) == Some(j as int) && j < self@.free[i as int].len()
                    && self@.free[i as int][j as int].ptr == b.end(),
                None => self@.slot_behind(b) is None,
            },
    {
        proof {
            lemma_page_index(self@, b, i as int);
            assert(page_ok(self@.pages[i as int]));
            assert(ranges_ok(self@.pages[i as int], self@.free[i as int]));
        }
        let end_addr = b.ptr + b.len;
        let ghost ranges = self@.free[i as int];
        let mut j: usize = 0;
        while j < self.free_list[i].len()
            invariant
                i < self.free_list@.len(),
                ranges == self.free_list@[i as int]@,
                ranges == self@.free[i as int],
                i == self@.page_index(b),
                all_separated(ranges),
                end_addr == b.end(),
                0 <= j <= ranges.len(),
                forall|k: int| 0 <= k < j ==> (#[trigger] ranges[k]).ptr != end_addr,
            decreases ranges.len() - j,
        {
            if self.free_list[i][j].ptr == end_addr {
                proof {
                    let c = choose|c: int|
                        0 <= c < ranges.len() && (#[trigger] ranges[c]).ptr == b.end();
                    if c != j {
                        assert(separated(ranges[c], ranges[j as int]));
                    }
                }
                return Some(j);
            }
            j += 1;
        }
        None
    }

    /// `res` answers a request to move a block to a new one for `layout`:
    /// it is what `served` says of a request for `layout`, and a block that
    /// it names is one that the caller moves to.
    pub open spec fn moved(
        &self,
        after: &Self,
        layout: Layout,
        res: Result<Resized, AllocError>,
    ) -> bool {
        match res {
            Ok(Resized::Moved(s)) => self.served(after, layout, Ok(s)),
            Ok(Resized::InPlace(_)) => false,
            Err(e) => self.served(after, layout, Err(e)),
        }
    }

    /// `res` answers a request to enlarge the block of `old_layout` at `ptr`
    /// to `new_layout`, and `after` is the allocator that has answered it.
    ///
    /// The request fails, and nothing changes, unless the size grows and the
    /// alignment stays. A block that holds bytes is enlarged where it stands
    /// if a free range of its page starts where it ends and holds the bytes
    /// that are missing. Otherwise a new block is allocated as for any
    /// request, and the old one stays live.
    pub open spec fn regrown(
        &self,
        after: &Self,
        ptr: usize,
        old_layout: Layout,
        new_layout: Layout,
        res: Result<Resized, AllocError>,
    ) -> bool {
        let b = block(ptr, old_layout.size());
        &&& after.same_limits(self)
        &&& if new_layout.size() <= old_layout.size() || new_layout.align() != old_layout.align() {
            res is Err && after@ == self@ && after.spec_page_alloc() == self.spec_page_alloc()
        } else if old_layout.size() > 0 && self@.has_room_behind(b, new_layout.size()) {
            &&& res == Ok::<Resized, AllocError>(Resized::InPlace(block(ptr, new_layout.size())))
            &&& after@ == self@.grown(
                self@.page_index(b),
                self@.slot_behind(b)->0,
                b,
                new_layout.size(),
            )
            &&& after.spec_page_alloc() == self.spec_page_alloc()
            &&& forall|c: Slice| #[trigger]
                self@.live.contains(c) && c != b ==> c.disjoint(block(ptr, new_layout.size()))
        } else {
            self.moved(after, new_layout, res)
        }
    }

    /// `res` answers a request to reduce the block of `old_layout` at `ptr`
    /// to `new_layout`, and `after` is the allocator that has answered it.
    ///
    /// The request fails, and nothing changes, if the size grows. Otherwise
    /// a new block is allocated as for any request, and the old one stays
    /// live.
    pub open spec fn reshrunk(
        &self,
        after: &Self,
        old_layout: Layout,
        new_layout: Layout,
        res: Result<Resized, AllocError>,
    ) -> bool {
        &&& after.same_limits(self)
        &&& if new_layout.size() > old_layout.size() {
            res is Err && after@ == self@ && after.spec_page_alloc() == self.spec_page_alloc()
        } else {
            self.moved(after, new_layout, res)
        }
    }

    /// The bytes owned: the sum of the lengths of the pages.
    pub fn owned_bytes(&self) -> (res: usize)
        ensures
            res == self.spec_owned_bytes(),
    {
        self.total_page_size
    }

    /// The number of pages owned.
    pub fn page_count(&self) -> (res: usize)
        ensures
            res == self@.pages.len(),
    {
        self.pages.len()
    }

    /// The page at place `i`.
    pub fn page(&self, i: usize) -> (res: Slice)
        requires
            i < self@.pages.len(),
        ensures
            res == self@.pages[i as int],
    {
        self.pages[i]
    }

    /// The number of free ranges of the page at place `i`.
    pub fn free_range_count(&self, i: usize) -> (res: usize)
        requires
            i < self@.free.len(),
        ensures
            res == self@.free[i as int].len(),
    {
        self.free_list[i].len()
    }

    /// The free range at place `j` of the page at place `i`.
    pub fn free_range(&self, i: usize, j: usize) -> (res: Slice)
        requires
            i < self@.free.len(),
            j < self@.free[i as int].len(),
        ensures
            res == self@.free[i as int][j as int],
    {
        self.free_list[i][j]
    }

    /// The number of live blocks.
    pub fn live_count(&self) -> (res: usize)
        requires
            self.wf(),
        ensures
            res == self@.live.len(),
    {
        proof {
            self.ptr_to_size@.unique_seq_to_set();
        }
        self.ptr_to_size.len()
    }

    /// The page source.
    pub fn page_alloc(&self) -> (res: &P)
        ensures
            *res == self.spec_page_alloc(),
    {
        &self.page_alloc
    }

    /// The number of bytes to ask the page source for, to serve `size`
    /// bytes: `size`, or the configured minimum if that is more.
    #[verifier::when_used_as_spec(spec_page_request)]
    pub fn page_request(&self, size: usize) -> (res: usize)
        ensures
            res == self.page_request(size),
    {
        if size > self.min_page_size {
            size
        } else {
            self.min_page_size
        }
    }

    /// The number of bytes to ask the page source for, to serve `size`
    /// bytes: `size`, or the configured minimum if that is more.
    pub open spec fn spec_page_request(&self, size: usize) -> usize {
        if size > self.spec_min_page_size() {
            size
        } else {
            self.spec_min_page_size()
        }
    }

    /// The limits are those of `other`.
    pub open spec fn same_limits(&self, other: &Self) -> bool {
        &&& self.spec_free_after() == other.spec_free_after()
        &&& self.spec_error_after() == other.spec_error_after()
        &&& self.spec_min_page_size() == other.spec_min_page_size()
    }

    /// The request is one that fails whatever the pages hold: the owned
    /// bytes have reached the limit, or the alignment is above 4096.
    pub open spec fn refuses(&self, layout: Layout) -> bool {
        self.spec_error_after() <= self.spec_owned_bytes() || layout.align() > MAX_ALIGN
    }

    /// `res` answers a request for `layout`, and `after` is the allocator
    /// that has answered it.
    ///
    /// A request that the allocator refuses fails. A request for no bytes
    /// gets the empty range. Any other request is served by the first free
    /// range that fits, if one does; if none does, it is served by the
    /// first bytes of a new page that the books accept for the number of
    /// bytes that `page_request` names, or fails. A block has the length
    /// asked for, starts at a multiple of the alignment, and shares no byte
    /// with a block that was live. A failure leaves the books as they were.
    pub open spec fn served(
        &self,
        after: &Self,
        layout: Layout,
        res: Result<Slice, AllocError>,
    ) -> bool {
        let size = layout.size();
        let align = layout.align();
        &&& after.same_limits(self)
        &&& self.refuses(layout) ==> res is Err
        &&& !self.refuses(layout) && size == 0 ==> res == Ok::<Slice, AllocError>(
            block(SENTINEL, 0),
        )
        &&& !self.refuses(layout) && size > 0 && !no_fit(self@.free, size, align) ==> res is Ok
        &&& self.refuses(layout) || size == 0 || !no_fit(self@.free, size, align)
            ==> after.spec_page_alloc() == self.spec_page_alloc()
        &&& match res {
            Ok(s) => {
                &&& s.len == size
                &&& size == 0 ==> after@ == self@
                &&& size > 0 ==> {
                    &&& s.ptr % align == 0
                    &&& s.ptr > 0
                    &&& !self@.live.contains(s)
                    &&& forall|b: Slice| #[trigger] self@.live.contains(b) ==> b.disjoint(s)
                    &&& after@.live == self@.live.insert(s)
                    &&& if no_fit(self@.free, size, align) {
                        exists|page: Slice|
                            {
                                &&& #[trigger] self@.accepts(page, self.page_request(size))
                                &&& s == block(page.ptr, size)
                                &&& after@ == self@.open_page(page, size)
                            }
                    } else {
                        exists|i: int, j: int|
                            {
                                &&& #[trigger] is_first_fit(self@.free, i, j, size, align)
                                &&& s == placed(self@.free[i][j], size, align)
                                &&& after@ == self@.place(i, j, size, align)
                            }
                    }
                }
            },
            Err(_) => after@ == self@,
        }
    }

}

/// A block that was handed out and is then given back with its layout is
/// no longer live, and the live blocks are those that were live before the
/// block was handed out.
pub proof fn lemma_allocate_then_deallocate<P: PageAlloc>(
    before: LocalAlloc<P>,
    mid: LocalAlloc<P>,
    after: LocalAlloc<P>,
    layout: Layout,
    s: Slice,
)
    requires
        before.wf(),
        mid.wf(),
        layout.size() > 0,
        before.served(&mid, layout, Ok(s)),
        mid.took_back(&after, s.ptr, layout.size()),
    ensures
        !after@.live.contains(s),
        after@.live == before@.live,
{
    assert(mid@.live.contains(s));
    assert(s == block(s.ptr, s.len));
    let len = choose|len: usize| mid@.live.contains(#[trigger] block(s.ptr, len));
    lemma_live_blocks_disjoint(mid@, s, block(s.ptr, len));
    assert(mid@.block_at(s.ptr) == s);
    assert(after@.live =~= before@.live);
}

/// The move protocol: when a request to enlarge a block is answered by a
/// new block, and the caller then gives the old block back, the old block
/// is no longer live, the new one is, and every other live block is as
/// before. The new block has the new size, starts at a multiple of the
/// alignment, and shares no byte with a block that was live, the old one
/// included.
pub proof fn lemma_grow_moved_then_deallocate<P: PageAlloc>(
    before: LocalAlloc<P>,
    mid: LocalAlloc<P>,
    after: LocalAlloc<P>,
    ptr: usize,
    old_layout: Layout,
    new_layout: Layout,
    s: Slice,
)
    requires
        before.wf(),
        mid.wf(),
        old_layout.size() > 0,
        before@.live.contains(block(ptr, old_layout.size())),
        before.regrown(&mid, ptr, old_layout, new_layout, Ok(Resized::Moved(s))),
        mid.took_back(&after, ptr, old_layout.size()),
    ensures
        new_layout.size() > old_layout.size(),
        s.len == new_layout.size(),
        s.ptr % new_layout.align() == 0,
        forall|c: Slice| #[trigger] before@.live.contains(c) ==> c.disjoint(s),
        after@.live == before@.live.remove(block(ptr, old_layout.size())).insert(s),
        after@.live.contains(s),
        !after@.live.contains(block(ptr, old_layout.size())),
{
    let old_block = block(ptr, old_layout.size());
    assert(before.served(&mid, new_layout, Ok(s)));
    assert(mid@.live == before@.live.insert(s));
    assert(old_block.disjoint(s));
    assert(mid@.live.contains(old_block));
    let len = choose|len: usize| mid@.live.contains(#[trigger] block(ptr, len));
    lemma_live_blocks_disjoint(mid@, old_block, block(ptr, len));
    assert(mid@.block_at(ptr) == old_block);
    assert(after@.live =~= before@.live.remove(old_block).insert(s));
}

/// A request that a free range fits takes no page: the pages and the owned
/// bytes are as before, and the request succeeds unless it is refused.
pub proof fn lemma_fit_takes_no_page<P: PageAlloc>(
    before: LocalAlloc<P>,
    after: LocalAlloc<P>,
    layout: Layout,
    res: Result<Slice, AllocError>,
)
    requires
        before.wf(),
        after.wf(),
        layout.size() > 0,
        !no_fit(before@.free, layout.size(), layout.align()),
        before.served(&after, layout, res),
    ensures
        res is Ok <==> !before.refuses(layout),
        after@.pages == before@.pages,
        after.spec_owned_bytes() == before.spec_owned_bytes(),
        after.spec_page_alloc() == before.spec_page_alloc(),
{
}

/// Memory that is available serves: a request that is not refused, for an
/// alignment up to 4096, succeeds where a free range fits it, and where
/// none fits it succeeds on every answer of the page source that is a page
/// which the books accept. The block has the length asked for and starts at
/// a multiple of the alignment.
pub proof fn lemma_available_memory_serves<P: PageAlloc>(
    before: LocalAlloc<P>,
    after: LocalAlloc<P>,
    layout: Layout,
    answer: Result<Slice, AllocError>,
    res: Result<Slice, AllocError>,
)
    requires
        before.wf(),
        layout.size() > 0,
        !before.refuses(layout),
        if no_fit(before@.free, layout.size(), layout.align()) {
            &&& before.page_taken(&after, layout, answer, res)
            &&& answer matches Ok(page) && before@.accepts(
                page,
                before.page_request(layout.size()),
            )
        } else {
            before.served(&after, layout, res)
        },
    ensures
        res matches Ok(s) && s.len == layout.size() && s.ptr % layout.align() == 0,
{
}

/// Room serves, and is used up no faster than asked: where a free range
/// holds `n` bytes and `n` is at least `size + align - 1`, a request that
/// is not refused succeeds without a new page, and a free range holds
/// `n - (size + align - 1)` bytes afterwards. So a free range of
/// `k * (size + align - 1)` bytes serves `k` such requests in a row from
/// the pages that are owned.
pub proof fn lemma_room_serves<P: PageAlloc>(
    before: LocalAlloc<P>,
    after: LocalAlloc<P>,
    layout: Layout,
    res: Result<Slice, AllocError>,
    n: int,
)
    requires
        before.wf(),
        after.wf(),
        layout.size() > 0,
        layout.align() > 0,
        !before.refuses(layout),
        has_room(before@.free, n),
        n >= layout.size() + layout.align() - 1,
        before.served(&after, layout, res),
    ensures
        res matches Ok(s) && s.len == layout.size() && s.ptr % layout.align() == 0,
        after@.pages == before@.pages,
        after.spec_owned_bytes() == before.spec_owned_bytes(),
        has_room(after@.free, n - (layout.size() + layout.align() - 1)),
{
    let size = layout.size();
    let align = layout.align();
    lemma_room_fits(before@.free, n, size, align);
    let (i, j) = choose|i: int, j: int|
        {
            &&& #[trigger] is_first_fit(before@.free, i, j, size, align)
            &&& res->Ok_0 == placed(before@.free[i][j], size, align)
            &&& after@ == before@.place(i, j, size, align)
        };
    lemma_room_after_place(before@, i, j, size, align, n);
}

/// Taking a block back takes nothing off the room, as long as no page is
/// given up: a free range holds afterwards what one held before.
pub proof fn lemma_took_back_keeps_room<P: PageAlloc>(
    before: LocalAlloc<P>,
    after: LocalAlloc<P>,
    ptr: usize,
    size: usize,
    n: int,
)
    requires
        before.wf(),
        size > 0,
        before@.live_at(ptr),
        before.took_back(&after, ptr, size),
        before.spec_free_after() >= before.spec_owned_bytes(),
        has_room(before@.free, n),
    ensures
        has_room(after@.free, n),
        after@.pages == before@.pages,
{
    let b = before@.block_at(ptr);
    assert(before@.released(b, after@));
    lemma_room_after_release(before@, b, after@, n);
}

/// The room that a run of requests needs at most: for each request its
/// size and what its alignment may skip.
pub open spec fn run_cost(layouts: Seq<Layout>) -> int
    decreases layouts.len(),
{
    if layouts.len() == 0 {
        0
    } else {
        layouts[0].size() + layouts[0].align() - 1 + run_cost(layouts.drop_first())
    }
}

/// Request `t` of a run: the allocator `states[t]` answers the request for
/// `layouts[t]` with `results[t]` and is `states[t + 1]` afterwards.
pub open spec fn run_step<P: PageAlloc>(
    states: Seq<LocalAlloc<P>>,
    layouts: Seq<Layout>,
    results: Seq<Result<Slice, AllocError>>,
    t: int,
) -> bool {
    &&& states[t].wf()
    &&& states[t + 1].wf()
    &&& layouts[t].size() > 0
    &&& layouts[t].align() > 0
    &&& layouts[t].align() <= MAX_ALIGN
    &&& states[t].served(&states[t + 1], layouts[t], results[t])
}

/// A run of requests with nothing given back in between: where the owned
/// bytes are below the limit and a free range holds the room that the run
/// needs at most, every request succeeds from the pages that are owned,
/// each block has the length asked for and starts at a multiple of its
/// alignment, and no two of the blocks share a byte.
pub proof fn lemma_run_served<P: PageAlloc>(
    states: Seq<LocalAlloc<P>>,
    layouts: Seq<Layout>,
    results: Seq<Result<Slice, AllocError>>,
)
    requires
        states.len() == layouts.len() + 1,
        results.len() == layouts.len(),
        forall|t: int| 0 <= t < layouts.len() ==> #[trigger] run_step(states, layouts, results, t),
        states[0].wf(),
        states[0].spec_error_after() > states[0].spec_owned_bytes(),
        has_room(states[0]@.free, run_cost(layouts)),
    ensures
        forall|t: int|
            0 <= t < layouts.len() ==> (#[trigger] results[t] matches Ok(s) && s.len
                == layouts[t].size() && s.ptr % layouts[t].align() == 0),
        forall|t: int|
            0 <= t < states.len() ==> (#[trigger] states[t])@.pages == states[0]@.pages
                && states[t].spec_owned_bytes() == states[0].spec_owned_bytes(),
        forall|t: int, u: int|
            0 <= t < u < layouts.len() ==> (#[trigger] results[t])->Ok_0.disjoint(
                (#[trigger] results[u])->Ok_0,
            ),
{
    assert(layouts.subrange(0, layouts.len() as int) =~= layouts);
    lemma_run_from(states, layouts, results, 0);
}

/// What `lemma_run_served` says, of the requests from `from` on.
proof fn lemma_run_from<P: PageAlloc>(
    states: Seq<LocalAlloc<P>>,
    layouts: Seq<Layout>,
    results: Seq<Result<Slice, AllocError>>,
    from: int,
)
    requires
        states.len() == layouts.len() + 1,
        results.len() == layouts.len(),
        0 <= from <= layouts.len(),
        forall|t: int| 0 <= t < layouts.len() ==> #[trigger] run_step(states, layouts, results, t),
        states[from].wf(),
        states[from].spec_error_after() > states[from].spec_owned_bytes(),
        has_room(states[from]@.free, run_cost(layouts.subrange(from, layouts.len() as int))),
    ensures
        forall|t: int|
            from <= t < layouts.len() ==> (#[trigger] results[t] matches Ok(s) && s.len
                == layouts[t].size() && s.ptr % layouts[t].align() == 0),
        forall|t: int|
            from <= t < states.len() ==> (#[trigger] states[t])@.pages == states[from]@.pages
                && states[t].spec_owned_bytes() == states[from].spec_owned_bytes(),
        forall|t: int, u: int|
            from <= t < states.len() && from <= u < t ==> (#[trigger] states[t])@.live.contains(
                (#[trigger] results[u])->Ok_0,
            ),
        forall|t: int, b: Slice|
            from <= t < states.len() && states[from]@.live.contains(b)
                ==> #[trigger] states[t]@.live.contains(b),
        forall|t: int, u: int|
            from <= t < u < layouts.len() ==> (#[trigger] results[t])->Ok_0.disjoint(
                (#[trigger] results[u])->Ok_0,
            ),
    decreases layouts.len() - from,
{
    if from < layouts.len() {
        let rest = layouts.subrange(from, layouts.len() as int);
        let layout = layouts[from];
        let cost = layout.size() + layout.align() - 1;
        assert(rest[0] == layout);
        assert(rest.drop_first() =~= layouts.subrange(from + 1, layouts.len() as int));
        assert(run_step(states, layouts, results, from));
        assert(run_cost(rest) == cost + run_cost(rest.drop_first()));
        assert forall|t: int| 0 <= t < rest.drop_first().len() implies (
        #[trigger] rest.drop_first()[t]).align() > 0 by {
            assert(run_step(states, layouts, results, from + 1 + t));
        }
        lemma_run_cost_is_not_negative(rest.drop_first());
        lemma_room_serves(states[from], states[from + 1], layout, results[from], run_cost(rest));
        lemma_run_from(states, layouts, results, from + 1);
        let s = results[from]->Ok_0;
        assert(states[from + 1]@.live == states[from]@.live.insert(s));
        assert forall|t: int, u: int|
            from <= t < u < layouts.len() implies (#[trigger] results[t])->Ok_0.disjoint(
            (#[trigger] results[u])->Ok_0,
        ) by {
            if t == from {
                assert(run_step(states, layouts, results, u));
                assert(states[from + 1]@.live.contains(s));
                assert(states[u]@.live.contains(s));
            }
        }
    }
}

/// A run needs no less than no room.
proof fn lemma_run_cost_is_not_negative(layouts: Seq<Layout>)
    requires
        forall|t: int| 0 <= t < layouts.len() ==> (#[trigger] layouts[t]).align() > 0,
    ensures
        run_cost(layouts) >= 0,
    decreases layouts.len(),
{
    if layouts.len() > 0 {
        lemma_run_cost_is_not_negative(layouts.drop_first());
    }
}

/// Handing out a block and taking it back restores the allocator, as long
/// as no page is given up: the live blocks are as before; if a free range
/// served, every page has the free ranges that it had, whatever their
/// order; and if a new page served, that page is there in addition, wholly
/// free.
pub proof fn lemma_round_trip<P: PageAlloc>(
    before: LocalAlloc<P>,
    mid: LocalAlloc<P>,
    after: LocalAlloc<P>,
    layout: Layout,
    s: Slice,
)
    requires
        before.wf(),
        mid.wf(),
        layout.size() > 0,
        layout.align() > 0,
        before.served(&mid, layout, Ok(s)),
        mid.took_back(&after, s.ptr, layout.size()),
        mid.spec_free_after() >= mid.spec_owned_bytes(),
    ensures
        after@.live == before@.live,
        after@.free.len() == after@.pages.len(),
        if no_fit(before@.free, layout.size(), layout.align()) {
            &&& after@.pages.len() == before@.pages.len() + 1
            &&& after@.pages.drop_last() == before@.pages
            &&& after@.free.drop_last() == before@.free
            &&& is_whole_free(after@.pages.last(), after@.free.last())
        } else {
            &&& after@.pages == before@.pages
            &&& forall|k: int|
                0 <= k < before@.free.len() ==> (#[trigger] after@.free[k]).to_set()
                    == before@.free[k].to_set()
        },
{
    let size = layout.size();
    let align = layout.align();
    lemma_allocate_then_deallocate(before, mid, after, layout, s);
    assert(mid@.live.contains(s));
    let len = choose|len: usize| mid@.live.contains(#[trigger] block(s.ptr, len));
    lemma_live_blocks_disjoint(mid@, s, block(s.ptr, len));
    assert(mid@.block_at(s.ptr) == s);
    assert(mid@.released(s, after@));
    if no_fit(before@.free, size, align) {
        let page = choose|page: Slice|
            {
                &&& #[trigger] before@.accepts(page, before.page_request(size))
                &&& s == block(page.ptr, size)
                &&& mid@ == before@.open_page(page, size)
            };
        assert(before@.accepts(page, size));
        lemma_open_page_then_release(before@, page, size, after@);
        let n = before@.pages.len() as int;
        lemma_page_index(mid@, s, n);
        assert(after@.pages.drop_last() =~= before@.pages);
        assert(after@.free.drop_last() =~= before@.free);
    } else {
        let (i, j) = choose|i: int, j: int|
            {
                &&& #[trigger] is_first_fit(before@.free, i, j, size, align)
                &&& s == placed(before@.free[i][j], size, align)
                &&& mid@ == before@.place(i, j, size, align)
            };
        lemma_place_then_release(before@, i, j, size, align, after@);
    }
}

/// When the last live block is taken back, the allocator owns no more bytes
/// than the mark above which empty pages are given up.
pub proof fn lemma_idle<P: PageAlloc>(
    before: LocalAlloc<P>,
    after: LocalAlloc<P>,
    ptr: usize,
    size: usize,
)
    requires
        before.wf(),
        after.wf(),
        size > 0,
        before@.live_at(ptr),
        before.took_back(&after, ptr, size),
        after@.live == Set::<Slice>::empty(),
    ensures
        after.spec_owned_bytes() <= before.spec_free_after(),
{
    let b = before@.block_at(ptr);
    let mid = choose|mid: Books|
        {
            &&& #[trigger] before@.released(b, mid)
            &&& if before.spec_free_after() >= before.spec_owned_bytes() {
                after@ == mid && after.spec_page_alloc() == before.spec_page_alloc()
            } else {
                mid.swept(after@)
            }
        };
    lemma_idle_footprint(before@, b, mid, after@, before.spec_free_after());
}

/// Whatever an allocator has handed out and not taken back shares no byte
/// with anything else that it has handed out and not taken back, lies in
/// one of its pages, and holds a byte.
pub proof fn lemma_live_blocks<P: PageAlloc>(alloc: LocalAlloc<P>, b: Slice, c: Slice)
    requires
        alloc.wf(),
        alloc@.live.contains(b),
        alloc@.live.contains(c),
        b != c,
    ensures
        b.disjoint(c),
        b.len > 0,
        b.within(alloc@.pages[alloc@.page_index(b)]),
{
    lemma_page_index(alloc@, b, 0);
}

/// Any two of `ranges` are separated.
spec fn all_separated(ranges: Seq<Slice>) -> bool {
    forall|j: int, k: int|
        0 <= j < ranges.len() && 0 <= k < ranges.len() && j != k ==> separated(
            #[trigger] ranges[j],
            #[trigger] ranges[k],
        )
}

/// Puts the range `b` among the free ranges of its page: the ranges that
/// touch `b` are taken out, and one range that holds them and `b` goes in.
fn coalesce(ranges: &mut Vec<Slice>, b: Slice)
    requires
        b.len > 0,
        b.fits_address_space(),
        forall|j: int|
            0 <= j < old(ranges)@.len() ==> (#[trigger] old(ranges)@[j]).len > 0 && old(
                ranges,
            )@[j].fits_address_space() && old(ranges)@[j].disjoint(b),
        all_separated(old(ranges)@),
    ensures
        is_coalesced(old(ranges)@, b, final(ranges)@),
        all_separated(final(ranges)@),
{
    let ghost before = ranges@;
    let end_addr = b.ptr + b.len;
    let mut range_to_insert = b;
    let ghost mut left: Option<Slice> = None;
    let ghost mut right: Option<Slice> = None;
    let mut free_range_idx: usize = 0;
    while free_range_idx < ranges.len()
        invariant
            b.len > 0,
            b.fits_address_space(),
            end_addr == b.end(),
            0 <= free_range_idx <= ranges.len(),
            all_separated(ranges@),
            forall|k: int|
                0 <= k < ranges@.len() ==> (#[trigger] ranges@[k]).len > 0
                    && ranges@[k].fits_address_space() && ranges@[k].disjoint(b)
                    && before.contains(ranges@[k]),
            forall|r: Slice| #[trigger]
                before.contains(r) ==> ranges@.contains(r) || left == Some(r) || right == Some(r),
            left matches Some(l) ==> l.end() == b.ptr && l.len > 0 && before.contains(l)
                && forall|k: int| 0 <= k < ranges@.len() ==> separated(#[trigger] ranges@[k], l),
            right matches Some(r) ==> r.ptr == b.end() && r.len > 0 && r.fits_address_space()
                && before.contains(r) && forall|k: int|
                0 <= k < ranges@.len() ==> separated(#[trigger] ranges@[k], r),
            forall|k: int| 0 <= k < free_range_idx ==> !touches(#[trigger] ranges@[k], b),
            range_to_insert.ptr == (match left {
                Some(l) => l.ptr,
                None => b.ptr,
            }),
            range_to_insert.end() == (match right {
                Some(r) => r.end(),
                None => b.end(),
            }),
        decreases ranges.len() - free_range_idx,
    {
        let free_range = ranges[free_range_idx];
        let ghost cur = ranges@;
        if free_range.ptr == end_addr {
            proof {
                if let Some(r) = right {
                    assert(separated(cur[free_range_idx as int], r));
                }
                lemma_swap_removed(cur, free_range_idx as int);
            }
            range_to_insert =
            Slice { ptr: range_to_insert.ptr, len: range_to_insert.len + free_range.len };
            ranges.swap_remove(free_range_idx);
            proof {
                right = Some(free_range);
                lemma_kept_after_swap_remove(cur, free_range_idx as int);
            }
        } else if free_range.ptr + free_range.len == b.ptr {
            proof {
                if let Some(l) = left {
                    assert(separated(cur[free_range_idx as int], l));
                }
                lemma_swap_removed(cur, free_range_idx as int);
            }
            range_to_insert =
            Slice { ptr: free_range.ptr, len: range_to_insert.len + free_range.len };
            ranges.swap_remove(free_range_idx);
            proof {
                left = Some(free_range);
                lemma_kept_after_swap_remove(cur, free_range_idx as int);
            }
        } else {
            free_range_idx += 1;
        }
    }
    let ghost kept = ranges@;
    ranges.push(range_to_insert);
    proof {
        let after = ranges@;
        // the range put in is the one that the neighbours of `b` determine
        assert(range_ending_at(before, b.ptr as int) == left) by {
            if exists|j: int| 0 <= j < before.len() && (#[trigger] before[j]).end() == b.ptr as int {
                let j = choose|j: int|
                    0 <= j < before.len() && (#[trigger] before[j]).end() == b.ptr as int;
                assert(before.contains(before[j]));
                if kept.contains(before[j]) {
                    let k = choose|k: int| 0 <= k < kept.len() && kept[k] == before[j];
                    assert(touches(kept[k], b));
                }
            } else if let Some(l) = left {
                let j = choose|j: int| 0 <= j < before.len() && before[j] == l;
                assert(before[j].end() == b.ptr as int);
            }
        }
        assert(range_starting_at(before, b.end()) == right) by {
            if exists|j: int| 0 <= j < before.len() && (#[trigger] before[j]).ptr == b.end() {
                let j = choose|j: int| 0 <= j < before.len() && (#[trigger] before[j]).ptr == b.end();
                assert(before.contains(before[j]));
                if kept.contains(before[j]) {
                    let k = choose|k: int| 0 <= k < kept.len() && kept[k] == before[j];
                    assert(touches(kept[k], b));
                }
            } else if let Some(r) = right {
                let j = choose|j: int| 0 <= j < before.len() && before[j] == r;
                assert(before[j].ptr == b.end());
            }
        }
        assert(range_to_insert == merged(before, b));
        assert forall|k: int| 0 <= k < kept.len() implies separated(
            #[trigger] kept[k],
            range_to_insert,
        ) by {
            assert(!touches(kept[k], b));
            assert(kept[k].disjoint(b));
        }
        assert(all_separated(after));
        assert(after.no_duplicates());
        assert forall|r: Slice|
            #![trigger after.contains(r)]
            #![trigger before.contains(r)]
            after.contains(r) <==> r == merged(before, b) || (before.contains(r) && !touches(
                r,
                b,
            )) by {
            if after.contains(r) {
                let k = choose|k: int| 0 <= k < after.len() && after[k] == r;
                if k < kept.len() {
                    assert(kept[k] == r);
                }
            }
            if r == merged(before, b) {
                assert(after[kept.len() as int] == r);
            }
            if before.contains(r) && !touches(r, b) {
                assert(kept.contains(r));
                let k = choose|k: int| 0 <= k < kept.len() && kept[k] == r;
                assert(after[k] == r);
            }
        }
    }
}

/// What holds of the elements of a sequence holds of those that are left
/// when one was swap-removed, and each element but that one is still there.
proof fn lemma_kept_after_swap_remove(s: Seq<Slice>, j: int)
    requires
        0 <= j < s.len(),
    ensures
        forall|k: int|
            0 <= k < swap_removed(s, j).len() ==> s.contains(#[trigger] swap_removed(s, j)[k]),
        forall|r: Slice| #[trigger] s.contains(r) ==> swap_removed(s, j).contains(r) || r == s[j],
        all_separated(s) ==> all_separated(swap_removed(s, j)) && forall|k: int|
            0 <= k < swap_removed(s, j).len() ==> separated(#[trigger] swap_removed(s, j)[k], s[j]),
        forall|k: int| 0 <= k < j ==> swap_removed(s, j)[k] == s[k],
{
    let t = swap_removed(s, j);
    lemma_swap_removed(s, j);
    assert forall|k: int| 0 <= k < t.len() implies s.contains(#[trigger] t[k]) by {
        let src = if k == j {
            s.len() - 1
        } else {
            k
        };
        assert(s[src] == t[k]);
    }
    assert forall|r: Slice| #[trigger] s.contains(r) implies t.contains(r) || r == s[j] by {
        let k = choose|k: int| 0 <= k < s.len() && s[k] == r;
        if k != j {
            let dst = if k == s.len() - 1 {
                j
            } else {
                k
            };
            assert(t[dst] == r);
        }
    }
    if all_separated(s) {
        assert forall|k: int, m: int|
            0 <= k < t.len() && 0 <= m < t.len() && k != m implies separated(
            #[trigger] t[k],
            #[trigger] t[m],
        ) by {
            let ks = if k == j {
                s.len() - 1
            } else {
                k
            };
            let ms = if m == j {
                s.len() - 1
            } else {
                m
            };
            assert(separated(s[ks], s[ms]));
        }
        assert forall|k: int| 0 <= k < t.len() implies separated(#[trigger] t[k], s[j]) by {
            let ks = if k == j {
                s.len() - 1
            } else {
                k
            };
            assert(separated(s[ks], s[j]));
        }
    }
}

impl<P: PageAlloc> Allocator for LocalAlloc<P> {
    /// The allocator's invariant: the books are in order, the count of owned
    /// bytes is the sum of the pages' lengths, and the page source is in
    /// order and owns every page.
    open spec fn wf(&self) -> bool {
        &&& self@.wf()
        &&& self.records_ok()
        &&& self.spec_owned_bytes() == self@.owned_bytes()
        &&& self.spec_page_alloc().wf()
        &&& forall|i: int|
            0 <= i < self@.pages.len() ==> self.spec_page_alloc().owns(#[trigger] self@.pages[i])
    }

    /// The blocks that callers hold.
    open spec fn is_live(&self, b: Slice) -> bool {
        self@.live.contains(b)
    }

    /// Serves a request.
    ///
    /// It fails when the owned bytes have reached the limit or the alignment
    /// is above 4096. A request for no bytes gets the empty range. Otherwise
    /// the first free range that fits serves it; if none fits, the source is
    /// asked for a page of the size asked for, or of the configured minimum
    /// if that is more, and the request is served from the start of the
    /// page, if the source hands out one that the books accept. A page that
    /// the books do not accept goes back to the source.
    fn allocate(&mut self, layout: Layout) -> (res: Result<Slice, AllocError>)
        ensures
            old(self).served(final(self), layout, res),
    {
        if self.error_after <= self.total_page_size {
            return Err(AllocError);
        }
        if layout.align() > MAX_ALIGN {
            return Err(AllocError);
        }
        if layout.size() == 0 {
            return Ok(Slice::empty());
        }
        if let Some(s) = self.try_alloc_in_existing_pages(layout) {
            return Ok(s);
        }
        let page_alloc_size = self.page_request(layout.size());
        let answer = self.page_alloc.alloc_page(page_alloc_size);
        let ghost asked = *self;
        let res = self.take_page(answer, layout);
        proof {
            assert(asked@ == old(self)@);
            assert(asked.page_taken(self, layout, answer, res));
            if let Ok(page) = answer {
                if asked@.accepts(page, asked.page_request(layout.size())) {
                    assert(old(self)@.accepts(page, old(self).page_request(layout.size())));
                    lemma_open_page(old(self)@, page, layout.size());
                }
            }
        }
        res
    }

    /// Takes back the block of `layout.size()` bytes at `ptr`.
    fn deallocate(&mut self, ptr: usize, layout: Layout)
        ensures
            old(self).took_back(final(self), ptr, layout.size()),
    {
        proof {
            if layout.size() > 0 {
                assert(self@.live.contains(block(ptr, layout.size())));
            }
        }
        self.dealloc(ptr, layout.size())
    }

    /// Enlarges the block of `old_layout` at `ptr` to `new_layout`, where it
    /// stands if the bytes behind it are free, and else by a new block.
    fn grow(&mut self, ptr: usize, old_layout: Layout, new_layout: Layout) -> (res: Result<
        Resized,
        AllocError,
    >)
        ensures
            old(self).regrown(final(self), ptr, old_layout, new_layout, res),
    {
        let old_size = old_layout.size();
        let new_size = new_layout.size();
        if new_size <= old_size || new_layout.align() != old_layout.align() {
            return Err(AllocError);
        }
        if old_size > 0 {
            let ghost before = self@;
            let b = Slice { ptr, len: old_size };
            let i = self.page_of(b);
            let need = new_size - old_size;
            if let Some(j) = self.slot_behind_index(i, b) {
                let r = self.free_list[i][j];
                if r.len >= need {
                    let idx = self.record_index(ptr);
                    let nb = Slice { ptr, len: new_size };
                    proof {
                        lemma_page_index(before, b, i as int);
                        assert(page_ok(before.pages[i as int]));
                        assert(ranges_ok(before.pages[i as int], before.free[i as int]));
                        lemma_grow_in_place(before, i as int, j as int, b, new_size);
                        lemma_live_blocks_disjoint(before, b, before.block_at(ptr));
                        lemma_update_set(self.ptr_to_size@, idx as int, nb);
                    }
                    if r.len > need {
                        self.free_list[i][j] = Slice { ptr: r.ptr + need, len: r.len - need };
                    } else {
                        self.free_list[i].swap_remove(j);
                    }
                    self.ptr_to_size[idx] = nb;
                    proof {
                        let target = before.grown(i as int, j as int, b, new_size);
                        assert(self@.free =~= target.free);
                        assert(self@.live =~= target.live);
                        assert(self@ == target);
                    }
                    return Ok(Resized::InPlace(nb));
                }
            }
        }
        match self.allocate(new_layout) {
            Ok(s) => Ok(Resized::Moved(s)),
            Err(e) => Err(e),
        }
    }

    /// Reduces the block of `old_layout` at `ptr` to `new_layout` by a new
    /// block.
    fn shrink(&mut self, ptr: usize, old_layout: Layout, new_layout: Layout) -> (res: Result<
        Resized,
        AllocError,
    >)
        ensures
            old(self).reshrunk(final(self), old_layout, new_layout, res),
    {
        if new_layout.size() > old_layout.size() {
            return Err(AllocError);
        }
        match self.allocate(new_layout) {
            Ok(s) => Ok(Resized::Moved(s)),
            Err(e) => Err(e),
        }
    }
}

} // verus!
