//! The source of pages: large, page-aligned ranges that the allocators
//! above carve up.

use crate::allocator::{AllocError, Slice, PAGE_ALIGN};
use crate::util::{checked_next_multiple_of, spec_align_up};
use vstd::prelude::*;

pub mod dynamic_page_alloc;

verus! {

/// The number of bytes that a source which hands out whole pages of 4096
/// bytes gives for a request of `size` bytes: `size` rounded up to a
/// multiple of 4096, if that fits in `usize`.
pub fn whole_pages(size: usize) -> (res: Option<usize>)
    ensures
        match res {
            Some(len) => len == spec_align_up(size as int, PAGE_ALIGN as int) && len >= size,
            None => spec_align_up(size as int, PAGE_ALIGN as int) > usize::MAX,
        },
{
    proof {
        crate::util::lemma_align_up_is_least_multiple(size as int, PAGE_ALIGN as int);
    }
    checked_next_multiple_of(size, PAGE_ALIGN)
}

/// A source of pages.
///
/// A page is meant to start at a multiple of 4096 and to hold at least the
/// number of bytes asked for. The allocators that take pages from a source
/// test this of every page before they use it, so no clause here promises
/// it. The two spec functions carry a source's own state through generic
/// code; a source that keeps none leaves them at their defaults.
pub trait PageAlloc {
    /// The source's internal invariant.
    open spec fn wf(&self) -> bool {
        true
    }

    /// `page` was handed out by this source and has not been given back.
    open spec fn owns(&self, page: Slice) -> bool {
        true
    }

    /// Hands out a page of at least `size` bytes. The page is owned from then
    /// on, and every page that was owned stays so.
    fn alloc_page(&mut self, size: usize) -> (res: Result<Slice, AllocError>)
        requires
            old(self).wf(),
        ensures
            final(self).wf(),
            forall|p: Slice| old(self).owns(p) ==> final(self).owns(p),
            res matches Ok(page) ==> final(self).owns(page),
    ;

    /// Takes back a page, named by the address and length that `alloc_page`
    /// returned. Every other page stays owned.
    fn dealloc_page(&mut self, page: Slice)
        requires
            old(self).wf(),
            old(self).owns(page),
        ensures
            final(self).wf(),
            forall|p: Slice| old(self).owns(p) && p != page ==> final(self).owns(p),
    ;
}

} // verus!
