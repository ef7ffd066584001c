//! Layered memory allocators over integer addresses.
//!
//! Three allocators stack on one another. A page source hands out large,
//! page-aligned ranges. The free-list allocator of [`local_alloc`] carves
//! blocks out of pages, keeps the free ranges of each page, merges ranges
//! that touch, and gives empty pages back. The bump allocator of
//! [`bump_alloc`] advances through blocks of a base allocator and never
//! reuses a byte. The wrapper of [`valiating_alloc`] passes every call on to
//! another allocator and checks what comes back.
//!
//! An address is a `usize` and a block is a [`allocator::Slice`]. The
//! library decides which ranges are in use and proves what it decides; it
//! never reads or writes the memory behind an address. What a page source
//! or a base allocator hands out is tested before it is used, so nothing
//! that is proved here rests on an implementation that is not.

pub mod allocator;
pub mod bump_alloc;
pub mod free_list;
pub mod local_alloc;
pub mod page_alloc;
pub mod region;
pub mod util;
pub mod valiating_alloc;
