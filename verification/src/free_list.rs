//! The books of the free-list allocator, as mathematics: the pages it owns,
//! the free ranges inside each page, the blocks that callers hold, and the
//! invariant that ties the three together.

use crate::allocator::Slice;
use crate::util::lemma_align_up_is_least_multiple;
use crate::region::{
    admits, lemma_swap_removed, lemma_total_len_push, lemma_total_len_swap_removed, page_ok,
    swap_removed, total_len,
};
use crate::util::spec_align_offset;
use vstd::prelude::*;

verus! {

/// At least one byte lies between the two ranges: they neither overlap nor touch.
pub open spec fn separated(a: Slice, b: Slice) -> bool {
    a.end() < b.ptr || b.end() < a.ptr
}

/// The free ranges of one page: each holds a byte and lies in the page, and
/// any two of them are separated.
pub open spec fn ranges_ok(page: Slice, ranges: Seq<Slice>) -> bool {
    &&& forall|j: int|
        0 <= j < ranges.len() ==> (#[trigger] ranges[j]).len > 0 && ranges[j].within(page)
    &&& forall|j: int, k: int|
        0 <= j < ranges.len() && 0 <= k < ranges.len() && j != k ==> separated(
            #[trigger] ranges[j],
            #[trigger] ranges[k],
        )
}

/// Address `a` is a byte of one of `ranges`.
pub open spec fn free_has(ranges: Seq<Slice>, a: int) -> bool {
    exists|j: int| 0 <= j < ranges.len() && (#[trigger] ranges[j]).has(a)
}

/// Address `a` is a byte of one of the blocks in `live`.
pub open spec fn live_has(live: Set<Slice>, a: int) -> bool {
    exists|b: Slice| #[trigger] live.contains(b) && b.has(a)
}

/// No block in `live` shares a byte with one of `ranges`.
pub open spec fn clear_of(live: Set<Slice>, ranges: Seq<Slice>) -> bool {
    forall|b: Slice, j: int|
        #[trigger] live.contains(b) && 0 <= j < ranges.len() ==> b.disjoint(#[trigger] ranges[j])
}

/// Every byte of `page` is free or held by a caller.
pub open spec fn covered(page: Slice, ranges: Seq<Slice>, live: Set<Slice>) -> bool {
    forall|a: int| #[trigger] page.has(a) ==> free_has(ranges, a) || live_has(live, a)
}

/// `b` lies in one of `pages`.
pub open spec fn in_some_page(pages: Seq<Slice>, b: Slice) -> bool {
    exists|i: int| 0 <= i < pages.len() && b.within(#[trigger] pages[i])
}

/// The books of a free-list allocator.
pub struct Books {
    /// The pages owned, in the order in which they are searched.
    pub pages: Seq<Slice>,
    /// For each page, its free ranges, in the order in which they are searched.
    pub free: Seq<Seq<Slice>>,
    /// The blocks that callers hold.
    pub live: Set<Slice>,
}

impl Books {
    /// The invariant of the books:
    /// every live block lies in one page; the free ranges of a page lie in
    /// it and are separated from each other; live blocks share no byte with
    /// each other or with a free range; and in every page each byte is
    /// either free or live.
    pub open spec fn wf(self) -> bool {
        &&& self.pages.len() == self.free.len()
        &&& forall|i: int| 0 <= i < self.pages.len() ==> page_ok(#[trigger] self.pages[i])
        &&& forall|i: int, k: int|
            0 <= i < self.pages.len() && 0 <= k < self.pages.len() && i != k ==> (
            #[trigger] self.pages[i]).disjoint(#[trigger] self.pages[k])
        &&& forall|i: int|
            0 <= i < self.pages.len() ==> ranges_ok(self.pages[i], #[trigger] self.free[i])
        &&& forall|i: int|
            0 <= i < self.pages.len() ==> clear_of(self.live, #[trigger] self.free[i])
        &&& forall|i: int|
            0 <= i < self.pages.len() ==> covered(
                self.pages[i],
                #[trigger] self.free[i],
                self.live,
            )
        &&& self.live.finite()
        &&& forall|b: Slice| #[trigger]
            self.live.contains(b) ==> b.len > 0 && in_some_page(self.pages, b)
        &&& forall|b: Slice, c: Slice|
            #[trigger] self.live.contains(b) && #[trigger] self.live.contains(c) && b != c
                ==> b.disjoint(c)
    }

    /// The bytes owned: the sum of the lengths of the pages.
    pub open spec fn owned_bytes(self) -> nat {
        total_len(self.pages)
    }

    /// A live block starts at `ptr`.
    pub open spec fn live_at(self, ptr: usize) -> bool {
        exists|len: usize| self.live.contains(#[trigger] crate::allocator::block(ptr, len))
    }

    /// The live block that starts at `ptr`.
    pub open spec fn block_at(self, ptr: usize) -> Slice {
        crate::allocator::block(
            ptr,
            choose|len: usize| self.live.contains(#[trigger] crate::allocator::block(ptr, len)),
        )
    }
}

/// In books that meet their invariant, any two live blocks are disjoint, and
/// at most one live block starts at an address.
pub proof fn lemma_live_blocks_disjoint(books: Books, b: Slice, c: Slice)
    requires
        books.wf(),
        books.live.contains(b),
        books.live.contains(c),
    ensures
        b != c ==> b.disjoint(c),
        b.ptr == c.ptr ==> b == c,
{
}

/// The first bytes of `r` that a block aligned to `align` has to skip.
pub open spec fn pad_of(r: Slice, align: usize) -> int {
    spec_align_offset(r.ptr as int, align as int)
}

/// Range `r` can hold `size` bytes at a multiple of `align`.
pub open spec fn fits(r: Slice, size: usize, align: usize) -> bool {
    r.len >= pad_of(r, align) + size
}

/// The block of `size` bytes at the first multiple of `align` in `r`.
pub open spec fn placed(r: Slice, size: usize, align: usize) -> Slice {
    Slice { ptr: (r.ptr + pad_of(r, align)) as usize, len: size }
}

/// What is left of `r` in front of the block placed in it.
pub open spec fn lead_of(r: Slice, align: usize) -> Slice {
    Slice { ptr: r.ptr, len: pad_of(r, align) as usize }
}

/// What is left of `r` behind the block placed in it.
pub open spec fn trail_of(r: Slice, size: usize, align: usize) -> Slice {
    Slice {
        ptr: (r.ptr + pad_of(r, align) + size) as usize,
        len: (r.len - pad_of(r, align) - size) as usize,
    }
}

/// The free ranges of a page after a block of `size` bytes aligned to
/// `align` was placed in range `j`: what is left of that range in front of
/// the block and behind it is appended, where it holds a byte, and the range
/// itself is removed.
pub open spec fn carve(ranges: Seq<Slice>, j: int, size: usize, align: usize) -> Seq<Slice> {
    let r = ranges[j];
    let with_lead = if pad_of(r, align) > 0 {
        ranges.push(lead_of(r, align))
    } else {
        ranges
    };
    let with_trail = if r.len > pad_of(r, align) + size {
        with_lead.push(trail_of(r, size, align))
    } else {
        with_lead
    };
    swap_removed(with_trail, j)
}

/// Range `j` of page `i` comes before range `j2` of page `i2` in the search.
pub open spec fn searched_before(i: int, j: int, i2: int, j2: int) -> bool {
    i < i2 || (i == i2 && j < j2)
}

/// Range `j` of page `i` is the first in the search that fits the request.
pub open spec fn is_first_fit(
    free: Seq<Seq<Slice>>,
    i: int,
    j: int,
    size: usize,
    align: usize,
) -> bool {
    &&& 0 <= i < free.len()
    &&& 0 <= j < free[i].len()
    &&& fits(free[i][j], size, align)
    &&& forall|i2: int, j2: int|
        0 <= i2 < free.len() && 0 <= j2 < free[i2].len() && searched_before(i2, j2, i, j)
            ==> !fits(#[trigger] free[i2][j2], size, align)
}

/// No free range fits the request.
pub open spec fn no_fit(free: Seq<Seq<Slice>>, size: usize, align: usize) -> bool {
    forall|i: int, j: int|
        0 <= i < free.len() && 0 <= j < free[i].len() ==> !fits(
            #[trigger] free[i][j],
            size,
            align,
        )
}

/// Placing a block in a free range that fits it keeps the books of the page
/// in order: the block is aligned, lies in the range, and shares no byte
/// with a live block; the ranges that remain are still separated and clear
/// of the live blocks, the new one included; and every byte of the page is
/// still accounted for.
pub proof fn lemma_carve(
    page: Slice,
    ranges: Seq<Slice>,
    live: Set<Slice>,
    j: int,
    size: usize,
    align: usize,
)
    requires
        page_ok(page),
        ranges_ok(page, ranges),
        clear_of(live, ranges),
        covered(page, ranges, live),
        0 <= j < ranges.len(),
        size > 0,
        align > 0,
        fits(ranges[j], size, align),
    ensures
        placed(ranges[j], size, align).ptr == ranges[j].ptr + pad_of(ranges[j], align),
        placed(ranges[j], size, align).ptr % align == 0,
        placed(ranges[j], size, align).within(ranges[j]),
        placed(ranges[j], size, align).within(page),
        !live.contains(placed(ranges[j], size, align)),
        forall|b: Slice| #[trigger] live.contains(b) ==> b.disjoint(placed(ranges[j], size, align)),
        ranges_ok(page, carve(ranges, j, size, align)),
        clear_of(live.insert(placed(ranges[j], size, align)), carve(ranges, j, size, align)),
        covered(
            page,
            carve(ranges, j, size, align),
            live.insert(placed(ranges[j], size, align)),
        ),
{
    let r = ranges[j];
    let pad = pad_of(r, align);
    let s = placed(r, size, align);
    let lead = lead_of(r, align);
    let trail = trail_of(r, size, align);
    let with_lead = if pad > 0 {
        ranges.push(lead)
    } else {
        ranges
    };
    let with_trail = if r.len > pad + size {
        with_lead.push(trail)
    } else {
        with_lead
    };
    let after = carve(ranges, j, size, align);
    let live2 = live.insert(s);
    lemma_align_up_is_least_multiple(r.ptr as int, align as int);
    assert(r.len > 0 && r.within(page));
    assert(s.ptr == r.ptr + pad);
    assert(s.within(r));
    lemma_swap_removed(with_trail, j);
    // every range that remains is an old one other than `r`, or a part of `r`
    assert forall|k: int| 0 <= k < with_trail.len() && k != j implies (#[trigger] with_trail[k]).len
        > 0 && with_trail[k].within(page) && with_trail[k].disjoint(s) && (k < ranges.len()
        ==> with_trail[k] == ranges[k]) && (k >= ranges.len() ==> with_trail[k].within(r)) by {
        if k < ranges.len() {
            assert(with_trail[k] == ranges[k]);
            assert(separated(ranges[k], ranges[j]));
        }
    }
    assert forall|k: int, m: int|
        0 <= k < with_trail.len() && 0 <= m < with_trail.len() && k != j && m != j && k
            != m implies separated(#[trigger] with_trail[k], #[trigger] with_trail[m]) by {
        if k < ranges.len() {
            assert(separated(ranges[k], ranges[j]));
        }
        if m < ranges.len() {
            assert(separated(ranges[m], ranges[j]));
        }
        if k < ranges.len() && m < ranges.len() {
            assert(separated(ranges[k], ranges[m]));
        }
    }
    assert(ranges_ok(page, after)) by {
        assert forall|k: int| 0 <= k < after.len() implies (#[trigger] after[k]).len > 0
            && after[k].within(page) by {
            let src = if k == j {
                with_trail.len() - 1
            } else {
                k
            };
            assert(after[k] == with_trail[src]);
        }
        assert forall|k: int, m: int|
            0 <= k < after.len() && 0 <= m < after.len() && k != m implies separated(
            #[trigger] after[k],
            #[trigger] after[m],
        ) by {
            let ks = if k == j {
                with_trail.len() - 1
            } else {
                k
            };
            let ms = if m == j {
                with_trail.len() - 1
            } else {
                m
            };
            assert(after[k] == with_trail[ks]);
            assert(after[m] == with_trail[ms]);
        }
    }
    assert forall|b: Slice| #[trigger] live.contains(b) implies b.disjoint(s) by {
        assert(b.disjoint(ranges[j]));
    }
    assert(!live.contains(s)) by {
        if live.contains(s) {
            assert(s.disjoint(ranges[j]));
        }
    }
    assert(clear_of(live2, after)) by {
        assert forall|b: Slice, k: int| #[trigger]
            live2.contains(b) && 0 <= k < after.len() implies b.disjoint(#[trigger] after[k]) by {
            let ks = if k == j {
                with_trail.len() - 1
            } else {
                k
            };
            assert(after[k] == with_trail[ks]);
            if b != s {
                assert(live.contains(b));
                if ks < ranges.len() {
                    assert(b.disjoint(ranges[ks]));
                } else {
                    assert(b.disjoint(ranges[j]));
                }
            }
        }
    }
    assert(covered(page, after, live2)) by {
        assert forall|a: int| #[trigger] page.has(a) implies free_has(after, a) || live_has(
            live2,
            a,
        ) by {
            if live_has(live, a) {
                let b = choose|b: Slice| #[trigger] live.contains(b) && b.has(a);
                assert(live2.contains(b) && b.has(a));
            } else {
                assert(free_has(ranges, a));
                let k = choose|k: int| 0 <= k < ranges.len() && (#[trigger] ranges[k]).has(a);
                // the place in `with_trail` of a range that holds `a`, if one remains
                let src: int = if k != j {
                    k
                } else if lead.has(a) {
                    ranges.len() as int
                } else if trail.has(a) {
                    with_trail.len() - 1
                } else {
                    -1
                };
                if src == -1 {
                    assert(s.has(a));
                    assert(live2.contains(s) && s.has(a));
                } else {
                    assert(with_trail[src].has(a));
                    let dst = if src == with_trail.len() - 1 {
                        j
                    } else {
                        src
                    };
                    assert(after[dst] == with_trail[src]);
                    assert(after[dst].has(a));
                }
            }
        }
    }
}

/// A block that lies in another page changes nothing about a page: its free
/// ranges stay clear of the live blocks, and its bytes stay accounted for.
pub proof fn lemma_live_insert_elsewhere(
    page: Slice,
    ranges: Seq<Slice>,
    live: Set<Slice>,
    other: Slice,
    b: Slice,
)
    requires
        ranges_ok(page, ranges),
        clear_of(live, ranges),
        covered(page, ranges, live),
        page.disjoint(other),
        b.within(other),
    ensures
        clear_of(live.insert(b), ranges),
        covered(page, ranges, live.insert(b)),
{
    let live2 = live.insert(b);
    assert forall|a: int| #[trigger] page.has(a) implies free_has(ranges, a) || live_has(
        live2,
        a,
    ) by {
        if live_has(live, a) {
            let c = choose|c: Slice| #[trigger] live.contains(c) && c.has(a);
            assert(live2.contains(c) && c.has(a));
        }
    }
    assert forall|c: Slice, k: int| #[trigger]
        live2.contains(c) && 0 <= k < ranges.len() implies c.disjoint(#[trigger] ranges[k]) by {
        if c != b {
            assert(live.contains(c));
        } else {
            assert(ranges[k].within(page));
        }
    }
}

impl Books {
    /// The books after a block of `size` bytes aligned to `align` was placed
    /// in range `j` of page `i`.
    pub open spec fn place(self, i: int, j: int, size: usize, align: usize) -> Books {
        Books {
            pages: self.pages,
            free: self.free.update(i, carve(self.free[i], j, size, align)),
            live: self.live.insert(placed(self.free[i][j], size, align)),
        }
    }
}

/// Placing a block in a free range that fits it keeps the invariant of the
/// books. The block is aligned, holds the bytes asked for, lies in the page
/// of the range, and shares no byte with a block that was live.
pub proof fn lemma_place(books: Books, i: int, j: int, size: usize, align: usize)
    requires
        books.wf(),
        0 <= i < books.free.len(),
        0 <= j < books.free[i].len(),
        size > 0,
        align > 0,
        fits(books.free[i][j], size, align),
    ensures
        books.place(i, j, size, align).wf(),
        placed(books.free[i][j], size, align).ptr % align == 0,
        placed(books.free[i][j], size, align).ptr > 0,
        placed(books.free[i][j], size, align).len == size,
        placed(books.free[i][j], size, align).within(books.pages[i]),
        !books.live.contains(placed(books.free[i][j], size, align)),
        forall|b: Slice| #[trigger]
            books.live.contains(b) ==> b.disjoint(placed(books.free[i][j], size, align)),
{
    let s = placed(books.free[i][j], size, align);
    let after = books.place(i, j, size, align);
    assert(page_ok(books.pages[i]));
    assert(ranges_ok(books.pages[i], books.free[i]));
    assert(clear_of(books.live, books.free[i]));
    assert(covered(books.pages[i], books.free[i], books.live));
    lemma_carve(books.pages[i], books.free[i], books.live, j, size, align);
    assert forall|k: int| 0 <= k < after.pages.len() implies ranges_ok(
        after.pages[k],
        #[trigger] after.free[k],
    ) && clear_of(after.live, after.free[k]) && covered(after.pages[k], after.free[k], after.live) by {
        if k != i {
            assert(after.free[k] == books.free[k]);
            assert(ranges_ok(books.pages[k], books.free[k]));
            assert(clear_of(books.live, books.free[k]));
            assert(covered(books.pages[k], books.free[k], books.live));
            assert(books.pages[k].disjoint(books.pages[i]));
            lemma_live_insert_elsewhere(
                books.pages[k],
                books.free[k],
                books.live,
                books.pages[i],
                s,
            );
        }
    }
    assert forall|b: Slice| #[trigger] after.live.contains(b) implies b.len > 0 && in_some_page(
        after.pages,
        b,
    ) by {
        if b == s {
            assert(s.within(after.pages[i]));
        } else {
            assert(books.live.contains(b));
            let k = choose|k: int| 0 <= k < books.pages.len() && b.within(#[trigger] books.pages[k]);
            assert(b.within(after.pages[k]));
        }
    }
    assert forall|b: Slice, c: Slice|
        #[trigger] after.live.contains(b) && #[trigger] after.live.contains(c) && b
            != c implies b.disjoint(c) by {
        if b != s {
            assert(books.live.contains(b));
        }
        if c != s {
            assert(books.live.contains(c));
        }
    }
}

impl Books {
    /// `page` can be taken into the books to serve `size` bytes: it can serve
    /// as a page, holds `size` bytes, shares no byte with a page owned, and
    /// the count of owned bytes stays within `usize`.
    pub open spec fn accepts(self, page: Slice, size: usize) -> bool {
        admits(self.pages, page, size)
    }

    /// The books after `page` was added and its first `size` bytes were
    /// handed out: the rest of the page, if any, is its one free range.
    pub open spec fn open_page(self, page: Slice, size: usize) -> Books {
        Books {
            pages: self.pages.push(page),
            free: self.free.push(
                if size < page.len {
                    seq![Slice { ptr: (page.ptr + size) as usize, len: (page.len - size) as usize }]
                } else {
                    Seq::<Slice>::empty()
                },
            ),
            live: self.live.insert(Slice { ptr: page.ptr, len: size }),
        }
    }
}

/// Taking in a page that the books accept, and handing out its first bytes,
/// keeps the invariant of the books. The block shares no byte with a block
/// that was live.
pub proof fn lemma_open_page(books: Books, page: Slice, size: usize)
    requires
        books.wf(),
        books.accepts(page, size),
        size > 0,
    ensures
        books.open_page(page, size).wf(),
        books.open_page(page, size).owned_bytes() == books.owned_bytes() + page.len,
        !books.live.contains(Slice { ptr: page.ptr, len: size }),
        forall|b: Slice| #[trigger]
            books.live.contains(b) ==> b.disjoint(Slice { ptr: page.ptr, len: size }),
{
    let s = Slice { ptr: page.ptr, len: size };
    let after = books.open_page(page, size);
    let n = books.pages.len() as int;
    lemma_total_len_push(books.pages, page);
    assert forall|b: Slice| #[trigger] books.live.contains(b) implies b.disjoint(s) by {
        let k = choose|k: int| 0 <= k < books.pages.len() && b.within(#[trigger] books.pages[k]);
        assert(page.disjoint(books.pages[k]));
    }
    assert(!books.live.contains(s)) by {
        if books.live.contains(s) {
            assert(s.disjoint(s));
        }
    }
    assert forall|i: int, k: int|
        0 <= i < after.pages.len() && 0 <= k < after.pages.len() && i != k implies (
    #[trigger] after.pages[i]).disjoint(#[trigger] after.pages[k]) by {
        if i < n && k < n {
            assert(books.pages[i].disjoint(books.pages[k]));
        } else if i < n {
            assert(page.disjoint(books.pages[i]));
        } else {
            assert(page.disjoint(books.pages[k]));
        }
    }
    assert forall|k: int| 0 <= k < after.pages.len() implies page_ok(#[trigger] after.pages[k])
        && ranges_ok(after.pages[k], #[trigger] after.free[k]) && clear_of(
        after.live,
        after.free[k],
    ) && covered(after.pages[k], after.free[k], after.live) by {
        if k < n {
            assert(page_ok(books.pages[k]));
            assert(after.free[k] == books.free[k]);
            assert(ranges_ok(books.pages[k], books.free[k]));
            assert(clear_of(books.live, books.free[k]));
            assert(covered(books.pages[k], books.free[k], books.live));
            assert(page.disjoint(books.pages[k]));
            lemma_live_insert_elsewhere(books.pages[k], books.free[k], books.live, page, s);
        } else {
            let ranges = after.free[n];
            assert forall|b: Slice, j: int| #[trigger]
                after.live.contains(b) && 0 <= j < ranges.len() implies b.disjoint(
                #[trigger] ranges[j],
            ) by {
                if b != s {
                    assert(books.live.contains(b));
                    assert(b.disjoint(s));
                    let m = choose|m: int|
                        0 <= m < books.pages.len() && b.within(#[trigger] books.pages[m]);
                    assert(page.disjoint(books.pages[m]));
                }
            }
            assert forall|a: int| #[trigger] page.has(a) implies free_has(ranges, a) || live_has(
                after.live,
                a,
            ) by {
                if s.has(a) {
                    assert(after.live.contains(s) && s.has(a));
                } else {
                    assert(ranges[0].has(a));
                }
            }
        }
    }
    assert forall|b: Slice| #[trigger] after.live.contains(b) implies b.len > 0 && in_some_page(
        after.pages,
        b,
    ) by {
        if b == s {
            assert(s.within(after.pages[n]));
        } else {
            assert(books.live.contains(b));
            let k = choose|k: int| 0 <= k < books.pages.len() && b.within(#[trigger] books.pages[k]);
            assert(b.within(after.pages[k]));
        }
    }
    assert forall|b: Slice, c: Slice|
        #[trigger] after.live.contains(b) && #[trigger] after.live.contains(c) && b
            != c implies b.disjoint(c) by {
        if b != s {
            assert(books.live.contains(b));
        }
        if c != s {
            assert(books.live.contains(c));
        }
    }
}

/// `r` ends where `b` starts, or starts where `b` ends.
pub open spec fn touches(r: Slice, b: Slice) -> bool {
    r.end() == b.ptr || r.ptr == b.end()
}

/// The one of `ranges` that ends at address `a`, if there is one.
pub open spec fn range_ending_at(ranges: Seq<Slice>, a: int) -> Option<Slice> {
    if exists|j: int| 0 <= j < ranges.len() && (#[trigger] ranges[j]).end() == a {
        Some(ranges[choose|j: int| 0 <= j < ranges.len() && (#[trigger] ranges[j]).end() == a])
    } else {
        None
    }
}

/// The one of `ranges` that starts at address `a`, if there is one.
pub open spec fn range_starting_at(ranges: Seq<Slice>, a: int) -> Option<Slice> {
    if exists|j: int| 0 <= j < ranges.len() && (#[trigger] ranges[j]).ptr == a {
        Some(ranges[choose|j: int| 0 <= j < ranges.len() && (#[trigger] ranges[j]).ptr == a])
    } else {
        None
    }
}

/// The range that `b` forms together with the ranges that touch it: it
/// starts where the range that ends at `b` starts, and ends where the range
/// that starts at the end of `b` ends.
pub open spec fn merged(ranges: Seq<Slice>, b: Slice) -> Slice {
    let lo = match range_ending_at(ranges, b.ptr as int) {
        Some(l) => l.ptr as int,
        None => b.ptr as int,
    };
    let hi = match range_starting_at(ranges, b.end()) {
        Some(r) => r.end(),
        None => b.end(),
    };
    Slice { ptr: lo as usize, len: (hi - lo) as usize }
}

/// `after` holds, each once, the range merged from `b` and its neighbours,
/// and those of `ranges` that do not touch `b`.
pub open spec fn is_coalesced(ranges: Seq<Slice>, b: Slice, after: Seq<Slice>) -> bool {
    &&& after.no_duplicates()
    &&& forall|r: Slice|
        #![trigger after.contains(r)]
        #![trigger ranges.contains(r)]
        after.contains(r) <==> r == merged(ranges, b) || (ranges.contains(r) && !touches(r, b))
}

/// The free ranges of a page are its whole: one range, equal to the page.
pub open spec fn is_whole_free(page: Slice, ranges: Seq<Slice>) -> bool {
    ranges.len() == 1 && ranges[0] == page
}

impl Books {
    /// The place of the page in which the live block `b` lies.
    pub open spec fn page_index(self, b: Slice) -> int {
        choose|i: int| 0 <= i < self.pages.len() && b.within(#[trigger] self.pages[i])
    }

    /// `after` are the books once the live block `b` was given back: it is
    /// no longer live, the free ranges of its page are coalesced around it,
    /// and nothing else has changed.
    pub open spec fn released(self, b: Slice, after: Books) -> bool {
        &&& after.pages == self.pages
        &&& after.live == self.live.remove(b)
        &&& after.free.len() == self.free.len()
        &&& forall|k: int|
            0 <= k < self.free.len() && k != self.page_index(b) ==> #[trigger] after.free[k]
                == self.free[k]
        &&& is_coalesced(self.free[self.page_index(b)], b, after.free[self.page_index(b)])
    }

    /// `page` is owned, with `ranges` as its free ranges.
    pub open spec fn has_page(self, page: Slice, ranges: Seq<Slice>) -> bool {
        exists|i: int|
            0 <= i < self.pages.len() && #[trigger] self.pages[i] == page && self.free[i] == ranges
    }

    /// `after` are the books once the pages that are wholly free were given
    /// up: the other pages are owned as before, each with its free ranges,
    /// and the live blocks are the same.
    pub open spec fn swept(self, after: Books) -> bool {
        &&& after.live == self.live
        &&& forall|page: Slice, ranges: Seq<Slice>|
            #![trigger after.has_page(page, ranges)]
            #![trigger self.has_page(page, ranges)]
            after.has_page(page, ranges) <==> self.has_page(page, ranges) && !is_whole_free(
                page,
                ranges,
            )
    }

    /// The place, among the free ranges of the page of the live block `b`, of
    /// the range that starts where `b` ends, if there is one.
    pub open spec fn slot_behind(self, b: Slice) -> Option<int> {
        let ranges = self.free[self.page_index(b)];
        if exists|j: int| 0 <= j < ranges.len() && (#[trigger] ranges[j]).ptr == b.end() {
            Some(choose|j: int| 0 <= j < ranges.len() && (#[trigger] ranges[j]).ptr == b.end())
        } else {
            None
        }
    }

    /// The live block `b` can be enlarged to `new_len` bytes where it stands:
    /// a free range of its page starts where it ends and holds the bytes
    /// that are missing.
    pub open spec fn has_room_behind(self, b: Slice, new_len: usize) -> bool {
        match self.slot_behind(b) {
            Some(j) => self.free[self.page_index(b)][j].len >= new_len - b.len,
            None => false,
        }
    }

    /// The books after the live block `b` was enlarged to `new_len` bytes
    /// into range `j` of page `i`, which starts where `b` ends: the range
    /// loses its first bytes, or goes if the block takes all of it.
    pub open spec fn grown(self, i: int, j: int, b: Slice, new_len: usize) -> Books {
        let r = self.free[i][j];
        let need = new_len - b.len;
        Books {
            pages: self.pages,
            free: self.free.update(
                i,
                if r.len > need {
                    self.free[i].update(
                        j,
                        Slice { ptr: (r.ptr + need) as usize, len: (r.len - need) as usize },
                    )
                } else {
                    swap_removed(self.free[i], j)
                },
            ),
            live: self.live.remove(b).insert(Slice { ptr: b.ptr, len: new_len }),
        }
    }
}

/// In books that meet their invariant, a live block lies in the page at its
/// page index and in no other page.
pub proof fn lemma_page_index(books: Books, b: Slice, i: int)
    requires
        books.wf(),
        books.live.contains(b),
    ensures
        0 <= books.page_index(b) < books.pages.len(),
        b.within(books.pages[books.page_index(b)]),
        0 <= i < books.pages.len() && b.within(books.pages[i]) ==> i == books.page_index(b),
{
    assert(in_some_page(books.pages, b));
    let k = books.page_index(b);
    if 0 <= i < books.pages.len() && b.within(books.pages[i]) && i != k {
        assert(books.pages[i].disjoint(books.pages[k]));
    }
}

/// Giving a live block back keeps the invariant of the books, whatever the
/// order in which the coalesced ranges stand.
pub proof fn lemma_release(books: Books, b: Slice, after: Books)
    requires
        books.wf(),
        books.live.contains(b),
        books.released(b, after),
    ensures
        after.wf(),
        after.owned_bytes() == books.owned_bytes(),
{
    let i = books.page_index(b);
    lemma_page_index(books, b, i);
    let page = books.pages[i];
    let old_ranges = books.free[i];
    let new_ranges = after.free[i];
    let m = merged(old_ranges, b);
    assert(page_ok(page));
    assert(ranges_ok(page, old_ranges));
    assert(clear_of(books.live, old_ranges));
    assert(covered(page, old_ranges, books.live));
    let left = range_ending_at(old_ranges, b.ptr as int);
    let right = range_starting_at(old_ranges, b.end());
    // what the two neighbours are, and that no other range touches `b`
    assert(left matches Some(l) ==> old_ranges.contains(l) && l.end() == b.ptr && l.within(page)
        && l.len > 0);
    assert(right matches Some(r) ==> old_ranges.contains(r) && r.ptr == b.end() && r.within(page)
        && r.len > 0);
    assert forall|k: int| 0 <= k < old_ranges.len() && touches(
        #[trigger] old_ranges[k],
        b,
    ) implies left == Some(old_ranges[k]) || right == Some(old_ranges[k]) by {
        if old_ranges[k].end() == b.ptr {
            let c = choose|j: int|
                0 <= j < old_ranges.len() && (#[trigger] old_ranges[j]).end() == b.ptr as int;
            if c != k {
                assert(separated(old_ranges[c], old_ranges[k]));
            }
        } else {
            let c = choose|j: int|
                0 <= j < old_ranges.len() && (#[trigger] old_ranges[j]).ptr == b.end();
            if c != k {
                assert(separated(old_ranges[c], old_ranges[k]));
            }
        }
    }
    assert(m.within(page) && m.len > 0 && b.within(m));
    assert(left matches Some(l) ==> l.within(m));
    assert(right matches Some(r) ==> r.within(m));
    assert(m.len == b.len + (match left {
        Some(l) => l.len as int,
        None => 0,
    }) + (match right {
        Some(r) => r.len as int,
        None => 0,
    }));
    assert forall|c: Slice| #[trigger] after.live.contains(c) implies c.disjoint(m) by {
        assert(books.live.contains(c) && c != b);
        assert(c.disjoint(b));
        if let Some(l) = left {
            let k = choose|k: int| 0 <= k < old_ranges.len() && old_ranges[k] == l;
            assert(c.disjoint(old_ranges[k]));
        }
        if let Some(r) = right {
            let k = choose|k: int| 0 <= k < old_ranges.len() && old_ranges[k] == r;
            assert(c.disjoint(old_ranges[k]));
        }
    }
    assert(ranges_ok(page, new_ranges)) by {
        assert forall|k: int| 0 <= k < new_ranges.len() implies (#[trigger] new_ranges[k]).len > 0
            && new_ranges[k].within(page) by {
            assert(new_ranges.contains(new_ranges[k]));
            if new_ranges[k] != m {
                assert(old_ranges.contains(new_ranges[k]));
            }
        }
        // an old range that does not touch `b` is separated from the merged range
        assert forall|x: Slice| old_ranges.contains(x) && !touches(x, b) implies separated(
            x,
            m,
        ) by {
            let o = choose|o: int| 0 <= o < old_ranges.len() && old_ranges[o] == x;
            assert(b.disjoint(old_ranges[o]));
            if let Some(l) = left {
                let c = choose|c: int| 0 <= c < old_ranges.len() && old_ranges[c] == l;
                if c != o {
                    assert(separated(old_ranges[o], old_ranges[c]));
                }
            }
            if let Some(r) = right {
                let c = choose|c: int| 0 <= c < old_ranges.len() && old_ranges[c] == r;
                if c != o {
                    assert(separated(old_ranges[o], old_ranges[c]));
                }
            }
        }
        assert forall|j: int, k: int|
            0 <= j < new_ranges.len() && 0 <= k < new_ranges.len() && j != k implies separated(
            #[trigger] new_ranges[j],
            #[trigger] new_ranges[k],
        ) by {
            assert(new_ranges.contains(new_ranges[j]));
            assert(new_ranges.contains(new_ranges[k]));
            assert(new_ranges[j] != new_ranges[k]);
            if new_ranges[j] != m && new_ranges[k] != m {
                let oj = choose|o: int| 0 <= o < old_ranges.len() && old_ranges[o] == new_ranges[j];
                let ok = choose|o: int| 0 <= o < old_ranges.len() && old_ranges[o] == new_ranges[k];
                assert(separated(old_ranges[oj], old_ranges[ok]));
            }
        }
    }
    assert(clear_of(after.live, new_ranges)) by {
        assert forall|c: Slice, k: int| #[trigger]
            after.live.contains(c) && 0 <= k < new_ranges.len() implies c.disjoint(
            #[trigger] new_ranges[k],
        ) by {
            assert(new_ranges.contains(new_ranges[k]));
            assert(books.live.contains(c));
            if new_ranges[k] != m {
                assert(old_ranges.contains(new_ranges[k]));
                let o = choose|o: int| 0 <= o < old_ranges.len() && old_ranges[o] == new_ranges[k];
                assert(c.disjoint(old_ranges[o]));
            }
        }
    }
    assert(covered(page, new_ranges, after.live)) by {
        assert forall|a: int| #[trigger] page.has(a) implies free_has(new_ranges, a) || live_has(
            after.live,
            a,
        ) by {
            assert(new_ranges.contains(m));
            let mi = choose|mi: int| 0 <= mi < new_ranges.len() && new_ranges[mi] == m;
            if m.has(a) {
                assert(new_ranges[mi].has(a));
            } else if live_has(books.live, a) {
                let c = choose|c: Slice| #[trigger] books.live.contains(c) && c.has(a);
                assert(c != b);
                assert(after.live.contains(c) && c.has(a));
            } else {
                let k = choose|k: int| 0 <= k < old_ranges.len() && (#[trigger] old_ranges[k]).has(a);
                assert(old_ranges.contains(old_ranges[k]));
                assert(!touches(old_ranges[k], b));
                assert(new_ranges.contains(old_ranges[k]));
                let n = choose|n: int| 0 <= n < new_ranges.len() && new_ranges[n] == old_ranges[k];
                assert(new_ranges[n].has(a));
            }
        }
    }
    assert forall|k: int| 0 <= k < after.pages.len() implies ranges_ok(
        after.pages[k],
        #[trigger] after.free[k],
    ) && clear_of(after.live, after.free[k]) && covered(after.pages[k], after.free[k], after.live) by {
        if k != i {
            assert(after.free[k] == books.free[k]);
            assert(ranges_ok(books.pages[k], books.free[k]));
            assert(clear_of(books.live, books.free[k]));
            assert(covered(books.pages[k], books.free[k], books.live));
            assert(books.pages[k].disjoint(page));
            assert forall|a: int| #[trigger] after.pages[k].has(a) implies free_has(
                after.free[k],
                a,
            ) || live_has(after.live, a) by {
                if live_has(books.live, a) {
                    let c = choose|c: Slice| #[trigger] books.live.contains(c) && c.has(a);
                    assert(after.live.contains(c) && c.has(a));
                }
            }
        }
    }
    assert forall|c: Slice| #[trigger] after.live.contains(c) implies c.len > 0 && in_some_page(
        after.pages,
        c,
    ) by {
        assert(books.live.contains(c));
    }
}

/// Giving up a page that is wholly free keeps the invariant of the books,
/// and takes the page's length off the owned bytes.
pub proof fn lemma_drop_page(books: Books, i: int)
    requires
        books.wf(),
        0 <= i < books.pages.len(),
        is_whole_free(books.pages[i], books.free[i]),
    ensures
        (Books {
            pages: swap_removed(books.pages, i),
            free: swap_removed(books.free, i),
            live: books.live,
        }).wf(),
        total_len(swap_removed(books.pages, i)) == total_len(books.pages) - books.pages[i].len,
        forall|k: int|
            0 <= k < books.pages.len() - 1 ==> #[trigger] swap_removed(books.pages, i)[k]
                != books.pages[i],
{
    let after = Books {
        pages: swap_removed(books.pages, i),
        free: swap_removed(books.free, i),
        live: books.live,
    };
    let last = books.pages.len() - 1;
    lemma_total_len_swap_removed(books.pages, i);
    lemma_swap_removed(books.pages, i);
    lemma_swap_removed(books.free, i);
    assert forall|k: int| 0 <= k < after.pages.len() implies after.pages[k] == books.pages[if k
        == i {
        last
    } else {
        k
    }] && #[trigger] after.free[k] == books.free[if k == i {
        last
    } else {
        k
    }] by {}
    assert forall|k: int| 0 <= k < after.pages.len() implies page_ok(#[trigger] after.pages[k])
        && after.pages[k] != books.pages[i] by {
        let src = if k == i {
            last
        } else {
            k
        };
        assert(page_ok(books.pages[src]));
        assert(books.pages[src].disjoint(books.pages[i]));
        assert(page_ok(books.pages[i]));
    }
    assert forall|k: int, m: int|
        0 <= k < after.pages.len() && 0 <= m < after.pages.len() && k != m implies (
    #[trigger] after.pages[k]).disjoint(#[trigger] after.pages[m]) by {
        let ks = if k == i {
            last
        } else {
            k
        };
        let ms = if m == i {
            last
        } else {
            m
        };
        assert(books.pages[ks].disjoint(books.pages[ms]));
    }
    assert forall|k: int| 0 <= k < after.pages.len() implies ranges_ok(
        after.pages[k],
        #[trigger] after.free[k],
    ) && clear_of(after.live, after.free[k]) && covered(after.pages[k], after.free[k], after.live) by {
        let src = if k == i {
            last
        } else {
            k
        };
        assert(ranges_ok(books.pages[src], books.free[src]));
        assert(clear_of(books.live, books.free[src]));
        assert(covered(books.pages[src], books.free[src], books.live));
    }
    assert forall|b: Slice| #[trigger] after.live.contains(b) implies b.len > 0 && in_some_page(
        after.pages,
        b,
    ) by {
        let k = choose|k: int| 0 <= k < books.pages.len() && b.within(#[trigger] books.pages[k]);
        if k == i {
            assert(clear_of(books.live, books.free[i]));
            assert(b.disjoint(books.free[i][0]));
        }
        let dst = if k == last {
            i
        } else {
            k
        };
        assert(b.within(after.pages[dst]));
    }
}

/// Enlarging a live block into the free range that starts where it ends
/// keeps the invariant of the books. The enlarged block shares no byte with
/// another live block.
pub proof fn lemma_grow_in_place(books: Books, i: int, j: int, b: Slice, new_len: usize)
    requires
        books.wf(),
        books.live.contains(b),
        0 <= i < books.pages.len(),
        b.within(books.pages[i]),
        0 <= j < books.free[i].len(),
        books.free[i][j].ptr == b.end(),
        new_len > b.len,
        books.free[i][j].len >= new_len - b.len,
    ensures
        books.grown(i, j, b, new_len).wf(),
        books.grown(i, j, b, new_len).owned_bytes() == books.owned_bytes(),
        !books.live.remove(b).contains(Slice { ptr: b.ptr, len: new_len }),
        forall|c: Slice| #[trigger]
            books.live.contains(c) && c != b ==> c.disjoint(Slice { ptr: b.ptr, len: new_len }),
{
    let page = books.pages[i];
    let ranges = books.free[i];
    let r = ranges[j];
    let need = new_len - b.len;
    let nb = Slice { ptr: b.ptr, len: new_len };
    let after = books.grown(i, j, b, new_len);
    let new_ranges = after.free[i];
    assert(page_ok(page));
    assert(ranges_ok(page, ranges));
    assert(clear_of(books.live, ranges));
    assert(covered(page, ranges, books.live));
    assert(r.len > 0 && r.within(page));
    assert(nb.within(page) && b.within(nb));
    lemma_swap_removed(ranges, j);
    assert forall|c: Slice| #[trigger] books.live.contains(c) && c != b implies c.disjoint(nb) by {
        assert(c.disjoint(b));
        assert(c.disjoint(ranges[j]));
    }
    assert(!books.live.remove(b).contains(nb)) by {
        if books.live.contains(nb) {
            assert(nb.disjoint(ranges[j]));
        }
    }
    assert(ranges_ok(page, new_ranges)) by {
        assert forall|k: int| 0 <= k < new_ranges.len() implies (#[trigger] new_ranges[k]).len > 0
            && new_ranges[k].within(page) by {
            let o = if r.len <= need && k == j {
                ranges.len() - 1
            } else {
                k
            };
            assert(ranges[o].len > 0 && ranges[o].within(page));
        }
        assert forall|k: int, m: int|
            0 <= k < new_ranges.len() && 0 <= m < new_ranges.len() && k != m implies separated(
            #[trigger] new_ranges[k],
            #[trigger] new_ranges[m],
        ) by {
            let ko = if r.len <= need && k == j {
                ranges.len() - 1
            } else {
                k
            };
            let mo = if r.len <= need && m == j {
                ranges.len() - 1
            } else {
                m
            };
            assert(separated(ranges[ko], ranges[mo]));
        }
    }
    assert(clear_of(after.live, new_ranges)) by {
        assert forall|c: Slice, k: int| #[trigger]
            after.live.contains(c) && 0 <= k < new_ranges.len() implies c.disjoint(
            #[trigger] new_ranges[k],
        ) by {
            let o = if r.len <= need && k == j {
                ranges.len() - 1
            } else {
                k
            };
            if c == nb {
                assert(b.disjoint(ranges[o]));
                if o != j {
                    assert(separated(ranges[o], ranges[j]));
                }
            } else {
                assert(books.live.contains(c));
                assert(c.disjoint(ranges[o]));
            }
        }
    }
    assert(covered(page, new_ranges, after.live)) by {
        assert forall|a: int| #[trigger] page.has(a) implies free_has(new_ranges, a) || live_has(
            after.live,
            a,
        ) by {
            if nb.has(a) {
                assert(after.live.contains(nb) && nb.has(a));
            } else if live_has(books.live, a) {
                let c = choose|c: Slice| #[trigger] books.live.contains(c) && c.has(a);
                assert(after.live.contains(c) && c.has(a));
            } else {
                let k = choose|k: int| 0 <= k < ranges.len() && (#[trigger] ranges[k]).has(a);
                if k == j {
                    assert(r.len > need);
                    assert(new_ranges[j].has(a));
                } else {
                    let dst = if r.len <= need && k == ranges.len() - 1 {
                        j
                    } else {
                        k
                    };
                    assert(new_ranges[dst] == ranges[k]);
                    assert(new_ranges[dst].has(a));
                }
            }
        }
    }
    assert forall|k: int| 0 <= k < after.pages.len() implies ranges_ok(
        after.pages[k],
        #[trigger] after.free[k],
    ) && clear_of(after.live, after.free[k]) && covered(after.pages[k], after.free[k], after.live) by {
        if k != i {
            let other = books.free[k];
            assert(after.free[k] == other);
            assert(ranges_ok(books.pages[k], other));
            assert(clear_of(books.live, other));
            assert(covered(books.pages[k], other, books.live));
            assert(books.pages[k].disjoint(page));
            assert forall|c: Slice, o: int| #[trigger]
                after.live.contains(c) && 0 <= o < other.len() implies c.disjoint(
                #[trigger] other[o],
            ) by {
                if c == nb {
                    assert(other[o].within(books.pages[k]));
                } else {
                    assert(books.live.contains(c));
                }
            }
            assert forall|a: int| #[trigger] after.pages[k].has(a) implies free_has(
                after.free[k],
                a,
            ) || live_has(after.live, a) by {
                if live_has(books.live, a) {
                    let c = choose|c: Slice| #[trigger] books.live.contains(c) && c.has(a);
                    assert(c != b);
                    assert(after.live.contains(c) && c.has(a));
                }
            }
        }
    }
    assert forall|c: Slice| #[trigger] after.live.contains(c) implies c.len > 0 && in_some_page(
        after.pages,
        c,
    ) by {
        if c == nb {
            assert(nb.within(after.pages[i]));
        } else {
            assert(books.live.contains(c));
        }
    }
    assert forall|c: Slice, d: Slice|
        #[trigger] after.live.contains(c) && #[trigger] after.live.contains(d) && c
            != d implies c.disjoint(d) by {
        if c != nb {
            assert(books.live.contains(c));
        }
        if d != nb {
            assert(books.live.contains(d));
        }
    }
}

/// In books that meet their invariant, no page is owned twice.
pub proof fn lemma_pages_distinct(books: Books, i: int, k: int)
    requires
        books.wf(),
        0 <= i < books.pages.len(),
        0 <= k < books.pages.len(),
        i != k,
    ensures
        books.pages[i] != books.pages[k],
        books.pages[i].disjoint(books.pages[k]),
{
    assert(page_ok(books.pages[i]));
}

/// In books that meet their invariant, a page in which no live block lies
/// is wholly free: its free ranges are one range, the page itself. And a
/// page that is wholly free holds no live block.
pub proof fn lemma_empty_page_is_whole_free(books: Books, i: int)
    requires
        books.wf(),
        0 <= i < books.pages.len(),
    ensures
        is_whole_free(books.pages[i], books.free[i]) <==> forall|b: Slice| #[trigger]
            books.live.contains(b) ==> !b.within(books.pages[i]),
{
    let page = books.pages[i];
    let ranges = books.free[i];
    assert(page_ok(page));
    assert(ranges_ok(page, ranges));
    assert(clear_of(books.live, ranges));
    assert(covered(page, ranges, books.live));
    if is_whole_free(page, ranges) {
        assert forall|b: Slice| #[trigger] books.live.contains(b) implies !b.within(page) by {
            assert(b.disjoint(ranges[0]));
        }
    }
    if forall|b: Slice| #[trigger] books.live.contains(b) ==> !b.within(page) {
        // every byte of the page is free
        assert forall|a: int| #[trigger] page.has(a) implies free_has(ranges, a) by {
            if live_has(books.live, a) {
                let b = choose|b: Slice| #[trigger] books.live.contains(b) && b.has(a);
                assert(in_some_page(books.pages, b));
                let k = choose|k: int| 0 <= k < books.pages.len() && b.within(#[trigger] books.pages[k]);
                if k != i {
                    assert(books.pages[k].disjoint(page));
                }
            }
        }
        // the range that holds the first byte of the page is the page
        assert(page.has(page.ptr as int));
        let f = choose|f: int| 0 <= f < ranges.len() && (#[trigger] ranges[f]).has(page.ptr as int);
        assert(ranges[f].within(page));
        if ranges[f].end() < page.end() {
            assert(page.has(ranges[f].end()));
            let g = choose|g: int|
                0 <= g < ranges.len() && (#[trigger] ranges[g]).has(ranges[f].end());
            assert(separated(ranges[f], ranges[g]));
        }
        assert(ranges[f] == page);
        if ranges.len() > 1 {
            let h = if f == 0 {
                1int
            } else {
                0int
            };
            assert(separated(ranges[h], ranges[f]));
            assert(ranges[h].within(page) && ranges[h].len > 0);
        }
        assert(ranges.len() == 1);
    }
}

/// Giving back the block that was just placed in a free range restores the
/// books: the pages and the live blocks are as before, and every page has
/// the free ranges that it had, whatever their order.
pub proof fn lemma_place_then_release(
    books: Books,
    i: int,
    j: int,
    size: usize,
    align: usize,
    after: Books,
)
    requires
        books.wf(),
        0 <= i < books.free.len(),
        0 <= j < books.free[i].len(),
        size > 0,
        align > 0,
        fits(books.free[i][j], size, align),
        books.place(i, j, size, align).released(placed(books.free[i][j], size, align), after),
    ensures
        after.pages == books.pages,
        after.live == books.live,
        after.free.len() == books.free.len(),
        forall|k: int|
            0 <= k < books.free.len() ==> (#[trigger] after.free[k]).to_set()
                == books.free[k].to_set(),
{
    let mid = books.place(i, j, size, align);
    let r = books.free[i][j];
    let s = placed(r, size, align);
    let pad = pad_of(r, align);
    let page = books.pages[i];
    let ranges = books.free[i];
    lemma_place(books, i, j, size, align);
    lemma_page_index(mid, s, i);
    assert(mid.page_index(s) == i);
    assert(after.live =~= books.live);
    assert(page_ok(page));
    assert(ranges_ok(page, ranges));
    lemma_align_up_is_least_multiple(r.ptr as int, align as int);
    let lead = lead_of(r, align);
    let trail = trail_of(r, size, align);
    let with_lead = if pad > 0 {
        ranges.push(lead)
    } else {
        ranges
    };
    let with_trail = if r.len > pad + size {
        with_lead.push(trail)
    } else {
        with_lead
    };
    let carved = carve(ranges, j, size, align);
    assert(carved == mid.free[i]);
    lemma_swap_removed(with_trail, j);
    // what the carved ranges are: the old ones but `r`, the lead and the trail
    assert forall|x: Slice| carved.contains(x) <==> (ranges.contains(x) && x != r) || (pad > 0 && x
        == lead) || (r.len > pad + size && x == trail) by {
        if carved.contains(x) {
            let k = choose|k: int| 0 <= k < carved.len() && carved[k] == x;
            let src = if k == j {
                with_trail.len() - 1
            } else {
                k
            };
            assert(carved[k] == with_trail[src]);
            if src < ranges.len() {
                assert(ranges[src] == x);
                assert(separated(ranges[src], ranges[j]));
            }
        }
        if ranges.contains(x) && x != r {
            let k = choose|k: int| 0 <= k < ranges.len() && ranges[k] == x;
            let dst = if k == with_trail.len() - 1 {
                j
            } else {
                k
            };
            assert(carved[dst] == with_trail[k]);
        }
        if pad > 0 && x == lead {
            let src = ranges.len() as int;
            let dst = if src == with_trail.len() - 1 {
                j
            } else {
                src
            };
            assert(carved[dst] == with_trail[src]);
        }
        if r.len > pad + size && x == trail {
            let src = with_trail.len() - 1;
            assert(carved[j] == with_trail[src]);
        }
    }
    // the old ranges other than `r` do not touch the block
    assert forall|x: Slice| ranges.contains(x) && x != r implies !touches(x, s) by {
        let k = choose|k: int| 0 <= k < ranges.len() && ranges[k] == x;
        assert(separated(ranges[k], ranges[j]));
    }
    // the range merged from the block and its neighbours is `r`
    assert(range_ending_at(carved, s.ptr as int) == if pad > 0 {
        Some(lead)
    } else {
        None::<Slice>
    }) by {
        if exists|c: int| 0 <= c < carved.len() && (#[trigger] carved[c]).end() == s.ptr as int {
            let c = choose|c: int|
                0 <= c < carved.len() && (#[trigger] carved[c]).end() == s.ptr as int;
            assert(carved.contains(carved[c]));
            assert(touches(carved[c], s));
        } else if pad > 0 {
            assert(carved.contains(lead));
            let c = choose|c: int| 0 <= c < carved.len() && carved[c] == lead;
            assert(carved[c].end() == s.ptr as int);
        }
    }
    assert(range_starting_at(carved, s.end()) == if r.len > pad + size {
        Some(trail)
    } else {
        None::<Slice>
    }) by {
        if exists|c: int| 0 <= c < carved.len() && (#[trigger] carved[c]).ptr == s.end() {
            let c = choose|c: int| 0 <= c < carved.len() && (#[trigger] carved[c]).ptr == s.end();
            assert(carved.contains(carved[c]));
            assert(touches(carved[c], s));
        } else if r.len > pad + size {
            assert(carved.contains(trail));
            let c = choose|c: int| 0 <= c < carved.len() && carved[c] == trail;
            assert(carved[c].ptr == s.end());
        }
    }
    assert(merged(carved, s) == r);
    assert forall|k: int| 0 <= k < books.free.len() implies (#[trigger] after.free[k]).to_set()
        == books.free[k].to_set() by {
        if k == i {
            assert forall|x: Slice| after.free[i].to_set().contains(x) <==> ranges.to_set().contains(
                x,
            ) by {
                assert(after.free[i].contains(x) <==> x == merged(carved, s) || (carved.contains(x)
                    && !touches(x, s)));
                if x == r {
                    assert(ranges[j] == r);
                }
            }
            assert(after.free[i].to_set() =~= ranges.to_set());
        } else {
            assert(mid.free[k] == books.free[k]);
        }
    }
}

/// Giving back the block that was just served from a new page leaves that
/// page wholly free.
pub proof fn lemma_open_page_then_release(books: Books, page: Slice, size: usize, after: Books)
    requires
        books.wf(),
        books.accepts(page, size),
        size > 0,
        books.open_page(page, size).released(Slice { ptr: page.ptr, len: size }, after),
    ensures
        after.wf(),
        after.pages == books.pages.push(page),
        after.live == books.live,
        is_whole_free(page, after.free[books.pages.len() as int]),
{
    let mid = books.open_page(page, size);
    let s = Slice { ptr: page.ptr, len: size };
    let n = books.pages.len() as int;
    lemma_open_page(books, page, size);
    lemma_page_index(mid, s, n);
    lemma_release(mid, s, after);
    assert(after.live =~= books.live);
    assert forall|b: Slice| #[trigger] after.live.contains(b) implies !b.within(after.pages[n]) by {
        assert(in_some_page(books.pages, b));
        let k = choose|k: int| 0 <= k < books.pages.len() && b.within(#[trigger] books.pages[k]);
        assert(page.disjoint(books.pages[k]));
    }
    lemma_empty_page_is_whole_free(after, n);
}

/// When the last live block is given back, the allocator is idle: it owns
/// no more bytes than the mark above which empty pages are given up. Here
/// `mid` are the books once the block is given back, `after` the books once
/// the empty pages are given up, if the owned bytes were above `mark`.
pub proof fn lemma_idle_footprint(books: Books, b: Slice, mid: Books, after: Books, mark: usize)
    requires
        books.wf(),
        books.live.contains(b),
        books.released(b, mid),
        if mark >= books.owned_bytes() {
            after == mid
        } else {
            mid.swept(after)
        },
        after.pages.len() == after.free.len(),
        after.live == Set::<Slice>::empty(),
    ensures
        after.owned_bytes() <= mark,
{
    lemma_release(books, b, mid);
    if mark < books.owned_bytes() {
        if after.pages.len() > 0 {
            assert(after.has_page(after.pages[0], after.free[0]));
            assert(mid.has_page(after.pages[0], after.free[0]));
            let i = choose|i: int|
                0 <= i < mid.pages.len() && #[trigger] mid.pages[i] == after.pages[0] && mid.free[i]
                    == after.free[0];
            lemma_empty_page_is_whole_free(mid, i);
        }
        assert(after.pages =~= Seq::<Slice>::empty());
    }
}

/// Some free range holds at least `n` bytes, or `n` is not above zero.
pub open spec fn has_room(free: Seq<Seq<Slice>>, n: int) -> bool {
    n <= 0 || exists|i: int, j: int|
        0 <= i < free.len() && 0 <= j < free[i].len() && (#[trigger] free[i][j]).len >= n
}

/// A free range of `size + align - 1` bytes fits a request for `size` bytes
/// at a multiple of `align`, wherever it starts.
pub proof fn lemma_room_fits(free: Seq<Seq<Slice>>, n: int, size: usize, align: usize)
    requires
        has_room(free, n),
        size > 0,
        align > 0,
        n >= size + align - 1,
    ensures
        !no_fit(free, size, align),
{
    let (i, j) = choose|i: int, j: int|
        0 <= i < free.len() && 0 <= j < free[i].len() && (#[trigger] free[i][j]).len >= n;
    lemma_align_up_is_least_multiple(free[i][j].ptr as int, align as int);
    assert(fits(free[i][j], size, align));
}

/// Placing a block of `size` bytes at a multiple of `align` takes at most
/// `size + align - 1` bytes off the room: if a free range held `n` bytes
/// before, one holds `n - (size + align - 1)` bytes afterwards.
pub proof fn lemma_room_after_place(
    books: Books,
    i: int,
    j: int,
    size: usize,
    align: usize,
    n: int,
)
    requires
        books.wf(),
        0 <= i < books.free.len(),
        0 <= j < books.free[i].len(),
        size > 0,
        align > 0,
        fits(books.free[i][j], size, align),
        has_room(books.free, n),
    ensures
        has_room(books.place(i, j, size, align).free, n - (size + align - 1)),
{
    let left = n - (size + align - 1);
    if left > 0 {
        let after = books.place(i, j, size, align).free;
        let (a, b) = choose|a: int, b: int|
            0 <= a < books.free.len() && 0 <= b < books.free[a].len() && (
            #[trigger] books.free[a][b]).len >= n;
        let ranges = books.free[i];
        let r = ranges[j];
        let pad = pad_of(r, align);
        lemma_align_up_is_least_multiple(r.ptr as int, align as int);
        assert(ranges_ok(books.pages[i], ranges));
        assert(page_ok(books.pages[i]));
        let lead = lead_of(r, align);
        let trail = trail_of(r, size, align);
        let with_lead = if pad > 0 {
            ranges.push(lead)
        } else {
            ranges
        };
        let with_trail = if r.len > pad + size {
            with_lead.push(trail)
        } else {
            with_lead
        };
        lemma_swap_removed(with_trail, j);
        if a != i {
            assert(after[a][b].len >= left);
        } else if b != j {
            let dst = if b == with_trail.len() - 1 {
                j
            } else {
                b
            };
            assert(after[i][dst] == ranges[b]);
            assert(after[i][dst].len >= left);
        } else {
            assert(trail.len >= left);
            assert(with_trail[with_trail.len() - 1] == trail);
            assert(after[i][j] == trail);
            assert(after[i][j].len >= left);
        }
    }
}

/// Giving a block back takes nothing off the room: if a free range held
/// `n` bytes before, one holds as many afterwards.
pub proof fn lemma_room_after_release(books: Books, b: Slice, after: Books, n: int)
    requires
        books.wf(),
        books.live.contains(b),
        books.released(b, after),
        has_room(books.free, n),
    ensures
        has_room(after.free, n),
{
    if n > 0 {
        let i = books.page_index(b);
        lemma_page_index(books, b, i);
        let (a, c) = choose|a: int, c: int|
            0 <= a < books.free.len() && 0 <= c < books.free[a].len() && (
            #[trigger] books.free[a][c]).len >= n;
        if a != i {
            assert(after.free[a][c].len >= n);
        } else {
            let ranges = books.free[i];
            let x = ranges[c];
            let m = merged(ranges, b);
            assert(ranges_ok(books.pages[i], ranges));
            assert(page_ok(books.pages[i]));
            assert(ranges.contains(x));
            if touches(x, b) {
                // a neighbour of the block is a part of the merged range
                if x.end() == b.ptr {
                    let k = choose|k: int|
                        0 <= k < ranges.len() && (#[trigger] ranges[k]).end() == b.ptr as int;
                    if k != c {
                        assert(separated(ranges[k], ranges[c]));
                    }
                    assert(range_ending_at(ranges, b.ptr as int) == Some(x));
                } else {
                    let k = choose|k: int|
                        0 <= k < ranges.len() && (#[trigger] ranges[k]).ptr == b.end();
                    if k != c {
                        assert(separated(ranges[k], ranges[c]));
                    }
                    assert(range_starting_at(ranges, b.end()) == Some(x));
                }
                let left = range_ending_at(ranges, b.ptr as int);
                let right = range_starting_at(ranges, b.end());
                assert(left matches Some(l) ==> ranges.contains(l) && l.end() == b.ptr);
                assert(right matches Some(r) ==> ranges.contains(r) && r.ptr == b.end());
                assert(left matches Some(l) ==> l.within(books.pages[i]) && l.len > 0) by {
                    if let Some(l) = left {
                        let k = choose|k: int| 0 <= k < ranges.len() && ranges[k] == l;
                        assert(ranges[k].within(books.pages[i]));
                    }
                }
                assert(right matches Some(r) ==> r.within(books.pages[i]) && r.len > 0) by {
                    if let Some(r) = right {
                        let k = choose|k: int| 0 <= k < ranges.len() && ranges[k] == r;
                        assert(ranges[k].within(books.pages[i]));
                    }
                }
                assert(m.len >= x.len);
                assert(after.free[i].contains(m));
                let d = choose|d: int| 0 <= d < after.free[i].len() && after.free[i][d] == m;
                assert(after.free[i][d].len >= n);
            } else {
                assert(after.free[i].contains(x));
                let d = choose|d: int| 0 <= d < after.free[i].len() && after.free[i][d] == x;
                assert(after.free[i][d].len >= n);
            }
        }
    }
}

} // verus!
