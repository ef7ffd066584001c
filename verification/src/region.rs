//! Regions taken from a backing source: what makes one usable, the bytes
//! that a list of them holds, and the test that admits a new one.

use crate::allocator::{lemma_overlaps_iff_not_disjoint, Slice, PAGE_ALIGN};
use vstd::prelude::*;

verus! {

/// A range that can serve as a page: it starts at a multiple of 4096 above
/// zero, holds a byte, and ends inside the address space.
pub open spec fn page_ok(page: Slice) -> bool {
    &&& page.ptr > 0
    &&& page.ptr % PAGE_ALIGN == 0
    &&& page.len > 0
    &&& page.fits_address_space()
}

/// The sum of the lengths of `pages`.
pub open spec fn total_len(pages: Seq<Slice>) -> nat
    decreases pages.len(),
{
    if pages.len() == 0 {
        0
    } else {
        total_len(pages.drop_last()) + pages.last().len as nat
    }
}

/// `region` can join the regions `owned` to serve `size` bytes: it can serve
/// as a page, holds `size` bytes, shares no byte with a region owned, and
/// the sum of the lengths stays within `usize`.
pub open spec fn admits(owned: Seq<Slice>, region: Slice, size: usize) -> bool {
    &&& page_ok(region)
    &&& region.len >= size
    &&& total_len(owned) + region.len <= usize::MAX
    &&& forall|i: int| 0 <= i < owned.len() ==> region.disjoint(#[trigger] owned[i])
}

/// Whether `region` can join the regions `owned`, whose lengths add up to
/// `total`, to serve `size` bytes.
pub fn is_admissible(owned: &Vec<Slice>, total: usize, region: Slice, size: usize) -> (res: bool)
    requires
        total == total_len(owned@),
        forall|i: int| 0 <= i < owned@.len() ==> page_ok(#[trigger] owned@[i]),
    ensures
        res == admits(owned@, region, size),
{
    if region.ptr == 0 || region.ptr % PAGE_ALIGN != 0 || region.len == 0 || region.len < size {
        return false;
    }
    if region.len > usize::MAX - region.ptr || region.len > usize::MAX - total {
        return false;
    }
    let mut i: usize = 0;
    while i < owned.len()
        invariant
            region.len > 0,
            region.fits_address_space(),
            0 <= i <= owned.len(),
            forall|k: int| 0 <= k < owned@.len() ==> page_ok(#[trigger] owned@[k]),
            forall|k: int| 0 <= k < i ==> region.disjoint(#[trigger] owned@[k]),
        decreases owned.len() - i,
    {
        let other = owned[i];
        proof {
            assert(page_ok(owned@[i as int]));
            lemma_overlaps_iff_not_disjoint(region, other);
        }
        if !region.is_disjoint(&other) {
            return false;
        }
        i += 1;
    }
    true
}

/// The first place where `list` holds `slice`, if it holds it.
pub fn position(list: &Vec<Slice>, slice: Slice) -> (res: Option<usize>)
    ensures
        match res {
            Some(i) => i < list@.len() && list@[i as int] == slice && forall|k: int|
                0 <= k < i ==> list@[k] != slice,
            None => !list@.contains(slice),
        },
{
    let mut i: usize = 0;
    while i < list.len()
        invariant
            0 <= i <= list.len(),
            forall|k: int| 0 <= k < i ==> list@[k] != slice,
        decreases list.len() - i,
    {
        if list[i].ptr == slice.ptr && list[i].len == slice.len {
            return Some(i);
        }
        i += 1;
    }
    None
}

/// `s` without its element `j`, whose place the last element takes.
pub open spec fn swap_removed<T>(s: Seq<T>, j: int) -> Seq<T> {
    s.update(j, s.last()).drop_last()
}

/// The element that stands at place `k` after element `j` was swap-removed
/// stood at the last place before, if `k` is `j`, and at place `k` otherwise.
pub proof fn lemma_swap_removed<T>(s: Seq<T>, j: int)
    requires
        0 <= j < s.len(),
    ensures
        swap_removed(s, j).len() == s.len() - 1,
        forall|k: int|
            0 <= k < s.len() - 1 ==> #[trigger] swap_removed(s, j)[k] == s[if k == j {
                s.len() - 1
            } else {
                k
            }],
{
}

/// Appending a page adds its length to the total.
pub proof fn lemma_total_len_push(pages: Seq<Slice>, page: Slice)
    ensures
        total_len(pages.push(page)) == total_len(pages) + page.len,
{
    assert(pages.push(page).drop_last() =~= pages);
}

/// Replacing a page changes the total by the difference of the two lengths.
pub proof fn lemma_total_len_update(pages: Seq<Slice>, i: int, page: Slice)
    requires
        0 <= i < pages.len(),
    ensures
        total_len(pages.update(i, page)) == total_len(pages) - pages[i].len + page.len,
    decreases pages.len(),
{
    if i == pages.len() - 1 {
        assert(pages.update(i, page).drop_last() =~= pages.drop_last());
    } else {
        lemma_total_len_update(pages.drop_last(), i, page);
        assert(pages.update(i, page).drop_last() =~= pages.drop_last().update(i, page));
    }
}

/// Swap-removing a page takes its length off the total.
pub proof fn lemma_total_len_swap_removed(pages: Seq<Slice>, i: int)
    requires
        0 <= i < pages.len(),
    ensures
        total_len(swap_removed(pages, i)) == total_len(pages) - pages[i].len,
{
    lemma_total_len_update(pages, i, pages.last());
}

/// No page is longer than the total.
pub proof fn lemma_total_len_bounds(pages: Seq<Slice>, i: int)
    requires
        0 <= i < pages.len(),
    ensures
        pages[i].len <= total_len(pages),
    decreases pages.len(),
{
    if i < pages.len() - 1 {
        lemma_total_len_bounds(pages.drop_last(), i);
    }
}

/// Swap-removing an element of a sequence without duplicates removes it
/// from the set of its elements, and leaves no duplicates.
pub proof fn lemma_swap_removed_set<T>(s: Seq<T>, j: int)
    requires
        0 <= j < s.len(),
        s.no_duplicates(),
    ensures
        swap_removed(s, j).no_duplicates(),
        swap_removed(s, j).to_set() == s.to_set().remove(s[j]),
{
    let t = swap_removed(s, j);
    lemma_swap_removed(s, j);
    assert forall|x: T| t.to_set().contains(x) <==> s.to_set().remove(s[j]).contains(x) by {
        if t.to_set().contains(x) {
            let k = choose|k: int| 0 <= k < t.len() && t[k] == x;
            let src = if k == j {
                s.len() - 1
            } else {
                k
            };
            assert(s[src] == x);
        }
        if s.to_set().remove(s[j]).contains(x) {
            let k = choose|k: int| 0 <= k < s.len() && s[k] == x;
            let dst = if k == s.len() - 1 {
                j
            } else {
                k
            };
            assert(t[dst] == x);
        }
    }
    assert(t.to_set() =~= s.to_set().remove(s[j]));
}

/// Replacing an element of a sequence without duplicates by a value that it
/// does not hold replaces it in the set of its elements, and leaves no
/// duplicates.
pub proof fn lemma_update_set<T>(s: Seq<T>, j: int, v: T)
    requires
        0 <= j < s.len(),
        s.no_duplicates(),
        !s.to_set().remove(s[j]).contains(v),
    ensures
        s.update(j, v).no_duplicates(),
        s.update(j, v).to_set() == s.to_set().remove(s[j]).insert(v),
{
    let t = s.update(j, v);
    assert forall|k: int, m: int| 0 <= k < t.len() && 0 <= m < t.len() && k != m implies t[k]
        != t[m] by {
        if k == j {
            assert(s.to_set().contains(s[m]));
        } else if m == j {
            assert(s.to_set().contains(s[k]));
        }
    }
    assert forall|x: T| t.to_set().contains(x) <==> s.to_set().remove(s[j]).insert(v).contains(
        x,
    ) by {
        if t.to_set().contains(x) {
            let k = choose|k: int| 0 <= k < t.len() && t[k] == x;
            if k != j {
                assert(s[k] == x);
            }
        }
        if s.to_set().remove(s[j]).insert(v).contains(x) {
            if x == v {
                assert(t[j] == x);
            } else {
                let k = choose|k: int| 0 <= k < s.len() && s[k] == x;
                assert(t[k] == x);
            }
        }
    }
    assert(t.to_set() =~= s.to_set().remove(s[j]).insert(v));
}

} // verus!
