//! The vocabulary that the allocators share: byte ranges named by integer
//! addresses, layouts, and the interface that every allocator offers.
//!
//! Addresses are plain `usize` values. Nothing here touches memory: an
//! allocator decides which byte ranges are in use, and whoever owns the
//! memory turns an address into a pointer.

use vstd::arithmetic::power2::is_pow2;
use vstd::prelude::*;

verus! {

/// The largest alignment that the allocators serve.
pub const MAX_ALIGN: usize = 4096;

/// The alignment of every page and of every backing block.
pub const PAGE_ALIGN: usize = 4096;

/// The address of every zero-length range: not null, and never dereferenced.
pub const SENTINEL: usize = 1;

/// A contiguous range of bytes: its first address and its length.
#[derive(Clone, Copy, Debug, PartialEq, Eq, Structural)]
pub struct Slice {
    pub ptr: usize,
    pub len: usize,
}

/// The request could not be served: the backing source is exhausted, a
/// configured limit is reached, or the request is one that the allocator
/// does not support.
#[derive(Clone, Copy, Debug, PartialEq, Eq, Structural)]
pub struct AllocError;

/// The range that starts at `ptr` and holds `len` bytes.
pub open spec fn block(ptr: usize, len: usize) -> Slice {
    Slice { ptr, len }
}

impl Slice {
    /// The address one past the last byte.
    pub open spec fn end(self) -> int {
        self.ptr + self.len
    }

    /// Address `a` is one of the bytes of the range.
    pub open spec fn has(self, a: int) -> bool {
        self.ptr <= a < self.end()
    }

    /// Every byte of the range is a byte of `outer`.
    pub open spec fn within(self, outer: Slice) -> bool {
        outer.ptr <= self.ptr && self.end() <= outer.end()
    }

    /// The two ranges share no byte.
    pub open spec fn disjoint(self, other: Slice) -> bool {
        self.end() <= other.ptr || other.end() <= self.ptr
    }

    /// The first address of one range is a byte of the other.
    pub open spec fn overlaps(self, other: Slice) -> bool {
        other.has(self.ptr as int) || self.has(other.ptr as int)
    }

    /// The range does not wrap around the end of the address space.
    pub open spec fn fits_address_space(self) -> bool {
        self.end() <= usize::MAX
    }

    /// The zero-length range that answers a request for no bytes.
    pub fn empty() -> (res: Slice)
        ensures
            res == block(SENTINEL, 0),
    {
        Slice { ptr: SENTINEL, len: 0 }
    }

    /// Whether every byte of the range is a byte of `outer`.
    pub fn is_within(&self, outer: &Slice) -> (res: bool)
        ensures
            res == self.within(*outer),
    {
        self.ptr >= outer.ptr && self.ptr - outer.ptr <= outer.len && self.len <= outer.len - (
        self.ptr - outer.ptr)
    }

    /// Whether the two ranges overlap, computed without leaving `usize`.
    pub fn is_disjoint(&self, other: &Slice) -> (res: bool)
        ensures
            res == !self.overlaps(*other),
    {
        let self_in_other = self.ptr >= other.ptr && self.ptr - other.ptr < other.len;
        let other_in_self = other.ptr >= self.ptr && other.ptr - self.ptr < self.len;
        !(self_in_other || other_in_self)
    }
}

/// Two ranges that both hold a byte overlap exactly when they share one.
pub proof fn lemma_overlaps_iff_not_disjoint(a: Slice, b: Slice)
    requires
        a.len > 0,
        b.len > 0,
    ensures
        a.overlaps(b) <==> !a.disjoint(b),
        a.overlaps(b) <==> exists|x: int| a.has(x) && b.has(x),
{
    if a.overlaps(b) {
        if b.has(a.ptr as int) {
            assert(a.has(a.ptr as int) && b.has(a.ptr as int));
        } else {
            assert(a.has(b.ptr as int) && b.has(b.ptr as int));
        }
    }
}

/// A size in bytes together with an alignment that is a power of two.
#[derive(Clone, Copy, Debug)]
pub struct Layout {
    size: usize,
    align: usize,
}

impl Layout {
    #[verifier::type_invariant]
    spec fn well_formed(self) -> bool {
        is_pow2(self.align as int)
    }

    /// The number of bytes asked for.
    pub closed spec fn spec_size(&self) -> usize {
        self.size
    }

    /// The alignment asked for.
    pub closed spec fn spec_align(&self) -> usize {
        self.align
    }

    /// The layout of `size` bytes aligned to `align`, if `align` is a power of two.
    pub fn from_size_align(size: usize, align: usize) -> (res: Option<Layout>)
        ensures
            res is Some <==> is_pow2(align as int),
            res matches Some(layout) ==> layout.size() == size && layout.align() == align,
    {
        if is_power_of_two(align) {
            Some(Layout { size, align })
        } else {
            None
        }
    }

    /// The layout of `size` bytes aligned to a page.
    pub fn page_aligned(size: usize) -> (res: Layout)
        ensures
            res.size() == size,
            res.align() == PAGE_ALIGN,
    {
        proof {
            reveal_with_fuel(is_pow2, 14);
        }
        Layout { size, align: PAGE_ALIGN }
    }

    /// The number of bytes asked for.
    #[verifier::when_used_as_spec(spec_size)]
    pub fn size(&self) -> (res: usize)
        ensures
            res == self.size(),
    {
        self.size
    }

    /// The alignment asked for: a power of two.
    #[verifier::when_used_as_spec(spec_align)]
    pub fn align(&self) -> (res: usize)
        ensures
            res == self.align(),
            is_pow2(res as int),
            res > 0,
    {
        proof {
            use_type_invariant(self);
            reveal(is_pow2);
        }
        self.align
    }
}

/// Whether `n` is a power of two.
pub fn is_power_of_two(n: usize) -> (res: bool)
    ensures
        res == is_pow2(n as int),
{
    if n == 0 {
        proof {
            reveal(is_pow2);
        }
        return false;
    }
    let mut rest: usize = n;
    while rest % 2 == 0
        invariant
            rest > 0,
            is_pow2(rest as int) == is_pow2(n as int),
        decreases rest,
    {
        proof {
            reveal(is_pow2);
        }
        rest = rest / 2;
    }
    proof {
        reveal(is_pow2);
    }
    rest == 1
}

/// A power of two that does not exceed 4096 divides every multiple of 4096.
pub proof fn lemma_page_aligned_is_aligned(addr: int, align: int)
    requires
        is_pow2(align),
        align <= PAGE_ALIGN,
        addr % (PAGE_ALIGN as int) == 0,
    ensures
        addr % align == 0,
{
    reveal_with_fuel(is_pow2, 14);
    assert(align == 1 || align == 2 || align == 4 || align == 8 || align == 16 || align == 32
        || align == 64 || align == 128 || align == 256 || align == 512 || align == 1024 || align
        == 2048 || align == 4096);
    let k: int = if align == 1 {
        4096
    } else if align == 2 {
        2048
    } else if align == 4 {
        1024
    } else if align == 8 {
        512
    } else if align == 16 {
        256
    } else if align == 32 {
        128
    } else if align == 64 {
        64
    } else if align == 128 {
        32
    } else if align == 256 {
        16
    } else if align == 512 {
        8
    } else if align == 1024 {
        4
    } else if align == 2048 {
        2
    } else {
        1
    };
    let q = addr / (PAGE_ALIGN as int);
    assert(k * align == 4096);
    assert(addr == (k * q) * align) by (nonlinear_arith)
        requires
            addr == 4096 * q,
            k * align == 4096,
    ;
    vstd::arithmetic::div_mod::lemma_mod_multiples_basic(k * q, align);
}

/// What became of a block that was asked to change its size.
#[derive(Clone, Copy, Debug, PartialEq, Eq, Structural)]
pub enum Resized {
    /// The block has its new size where it stands.
    InPlace(Slice),
    /// A new block was allocated. The old block is still live: the caller
    /// copies its bytes over and then deallocates it.
    Moved(Slice),
}

impl Resized {
    /// The block that the caller now holds.
    pub open spec fn spec_slice(&self) -> Slice {
        match *self {
            Resized::InPlace(s) => s,
            Resized::Moved(s) => s,
        }
    }

    /// The block that the caller now holds.
    #[verifier::when_used_as_spec(spec_slice)]
    pub fn slice(&self) -> (res: Slice)
        ensures
            res == self.slice(),
    {
        match self {
            Resized::InPlace(s) => *s,
            Resized::Moved(s) => *s,
        }
    }
}

/// An allocator of byte ranges.
///
/// The two spec functions carry an implementation's own state through
/// generic code. An implementation that keeps no such state leaves them at
/// their defaults, under which the clauses below ask nothing of it.
pub trait Allocator {
    /// The allocator's internal invariant.
    open spec fn wf(&self) -> bool {
        true
    }

    /// `b` is a block that this allocator handed out and that may be given
    /// back to it.
    open spec fn is_live(&self, b: Slice) -> bool {
        true
    }

    /// Hands out a block for `layout`. A block that holds bytes is live from
    /// then on, and every block that was live stays so.
    fn allocate(&mut self, layout: Layout) -> (res: Result<Slice, AllocError>)
        requires
            old(self).wf(),
        ensures
            final(self).wf(),
            forall|b: Slice| old(self).is_live(b) ==> final(self).is_live(b),
            res matches Ok(b) ==> b.len > 0 ==> final(self).is_live(b),
    ;

    /// Takes back the block of `layout.size()` bytes at `ptr`. Every other
    /// block stays live.
    fn deallocate(&mut self, ptr: usize, layout: Layout)
        requires
            old(self).wf(),
            layout.size() > 0 ==> old(self).is_live(block(ptr, layout.size())),
        ensures
            final(self).wf(),
            forall|b: Slice|
                old(self).is_live(b) && b != block(ptr, layout.size()) ==> final(self).is_live(b),
    ;

    /// Enlarges the block of `old_layout.size()` bytes at `ptr` to
    /// `new_layout.size()` bytes. Every other block stays live; so does the
    /// old block, unless it was enlarged where it stands to a size above
    /// zero. The block that the caller holds afterwards is live if it holds
    /// a byte.
    fn grow(&mut self, ptr: usize, old_layout: Layout, new_layout: Layout) -> (res: Result<
        Resized,
        AllocError,
    >)
        requires
            old(self).wf(),
            old_layout.size() > 0 ==> old(self).is_live(block(ptr, old_layout.size())),
        ensures
            final(self).wf(),
            forall|b: Slice|
                old(self).is_live(b) && b != block(ptr, old_layout.size()) ==> final(self).is_live(
                    b,
                ),
            res matches Ok(r) ==> r.slice().len > 0 ==> final(self).is_live(r.slice()),
            !(res matches Ok(Resized::InPlace(_))) || new_layout.size() == 0 ==> forall|b: Slice|
                old(self).is_live(b) ==> final(self).is_live(b),
    ;

    /// Reduces the block of `old_layout.size()` bytes at `ptr` to
    /// `new_layout.size()` bytes. Every other block stays live; so does the
    /// old block, unless it was reduced where it stands to a size above
    /// zero. The block that the caller holds afterwards is live if it holds
    /// a byte.
    fn shrink(&mut self, ptr: usize, old_layout: Layout, new_layout: Layout) -> (res: Result<
        Resized,
        AllocError,
    >)
        requires
            old(self).wf(),
            old_layout.size() > 0 ==> old(self).is_live(block(ptr, old_layout.size())),
        ensures
            final(self).wf(),
            forall|b: Slice|
                old(self).is_live(b) && b != block(ptr, old_layout.size()) ==> final(self).is_live(
                    b,
                ),
            res matches Ok(r) ==> r.slice().len > 0 ==> final(self).is_live(r.slice()),
            !(res matches Ok(Resized::InPlace(_))) || new_layout.size() == 0 ==> forall|b: Slice|
                old(self).is_live(b) ==> final(self).is_live(b),
    ;
}

} // verus!
