//! The bump allocator: an arena that serves requests by advancing through
//! blocks taken from a base allocator, and never reuses a byte.

use crate::allocator::{
    block, lemma_page_aligned_is_aligned, AllocError, Allocator, Layout, Resized, Slice,
    MAX_ALIGN, SENTINEL,
};
use crate::region::{
    admits, is_admissible, lemma_total_len_push, page_ok, position, total_len,
};
use crate::util::{
    align_offset, checked_next_multiple_of, lemma_align_up_is_least_multiple, spec_align_offset,
    spec_align_up,
};
use vstd::prelude::*;

verus! {

/// The smallest block asked for, unless configured: 16 MiB.
pub const DEFAULT_MIN_ALLOC_SIZE: usize = 0x0100_0000;

/// The settings of a [`BumpAlloc`].
pub struct Config<A: Allocator> {
    base_alloc: A,
    error_after: usize,
    min_alloc_size: usize,
}

impl<A: Allocator> Config<A> {
    /// The allocator that the blocks come from.
    pub closed spec fn spec_base_alloc(&self) -> A {
        self.base_alloc
    }

    /// Bytes taken from the base from which on every request fails.
    pub closed spec fn spec_error_after(&self) -> usize {
        self.error_after
    }

    /// The size of which every block asked for is a multiple.
    pub closed spec fn spec_min_alloc_size(&self) -> usize {
        self.min_alloc_size
    }

    /// Whether an arena can be made with these settings: the block size is
    /// not zero.
    pub fn is_valid(&self) -> (res: bool)
        ensures
            res == (self.spec_min_alloc_size() > 0),
    {
        self.min_alloc_size > 0
    }

    /// The default settings over `base_alloc`: no limit on the bytes taken,
    /// blocks of multiples of 16 MiB.
    pub fn new(base_alloc: A) -> (res: Self)
        ensures
            res.spec_base_alloc() == base_alloc,
            res.spec_error_after() == usize::MAX,
            res.spec_min_alloc_size() == DEFAULT_MIN_ALLOC_SIZE,
    {
        Config { base_alloc, error_after: usize::MAX, min_alloc_size: DEFAULT_MIN_ALLOC_SIZE }
    }

    /// Sets the number of bytes taken from the base from which on every
    /// request fails.
    pub fn error_after(&mut self, error_after: usize) -> (res: &mut Self)
        ensures
            res.spec_error_after() == error_after,
            res.spec_base_alloc() == old(self).spec_base_alloc(),
            res.spec_min_alloc_size() == old(self).spec_min_alloc_size(),
            *final(self) == *final(res),
    {
        self.error_after = error_after;
        self
    }

    /// Sets the size of which every block asked for is a multiple. An arena
    /// cannot be made with a size of zero.
    pub fn min_alloc_size(&mut self, min_alloc_size: usize) -> (res: &mut Self)
        ensures
            res.spec_min_alloc_size() == min_alloc_size,
            res.spec_base_alloc() == old(self).spec_base_alloc(),
            res.spec_error_after() == old(self).spec_error_after(),
            *final(self) == *final(res),
    {
        self.min_alloc_size = min_alloc_size;
        self
    }
}

/// The state of an arena.
pub struct Arena {
    /// The blocks taken from the base, oldest first.
    pub blocks: Seq<Slice>,
    /// The unused end of the newest block.
    pub current: Slice,
    /// The blocks handed out.
    pub issued: Set<Slice>,
}

impl Arena {
    /// The invariant of an arena: the blocks are usable regions that share
    /// no byte; the current range is the end of the newest block, behind its
    /// first byte; every block handed out holds a byte, lies in one block of
    /// the base and, in the newest, in front of the current range; and no
    /// two blocks handed out share a byte.
    pub open spec fn wf(self) -> bool {
        &&& forall|k: int| 0 <= k < self.blocks.len() ==> page_ok(#[trigger] self.blocks[k])
        &&& forall|k: int, m: int|
            0 <= k < self.blocks.len() && 0 <= m < self.blocks.len() && k != m ==> (
            #[trigger] self.blocks[k]).disjoint(#[trigger] self.blocks[m])
        &&& self.blocks.len() == 0 ==> self.current == block(SENTINEL, 0)
        &&& self.blocks.len() > 0 ==> self.blocks.last().ptr < self.current.ptr
            && self.current.end() == self.blocks.last().end()
        &&& forall|s: Slice| #[trigger] self.issued.contains(s) ==> s.len > 0 && self.holds(s)
        &&& forall|s: Slice, t: Slice|
            #[trigger] self.issued.contains(s) && #[trigger] self.issued.contains(t) && s != t
                ==> s.disjoint(t)
    }

    /// `s` lies in the used part of one of the blocks.
    pub open spec fn holds(self, s: Slice) -> bool {
        exists|k: int|
            0 <= k < self.blocks.len() && s.within(#[trigger] self.blocks[k]) && (k
                == self.blocks.len() - 1 ==> s.end() <= self.current.ptr)
    }

    /// The bytes taken from the base.
    pub open spec fn taken_bytes(self) -> nat {
        total_len(self.blocks)
    }

    /// The bytes of the current range that a block aligned to `align` has to skip.
    pub open spec fn pad(self, align: usize) -> int {
        spec_align_offset(self.current.ptr as int, align as int)
    }

    /// The current range can hold `size` bytes at a multiple of `align`.
    pub open spec fn has_room(self, size: usize, align: usize) -> bool {
        self.current.len >= self.pad(align) + size
    }

    /// The state after `size` bytes aligned to `align` were served from the
    /// current range.
    pub open spec fn bump(self, size: usize, align: usize) -> Arena {
        Arena {
            blocks: self.blocks,
            current: Slice {
                ptr: (self.current.ptr + self.pad(align) + size) as usize,
                len: (self.current.len - self.pad(align) - size) as usize,
            },
            issued: self.issued.insert(
                Slice { ptr: (self.current.ptr + self.pad(align)) as usize, len: size },
            ),
        }
    }

    /// The state after `blk` was taken from the base and its first `size`
    /// bytes were served. What was left of the current range is given up.
    pub open spec fn open_block(self, blk: Slice, size: usize) -> Arena {
        Arena {
            blocks: self.blocks.push(blk),
            current: Slice { ptr: (blk.ptr + size) as usize, len: (blk.len - size) as usize },
            issued: self.issued.insert(Slice { ptr: blk.ptr, len: size }),
        }
    }

    /// The block `b` ends where the current range starts, and the current
    /// range holds the bytes that `b` lacks to have `new_len`.
    pub open spec fn can_extend(self, b: Slice, new_len: usize) -> bool {
        b.end() == self.current.ptr && self.current.len >= new_len - b.len
    }

    /// The state after the block `b` was enlarged to `new_len` bytes into
    /// the current range.
    pub open spec fn extend(self, b: Slice, new_len: usize) -> Arena {
        Arena {
            blocks: self.blocks,
            current: Slice {
                ptr: (self.current.ptr + (new_len - b.len)) as usize,
                len: (self.current.len - (new_len - b.len)) as usize,
            },
            issued: (if b.len > 0 {
                self.issued.remove(b)
            } else {
                self.issued
            }).insert(Slice { ptr: b.ptr, len: new_len }),
        }
    }
}

/// Serving a request from the current range keeps the invariant. The block
/// is aligned and shares no byte with a block handed out before.
pub proof fn lemma_bump(arena: Arena, size: usize, align: usize)
    requires
        arena.wf(),
        size > 0,
        align > 0,
        arena.has_room(size, align),
    ensures
        arena.bump(size, align).wf(),
        arena.current.ptr + arena.pad(align) + size <= usize::MAX,
        (arena.current.ptr + arena.pad(align)) % (align as int) == 0,
        arena.current.ptr + arena.pad(align) > 0,
        !arena.issued.contains(
            Slice { ptr: (arena.current.ptr + arena.pad(align)) as usize, len: size },
        ),
        forall|t: Slice| #[trigger]
            arena.issued.contains(t) ==> t.disjoint(
                Slice { ptr: (arena.current.ptr + arena.pad(align)) as usize, len: size },
            ),
{
    let after = arena.bump(size, align);
    let s = Slice { ptr: (arena.current.ptr + arena.pad(align)) as usize, len: size };
    let last = arena.blocks.len() - 1;
    lemma_align_up_is_least_multiple(arena.current.ptr as int, align as int);
    assert(arena.blocks.len() > 0);
    assert(page_ok(arena.blocks[last]));
    assert(s.within(arena.blocks[last]));
    assert forall|t: Slice| #[trigger] arena.issued.contains(t) implies t.disjoint(s) by {
        assert(arena.holds(t));
        let k = choose|k: int|
            0 <= k < arena.blocks.len() && t.within(#[trigger] arena.blocks[k]) && (k
                == arena.blocks.len() - 1 ==> t.end() <= arena.current.ptr);
        if k != last {
            assert(arena.blocks[k].disjoint(arena.blocks[last]));
        }
    }
    assert(!arena.issued.contains(s)) by {
        if arena.issued.contains(s) {
            assert(s.disjoint(s));
        }
    }
    assert forall|t: Slice| #[trigger] after.issued.contains(t) implies t.len > 0 && after.holds(
        t,
    ) by {
        if t == s {
            assert(s.within(after.blocks[last]));
        } else {
            assert(arena.holds(t));
            let k = choose|k: int|
                0 <= k < arena.blocks.len() && t.within(#[trigger] arena.blocks[k]) && (k
                    == arena.blocks.len() - 1 ==> t.end() <= arena.current.ptr);
            assert(t.within(after.blocks[k]));
        }
    }
    assert forall|t: Slice, u: Slice|
        #[trigger] after.issued.contains(t) && #[trigger] after.issued.contains(u) && t
            != u implies t.disjoint(u) by {
        if t != s {
            assert(arena.issued.contains(t));
        }
        if u != s {
            assert(arena.issued.contains(u));
        }
    }
}

/// Taking a block that the arena admits, and serving a request from its
/// first bytes, keeps the invariant. The block served shares no byte with a
/// block handed out before.
pub proof fn lemma_open_block(arena: Arena, blk: Slice, size: usize)
    requires
        arena.wf(),
        admits(arena.blocks, blk, size),
        size > 0,
    ensures
        arena.open_block(blk, size).wf(),
        arena.open_block(blk, size).taken_bytes() == arena.taken_bytes() + blk.len,
        !arena.issued.contains(Slice { ptr: blk.ptr, len: size }),
        forall|t: Slice| #[trigger]
            arena.issued.contains(t) ==> t.disjoint(Slice { ptr: blk.ptr, len: size }),
{
    let after = arena.open_block(blk, size);
    let s = Slice { ptr: blk.ptr, len: size };
    let n = arena.blocks.len() as int;
    lemma_total_len_push(arena.blocks, blk);
    assert forall|t: Slice| #[trigger] arena.issued.contains(t) implies t.disjoint(s) by {
        assert(arena.holds(t));
        let k = choose|k: int|
            0 <= k < arena.blocks.len() && t.within(#[trigger] arena.blocks[k]) && (k
                == arena.blocks.len() - 1 ==> t.end() <= arena.current.ptr);
        assert(blk.disjoint(arena.blocks[k]));
    }
    assert(!arena.issued.contains(s)) by {
        if arena.issued.contains(s) {
            assert(s.disjoint(s));
        }
    }
    assert forall|k: int, m: int|
        0 <= k < after.blocks.len() && 0 <= m < after.blocks.len() && k != m implies (
    #[trigger] after.blocks[k]).disjoint(#[trigger] after.blocks[m]) by {
        if k < n && m < n {
            assert(arena.blocks[k].disjoint(arena.blocks[m]));
        } else if k < n {
            assert(blk.disjoint(arena.blocks[k]));
        } else {
            assert(blk.disjoint(arena.blocks[m]));
        }
    }
    assert forall|k: int| 0 <= k < after.blocks.len() implies page_ok(
        #[trigger] after.blocks[k],
    ) by {
        if k < n {
            assert(page_ok(arena.blocks[k]));
        }
    }
    assert forall|t: Slice| #[trigger] after.issued.contains(t) implies t.len > 0 && after.holds(
        t,
    ) by {
        if t == s {
            assert(s.within(after.blocks[n]));
        } else {
            assert(arena.holds(t));
            let k = choose|k: int|
                0 <= k < arena.blocks.len() && t.within(#[trigger] arena.blocks[k]) && (k
                    == arena.blocks.len() - 1 ==> t.end() <= arena.current.ptr);
            assert(t.within(after.blocks[k]));
        }
    }
    assert forall|t: Slice, u: Slice|
        #[trigger] after.issued.contains(t) && #[trigger] after.issued.contains(u) && t
            != u implies t.disjoint(u) by {
        if t != s {
            assert(arena.issued.contains(t));
        }
        if u != s {
            assert(arena.issued.contains(u));
        }
    }
}

/// Enlarging the block that ends where the current range starts keeps the
/// invariant. The enlarged block shares no byte with another block handed
/// out before.
pub proof fn lemma_extend(arena: Arena, b: Slice, new_len: usize)
    requires
        arena.wf(),
        b.len > 0 ==> arena.issued.contains(b),
        new_len > b.len,
        arena.can_extend(b, new_len),
    ensures
        arena.extend(b, new_len).wf(),
        b.ptr + new_len <= usize::MAX,
        forall|t: Slice| #[trigger]
            arena.issued.contains(t) && t != b ==> t.disjoint(Slice { ptr: b.ptr, len: new_len }),
{
    let after = arena.extend(b, new_len);
    let nb = Slice { ptr: b.ptr, len: new_len };
    let last = arena.blocks.len() - 1;
    assert(arena.blocks.len() > 0);
    assert(page_ok(arena.blocks[last]));
    // the block lies in the newest block of the base
    assert(b.within(arena.blocks[last])) by {
        if b.len > 0 {
            assert(arena.holds(b));
            let k = choose|k: int|
                0 <= k < arena.blocks.len() && b.within(#[trigger] arena.blocks[k]) && (k
                    == arena.blocks.len() - 1 ==> b.end() <= arena.current.ptr);
            if k != last {
                assert(arena.blocks[k].disjoint(arena.blocks[last]));
            }
        }
    }
    assert(nb.within(arena.blocks[last]));
    assert forall|t: Slice| #[trigger] arena.issued.contains(t) && t != b implies t.disjoint(
        nb,
    ) by {
        assert(arena.holds(t));
        let k = choose|k: int|
            0 <= k < arena.blocks.len() && t.within(#[trigger] arena.blocks[k]) && (k
                == arena.blocks.len() - 1 ==> t.end() <= arena.current.ptr);
        if k != last {
            assert(arena.blocks[k].disjoint(arena.blocks[last]));
        } else if b.len > 0 {
            assert(t.disjoint(b));
        }
    }
    assert forall|t: Slice| #[trigger] after.issued.contains(t) implies t.len > 0 && after.holds(
        t,
    ) by {
        if t == nb {
            assert(nb.within(after.blocks[last]));
        } else {
            assert(arena.holds(t));
            let k = choose|k: int|
                0 <= k < arena.blocks.len() && t.within(#[trigger] arena.blocks[k]) && (k
                    == arena.blocks.len() - 1 ==> t.end() <= arena.current.ptr);
            assert(t.within(after.blocks[k]));
        }
    }
    assert forall|t: Slice, u: Slice|
        #[trigger] after.issued.contains(t) && #[trigger] after.issued.contains(u) && t
            != u implies t.disjoint(u) by {
        if t != nb {
            assert(arena.issued.contains(t));
        }
        if u != nb {
            assert(arena.issued.contains(u));
        }
    }
}

/// Serving from the current range moves its start forward and leaves its
/// end where it was: the range only shrinks.
pub proof fn lemma_bump_advances(arena: Arena, size: usize, align: usize)
    requires
        arena.wf(),
        size > 0,
        align > 0,
        arena.has_room(size, align),
    ensures
        arena.bump(size, align).current.ptr >= arena.current.ptr + size,
        arena.bump(size, align).current.end() == arena.current.end(),
        arena.bump(size, align).current.len + size <= arena.current.len,
{
    lemma_bump(arena, size, align);
    lemma_align_up_is_least_multiple(arena.current.ptr as int, align as int);
}

/// In an arena that meets its invariant, any two blocks handed out are disjoint.
pub proof fn lemma_issued_disjoint(arena: Arena, s: Slice, t: Slice)
    requires
        arena.wf(),
        arena.issued.contains(s),
        arena.issued.contains(t),
        s != t,
    ensures
        s.disjoint(t),
{
}

/// A bump allocator over the blocks of `A`.
pub struct BumpAlloc<A: Allocator> {
    base_alloc: A,
    error_after: usize,
    min_alloc_size: usize,
    total_alloc_size: usize,
    allocations: Vec<Slice>,
    current_alloc: Slice,
    issued: Ghost<Set<Slice>>,
}

impl<A: Allocator> BumpAlloc<A> {
    /// The state of the arena.
    pub closed spec fn view(&self) -> Arena {
        Arena { blocks: self.allocations@, current: self.current_alloc, issued: self.issued@ }
    }

    /// The allocator that the blocks come from.
    pub closed spec fn spec_base_alloc(&self) -> A {
        self.base_alloc
    }

    /// Bytes taken from the base from which on every request fails.
    pub closed spec fn spec_error_after(&self) -> usize {
        self.error_after
    }

    /// The size of which every block asked for is a multiple.
    pub closed spec fn spec_min_alloc_size(&self) -> usize {
        self.min_alloc_size
    }

    /// The count of bytes taken from the base that the allocator keeps.
    pub closed spec fn spec_taken_bytes(&self) -> usize {
        self.total_alloc_size
    }

    /// The limits are those of `other`.
    pub open spec fn same_limits(&self, other: &Self) -> bool {
        &&& self.spec_error_after() == other.spec_error_after()
        &&& self.spec_min_alloc_size() == other.spec_min_alloc_size()
    }

    /// The request is one that fails whatever the arena holds: the bytes
    /// taken have reached the limit, or the alignment is above 4096.
    pub open spec fn refuses(&self, layout: Layout) -> bool {
        self.spec_error_after() <= self.spec_taken_bytes() || layout.align() > MAX_ALIGN
    }

    /// The size of the block to ask the base for, to serve `size` bytes:
    /// `size` rounded up to a multiple of the configured block size.
    pub open spec fn block_request(&self, size: usize) -> int {
        spec_align_up(size as int, self.spec_min_alloc_size() as int)
    }

    /// The size of the block to ask the base for, to serve `size` bytes, if
    /// it fits in `usize`.
    pub fn checked_block_request(&self, size: usize) -> (res: Option<usize>)
        requires
            self.spec_min_alloc_size() > 0,
        ensures
            match res {
                Some(len) => len == self.block_request(size) && len >= size,
                None => self.block_request(size) > usize::MAX,
            },
    {
        proof {
            lemma_align_up_is_least_multiple(size as int, self.min_alloc_size as int);
        }
        checked_next_multiple_of(size, self.min_alloc_size)
    }

    /// `res` answers a request for `layout`, and `after` is the allocator
    /// that has answered it.
    ///
    /// A request that the allocator refuses fails. A request for no bytes
    /// gets the empty range. Any other request is served from the current
    /// range, behind the bytes that alignment skips, if it has the room. If
    /// not, it is served by the first bytes of a new block that the arena
    /// admits for the number of bytes that `block_request` names, or fails;
    /// it fails if that number does not fit in `usize`. A block has the
    /// length asked for, starts at a multiple of the alignment, and shares
    /// no byte with a block handed out before. A failure leaves the arena as
    /// it was.
    pub open spec fn served(
        &self,
        after: &Self,
        layout: Layout,
        res: Result<Slice, AllocError>,
    ) -> bool {
        let size = layout.size();
        let align = layout.align();
        &&& after.same_limits(self)
        &&& self.refuses(layout) ==> res is Err
        &&& !self.refuses(layout) && size == 0 ==> res == Ok::<Slice, AllocError>(
            block(SENTINEL, 0),
        )
        &&& !self.refuses(layout) && size > 0 && self@.has_room(size, align) ==> res is Ok
        &&& !self@.has_room(size, align) && self.block_request(size) > usize::MAX ==> res is Err
        &&& self.refuses(layout) || size == 0 || self@.has_room(size, align) || self.block_request(
            size,
        ) > usize::MAX ==> after.spec_base_alloc() == self.spec_base_alloc()
        &&& match res {
            Ok(s) => {
                &&& s.len == size
                &&& size == 0 ==> after@ == self@ && after.spec_taken_bytes()
                    == self.spec_taken_bytes()
                &&& size > 0 ==> {
                    &&& s.ptr % align == 0
                    &&& s.ptr > 0
                    &&& !self@.issued.contains(s)
                    &&& forall|t: Slice| #[trigger] self@.issued.contains(t) ==> t.disjoint(s)
                    &&& after@.issued == self@.issued.insert(s)
                    &&& if self@.has_room(size, align) {
                        &&& after@ == self@.bump(size, align)
                        &&& s.ptr == self@.current.ptr + self@.pad(align)
                        &&& after.spec_taken_bytes() == self.spec_taken_bytes()
                    } else {
                        exists|blk: Slice|
                            {
                                &&& #[trigger] admits(
                                    self@.blocks,
                                    blk,
                                    self.block_request(size) as usize,
                                )
                                &&& s == block(blk.ptr, size)
                                &&& after@ == self@.open_block(blk, size)
                                &&& after.spec_taken_bytes() == self.spec_taken_bytes() + blk.len
                            }
                    }
                }
            },
            Err(_) => after@ == self@ && after.spec_taken_bytes() == self.spec_taken_bytes(),
        }
    }

    /// `res` answers a request to enlarge the block of `old_layout` at `ptr`
    /// to `new_layout`, and `after` is the allocator that has answered it.
    ///
    /// The request fails if the alignment grows. Else a new size of zero
    /// gets the empty range, and a new size that is not above the old one
    /// fails. Else the block is enlarged where it stands if it ends where
    /// the current range starts and the current range holds the bytes that
    /// are missing; if not, the request fails. Nothing but an enlargement
    /// changes the arena.
    pub open spec fn regrown(
        &self,
        after: &Self,
        ptr: usize,
        old_layout: Layout,
        new_layout: Layout,
        res: Result<Resized, AllocError>,
    ) -> bool {
        let b = block(ptr, old_layout.size());
        let nb = block(ptr, new_layout.size());
        &&& after.same_limits(self)
        &&& after.spec_base_alloc() == self.spec_base_alloc()
        &&& after.spec_taken_bytes() == self.spec_taken_bytes()
        &&& if old_layout.align() < new_layout.align() {
            res is Err && after@ == self@
        } else if new_layout.size() == 0 {
            res == Ok::<Resized, AllocError>(Resized::InPlace(block(SENTINEL, 0))) && after@
                == self@
        } else if new_layout.size() <= old_layout.size() {
            res is Err && after@ == self@
        } else if self@.can_extend(b, new_layout.size()) {
            &&& res == Ok::<Resized, AllocError>(Resized::InPlace(nb))
            &&& after@ == self@.extend(b, new_layout.size())
            &&& forall|t: Slice| #[trigger] self@.issued.contains(t) && t != b ==> t.disjoint(nb)
        } else {
            res is Err && after@ == self@
        }
    }

    /// `res` answers a request to move a block to a new one for `layout`.
    pub open spec fn moved(
        &self,
        after: &Self,
        layout: Layout,
        res: Result<Resized, AllocError>,
    ) -> bool {
        match res {
            Ok(Resized::Moved(s)) => self.served(after, layout, Ok(s)),
            Ok(Resized::InPlace(_)) => false,
            Err(e) => self.served(after, layout, Err(e)),
        }
    }

    /// An arena that has taken no block yet.
    pub fn new(config: Config<A>) -> (res: Self)
        requires
            config.spec_base_alloc().wf(),
            config.spec_min_alloc_size() > 0,
        ensures
            res.wf(),
            res@.blocks == Seq::<Slice>::empty(),
            res@.current == block(SENTINEL, 0),
            res@.issued == Set::<Slice>::empty(),
            res.spec_taken_bytes() == 0,
            res.spec_base_alloc() == config.spec_base_alloc(),
            res.spec_error_after() == config.spec_error_after(),
            res.spec_min_alloc_size() == config.spec_min_alloc_size(),
    {
        BumpAlloc {
            base_alloc: config.base_alloc,
            error_after: config.error_after,
            min_alloc_size: config.min_alloc_size,
            total_alloc_size: 0,
            allocations: Vec::new(),
            current_alloc: Slice::empty(),
            issued: Ghost(Set::empty()),
        }
    }

    /// The bytes taken from the base: the sum of the lengths of the blocks.
    pub fn taken_bytes(&self) -> (res: usize)
        ensures
            res == self.spec_taken_bytes(),
    {
        self.total_alloc_size
    }

    /// The number of blocks taken from the base.
    pub fn block_count(&self) -> (res: usize)
        ensures
            res == self@.blocks.len(),
    {
        self.allocations.len()
    }

    /// The block at place `i`.
    pub fn block_at(&self, i: usize) -> (res: Slice)
        requires
            i < self@.blocks.len(),
        ensures
            res == self@.blocks[i as int],
    {
        self.allocations[i]
    }

    /// The unused end of the newest block.
    pub fn current(&self) -> (res: Slice)
        ensures
            res == self@.current,
    {
        self.current_alloc
    }

    /// The allocator that the blocks come from.
    pub fn base_alloc(&self) -> (res: &A)
        ensures
            *res == self.spec_base_alloc(),
    {
        &self.base_alloc
    }

    /// Whether `blk` can be taken in to serve `size` bytes.
    pub fn block_usable(&self, blk: Slice, size: usize) -> (res: bool)
        requires
            self.wf(),
        ensures
            res == admits(self@.blocks, blk, size),
    {
        is_admissible(&self.allocations, self.total_alloc_size, blk, size)
    }

    /// Takes `blk` in and serves the request from its first bytes. The rest
    /// of the block becomes the current range.
    pub fn alloc_in_new_block(&mut self, blk: Slice, layout: Layout) -> (res: Slice)
        requires
            old(self).wf(),
            layout.size() > 0,
            layout.align() <= MAX_ALIGN,
            admits(old(self)@.blocks, blk, layout.size()),
            old(self).spec_base_alloc().is_live(blk),
        ensures
            final(self).wf(),
            final(self).same_limits(old(self)),
            final(self).spec_base_alloc() == old(self).spec_base_alloc(),
            final(self)@ == old(self)@.open_block(blk, layout.size()),
            final(self).spec_taken_bytes() == old(self).spec_taken_bytes() + blk.len,
            res == block(blk.ptr, layout.size()),
            res.ptr % layout.align() == 0,
            !old(self)@.issued.contains(res),
            forall|t: Slice| #[trigger] old(self)@.issued.contains(t) ==> t.disjoint(res),
    {
        let size = layout.size();
        let align = layout.align();
        proof {
            lemma_open_block(self@, blk, size);
            lemma_page_aligned_is_aligned(blk.ptr as int, align as int);
        }
        self.allocations.push(blk);
        self.total_alloc_size = self.total_alloc_size + blk.len;
        self.current_alloc = Slice { ptr: blk.ptr + size, len: blk.len - size };
        let res = Slice { ptr: blk.ptr, len: size };
        proof {
            self.issued@ = self.issued@.insert(res);
        }
        res
    }

    /// `res` is what comes of the answer `answer` of the base to a request
    /// for a block to serve `layout`, and `after` is the allocator that has
    /// dealt with it.
    ///
    /// A block that the arena admits, for the number of bytes that
    /// `block_request` names, is taken in, and its first bytes serve the
    /// request. Any other answer fails the request and leaves the arena as
    /// it was.
    pub open spec fn block_taken(
        &self,
        after: &Self,
        layout: Layout,
        answer: Result<Slice, AllocError>,
        res: Result<Slice, AllocError>,
    ) -> bool {
        &&& after.same_limits(self)
        &&& match answer {
            Ok(blk) => if admits(self@.blocks, blk, self.block_request(layout.size()) as usize) {
                &&& res == Ok::<Slice, AllocError>(block(blk.ptr, layout.size()))
                &&& blk.ptr % layout.align() == 0
                &&& after@ == self@.open_block(blk, layout.size())
                &&& after.spec_taken_bytes() == self.spec_taken_bytes() + blk.len
                &&& after.spec_base_alloc() == self.spec_base_alloc()
            } else {
                res is Err && after@ == self@ && after.spec_taken_bytes()
                    == self.spec_taken_bytes()
            },
            Err(_) => res is Err && after@ == self@ && after.spec_taken_bytes()
                == self.spec_taken_bytes() && after.spec_base_alloc() == self.spec_base_alloc(),
        }
    }

    /// Deals with the answer of the base to a request for a block to serve
    /// `layout`: a block that the arena admits is taken in and serves the
    /// request from its first bytes; a block that it does not admit goes
    /// back to the base, unless it is one that is held.
    pub fn take_block(&mut self, answer: Result<Slice, AllocError>, layout: Layout) -> (res: Result<
        Slice,
        AllocError,
    >)
        requires
            old(self).wf(),
            layout.size() > 0,
            layout.align() <= MAX_ALIGN,
            old(self).block_request(layout.size()) <= usize::MAX,
            answer matches Ok(blk) ==> blk.len > 0 ==> old(self).spec_base_alloc().is_live(blk),
        ensures
            final(self).wf(),
            old(self).block_taken(final(self), layout, answer, res),
    {
        match answer {
            Ok(blk) => {
                let alloc_size = layout.size() + align_offset(layout.size(), self.min_alloc_size);
                if self.block_usable(blk, alloc_size) {
                    proof {
                        lemma_align_up_is_least_multiple(
                            layout.size() as int,
                            self.min_alloc_size as int,
                        );
                    }
                    Ok(self.alloc_in_new_block(blk, layout))
                } else {
                    if position(&self.allocations, blk).is_none() {
                        self.base_alloc.deallocate(blk.ptr, Layout::page_aligned(blk.len));
                    }
                    Err(AllocError)
                }
            },
            Err(e) => Err(e),
        }
    }

    /// Gives every block back to the base. The arena has taken nothing
    /// afterwards; the blocks handed out are gone with the blocks of the
    /// base.
    pub fn release(&mut self)
        requires
            old(self).wf(),
        ensures
            final(self).wf(),
            final(self).same_limits(old(self)),
            final(self)@.blocks == Seq::<Slice>::empty(),
            final(self)@.current == block(SENTINEL, 0),
            final(self)@.issued == Set::<Slice>::empty(),
            final(self).spec_taken_bytes() == 0,
    {
        let mut i: usize = 0;
        while i < self.allocations.len()
            invariant
                0 <= i <= self.allocations.len(),
                self@ == old(self)@,
                self@.wf(),
                self.same_limits(old(self)),
                self.spec_min_alloc_size() > 0,
                self.spec_base_alloc().wf(),
                forall|k: int|
                    i <= k < self@.blocks.len() ==> self.spec_base_alloc().is_live(
                        #[trigger] self@.blocks[k],
                    ),
            decreases self.allocations.len() - i,
        {
            let blk = self.allocations[i];
            proof {
                assert forall|k: int| i < k < self@.blocks.len() implies #[trigger] self@.blocks[k]
                    != blk by {
                    assert(page_ok(self@.blocks[k]));
                    assert(self@.blocks[k].disjoint(self@.blocks[i as int]));
                }
            }
            self.base_alloc.deallocate(blk.ptr, Layout::page_aligned(blk.len));
            i += 1;
        }
        self.allocations = Vec::new();
        self.current_alloc = Slice::empty();
        self.total_alloc_size = 0;
        proof {
            self.issued@ = Set::empty();
        }
    }

    /// Hands the base out, with whatever blocks the arena has taken.
    pub fn into_base_alloc(self) -> (res: A)
        ensures
            res == self.spec_base_alloc(),
    {
        self.base_alloc
    }
}

impl<A: Allocator> Allocator for BumpAlloc<A> {
    /// The allocator's invariant: the arena is in order, the count of bytes
    /// taken is the sum of the blocks' lengths, the block size is not zero,
    /// and the base is in order and holds every block live.
    open spec fn wf(&self) -> bool {
        &&& self@.wf()
        &&& self.spec_taken_bytes() == self@.taken_bytes()
        &&& self.spec_min_alloc_size() > 0
        &&& self.spec_base_alloc().wf()
        &&& forall|k: int|
            0 <= k < self@.blocks.len() ==> self.spec_base_alloc().is_live(
                #[trigger] self@.blocks[k],
            )
    }

    /// The blocks handed out.
    open spec fn is_live(&self, b: Slice) -> bool {
        self@.issued.contains(b)
    }

    /// Serves a request from the current range, or from a new block of the
    /// base when the current range is too small. A block that the arena
    /// does not admit goes back to the base.
    fn allocate(&mut self, layout: Layout) -> (res: Result<Slice, AllocError>)
        ensures
            old(self).served(final(self), layout, res),
    {
        if self.error_after <= self.total_alloc_size {
            return Err(AllocError);
        }
        if layout.align() > MAX_ALIGN {
            return Err(AllocError);
        }
        let size = layout.size();
        if size == 0 {
            return Ok(Slice::empty());
        }
        let align_offs = align_offset(self.current_alloc.ptr, layout.align());
        if self.current_alloc.len >= align_offs && self.current_alloc.len - align_offs >= size {
            proof {
                lemma_bump(self@, size, layout.align());
            }
            let res = Slice { ptr: self.current_alloc.ptr + align_offs, len: size };
            self.current_alloc =
            Slice {
                ptr: self.current_alloc.ptr + align_offs + size,
                len: self.current_alloc.len - align_offs - size,
            };
            proof {
                self.issued@ = self.issued@.insert(res);
            }
            return Ok(res);
        }
        let alloc_size = match self.checked_block_request(size) {
            Some(alloc_size) => alloc_size,
            None => {
                return Err(AllocError);
            },
        };
        let answer = self.base_alloc.allocate(Layout::page_aligned(alloc_size));
        let ghost asked = *self;
        let res = self.take_block(answer, layout);
        proof {
            assert(asked@ == old(self)@);
            assert(asked.block_taken(self, layout, answer, res));
            if let Ok(blk) = answer {
                if admits(asked@.blocks, blk, asked.block_request(size) as usize) {
                    assert(admits(old(self)@.blocks, blk, old(self).block_request(size) as usize));
                    lemma_open_block(old(self)@, blk, size);
                }
            }
        }
        res
    }

    /// Does nothing: an arena gives its bytes back all at once.
    fn deallocate(&mut self, ptr: usize, layout: Layout)
        ensures
            *final(self) == *old(self),
    {
    }

    /// Enlarges the block of `old_layout` at `ptr` to `new_layout` where it
    /// stands, if it is the block handed out last and the current range has
    /// the room.
    fn grow(&mut self, ptr: usize, old_layout: Layout, new_layout: Layout) -> (res: Result<
        Resized,
        AllocError,
    >)
        ensures
            old(self).regrown(final(self), ptr, old_layout, new_layout, res),
    {
        if old_layout.align() < new_layout.align() {
            return Err(AllocError);
        }
        if new_layout.size() == 0 {
            return Ok(Resized::InPlace(Slice::empty()));
        }
        if new_layout.size() <= old_layout.size() {
            return Err(AllocError);
        }
        let old_size = old_layout.size();
        let new_size = new_layout.size();
        let size_diff = new_size - old_size;
        let start_addr = match ptr.checked_add(old_size) {
            Some(start_addr) => start_addr,
            None => {
                return Err(AllocError);
            },
        };
        if self.current_alloc.ptr == start_addr && self.current_alloc.len >= size_diff {
            let ghost b = block(ptr, old_size);
            proof {
                lemma_extend(self@, b, new_size);
            }
            self.current_alloc =
            Slice {
                ptr: self.current_alloc.ptr + size_diff,
                len: self.current_alloc.len - size_diff,
            };
            let nb = Slice { ptr, len: new_size };
            proof {
                self.issued@ = (if old_size > 0 {
                    self.issued@.remove(b)
                } else {
                    self.issued@
                }).insert(nb);
            }
            return Ok(Resized::InPlace(nb));
        }
        Err(AllocError)
    }

    /// Reduces the block of `old_layout` at `ptr` to `new_layout` by a new
    /// block; it fails, and changes nothing, if the size grows.
    fn shrink(&mut self, ptr: usize, old_layout: Layout, new_layout: Layout) -> (res: Result<
        Resized,
        AllocError,
    >)
        ensures
            final(self).same_limits(old(self)),
            if new_layout.size() > old_layout.size() {
                res is Err && *final(self) == *old(self)
            } else {
                old(self).moved(final(self), new_layout, res)
            },
    {
        if new_layout.size() > old_layout.size() {
            return Err(AllocError);
        }
        match self.allocate(new_layout) {
            Ok(s) => Ok(Resized::Moved(s)),
            Err(e) => Err(e),
        }
    }
}

/// The current range serves, and is used up no faster than asked: where it
/// holds `n` bytes and `n` is at least `size + align - 1`, a request that is
/// not refused succeeds without a new block, the block lies at or behind
/// the old start of the current range, the current range starts where the
/// block ends, and it holds `n - (size + align - 1)` bytes or more. So
/// requests in a row from one block are served at rising addresses.
pub proof fn lemma_current_range_serves<A: Allocator>(
    before: BumpAlloc<A>,
    after: BumpAlloc<A>,
    layout: Layout,
    res: Result<Slice, AllocError>,
    n: int,
)
    requires
        before.wf(),
        layout.size() > 0,
        layout.align() > 0,
        !before.refuses(layout),
        before@.current.len >= n,
        n >= layout.size() + layout.align() - 1,
        before.served(&after, layout, res),
    ensures
        res matches Ok(s) && s.len == layout.size() && s.ptr % layout.align() == 0 && s.ptr
            >= before@.current.ptr && after@.current.ptr == s.ptr + s.len,
        after@.blocks == before@.blocks,
        after.spec_taken_bytes() == before.spec_taken_bytes(),
        after.spec_base_alloc() == before.spec_base_alloc(),
        after@.current.len >= n - (layout.size() + layout.align() - 1),
{
    lemma_align_up_is_least_multiple(before@.current.ptr as int, layout.align() as int);
    assert(before@.has_room(layout.size(), layout.align()));
    lemma_bump(before@, layout.size(), layout.align());
}

} // verus!
