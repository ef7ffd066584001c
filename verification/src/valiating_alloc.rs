//! The validating allocator: a wrapper that passes every call on to another
//! allocator, keeps the list of the blocks that callers hold, and checks each
//! answer and each request against it.

use crate::allocator::{block, Allocator, Layout, Resized, Slice};
use crate::region::{lemma_swap_removed, position, swap_removed};
use vstd::prelude::*;

verus! {

/// What the wrapper found.
#[derive(Clone, Copy, Debug, PartialEq, Eq, Structural)]
pub enum ValidationError {
    /// The wrapped allocator could not serve the request.
    Alloc,
    /// The block that the wrapped allocator handed out does not start at a
    /// multiple of the alignment, does not have the length asked for, or
    /// wraps around the end of the address space; or it was said to stand
    /// where the old block stood, and does not.
    BadBlock(Slice),
    /// The block that the wrapped allocator handed out, the first of the
    /// two, overlaps a live block, the second.
    Overlap(Slice, Slice),
}

/// `slice` meets `layout`: it starts at a multiple of the alignment, has
/// exactly the length asked for, and ends inside the address space.
pub open spec fn meets(slice: Slice, layout: Layout) -> bool {
    &&& slice.ptr % layout.align() == 0
    &&& slice.len == layout.size()
    &&& slice.fits_address_space()
}

/// Whether `slice` meets `layout`.
pub fn check_layout(slice: Slice, layout: Layout) -> (res: bool)
    ensures
        res == meets(slice, layout),
{
    slice.ptr % layout.align() == 0 && slice.len == layout.size() && slice.len <= usize::MAX
        - slice.ptr
}

/// The first place in `alive`, other than `skip`, of a block that `slice`
/// overlaps.
pub open spec fn is_first_overlap(alive: Seq<Slice>, slice: Slice, skip: int, i: int) -> bool {
    &&& 0 <= i < alive.len()
    &&& i != skip
    &&& slice.overlaps(alive[i])
    &&& forall|k: int| 0 <= k < i && k != skip ==> !slice.overlaps(#[trigger] alive[k])
}

/// `slice` overlaps no block of `alive`, the one at `skip` aside.
pub open spec fn overlaps_none(alive: Seq<Slice>, slice: Slice, skip: int) -> bool {
    forall|k: int| 0 <= k < alive.len() && k != skip ==> !slice.overlaps(#[trigger] alive[k])
}

/// The list of live blocks is in order: each block holds a byte and ends
/// inside the address space, and no two overlap.
pub open spec fn alive_ok(alive: Seq<Slice>) -> bool {
    &&& forall|k: int|
        0 <= k < alive.len() ==> (#[trigger] alive[k]).len > 0 && alive[k].fits_address_space()
    &&& forall|k: int, m: int|
        0 <= k < alive.len() && 0 <= m < alive.len() && k != m ==> !(#[trigger] alive[k]).overlaps(
            #[trigger] alive[m],
        )
}

/// In a list that is in order, any two blocks at different places are disjoint.
pub proof fn lemma_alive_disjoint(alive: Seq<Slice>, k: int, m: int)
    requires
        alive_ok(alive),
        0 <= k < alive.len(),
        0 <= m < alive.len(),
        k != m,
    ensures
        alive[k].disjoint(alive[m]),
        alive[k] != alive[m],
{
    crate::allocator::lemma_overlaps_iff_not_disjoint(alive[k], alive[m]);
}

/// The first block of `alive`, other than the one at `skip`, that `slice`
/// overlaps, if there is one.
pub fn first_overlap(alive: &Vec<Slice>, slice: Slice, skip: Option<usize>) -> (res: Option<usize>)
    ensures
        match res {
            Some(i) => is_first_overlap(
                alive@,
                slice,
                match skip {
                    Some(s) => s as int,
                    None => -1,
                },
                i as int,
            ),
            None => overlaps_none(
                alive@,
                slice,
                match skip {
                    Some(s) => s as int,
                    None => -1,
                },
            ),
        },
{
    let ghost skipped: int = match skip {
        Some(s) => s as int,
        None => -1,
    };
    let mut i: usize = 0;
    while i < alive.len()
        invariant
            0 <= i <= alive.len(),
            skipped == (match skip {
                Some(s) => s as int,
                None => -1,
            }),
            forall|k: int| 0 <= k < i && k != skipped ==> !slice.overlaps(#[trigger] alive@[k]),
        decreases alive.len() - i,
    {
        let is_skipped = match skip {
            Some(s) => s == i,
            None => false,
        };
        if !is_skipped && !slice.is_disjoint(&alive[i]) {
            return Some(i);
        }
        i += 1;
    }
    None
}

/// A wrapper around the allocator `A` that checks what `A` answers.
pub struct ValidatingAllocator<A: Allocator> {
    inner: A,
    alive_allocs: Vec<Slice>,
}

impl<A: Allocator> ValidatingAllocator<A> {
    /// The wrapped allocator.
    pub closed spec fn inner(&self) -> A {
        self.inner
    }

    /// The blocks that callers hold, in the order in which the wrapper keeps them.
    pub closed spec fn alive(&self) -> Seq<Slice> {
        self.alive_allocs@
    }

    /// The wrapper's invariant: the wrapped allocator is in order, the list
    /// of live blocks is in order, and the wrapped allocator holds each of
    /// them live.
    pub open spec fn wf(&self) -> bool {
        &&& self.inner().wf()
        &&& alive_ok(self.alive())
        &&& forall|k: int|
            0 <= k < self.alive().len() ==> self.inner().is_live(#[trigger] self.alive()[k])
    }

    /// A wrapper around `inner` that has seen no block yet.
    pub fn new(inner: A) -> (res: Self)
        requires
            inner.wf(),
        ensures
            res.wf(),
            res.inner() == inner,
            res.alive() == Seq::<Slice>::empty(),
    {
        ValidatingAllocator { inner, alive_allocs: Vec::new() }
    }

    /// Hands the wrapped allocator out.
    pub fn into_inner(self) -> (res: A)
        ensures
            res == self.inner(),
    {
        self.inner
    }

    /// The wrapped allocator.
    pub fn get_ref(&self) -> (res: &A)
        ensures
            *res == self.inner(),
    {
        &self.inner
    }

    /// The number of live blocks.
    pub fn alive_count(&self) -> (res: usize)
        ensures
            res == self.alive().len(),
    {
        self.alive_allocs.len()
    }

    /// Whether `slice` is one of the live blocks.
    pub fn is_alive(&self, slice: Slice) -> (res: bool)
        ensures
            res == self.alive().contains(slice),
    {
        position(&self.alive_allocs, slice).is_some()
    }

    /// Checks the block `x` that the wrapped allocator handed out for
    /// `layout`, and takes it into the list of live blocks.
    ///
    /// A request for no bytes is not looked at. Otherwise `x` has to meet
    /// `layout` and to overlap no live block; if it does not, the list stays
    /// as it is and the error names what was found: the block that does not
    /// meet the layout, or else the first live block that it overlaps.
    pub fn track_allocation(&mut self, x: Slice, layout: Layout) -> (res: Result<
        Slice,
        ValidationError,
    >)
        requires
            old(self).wf(),
            x.len > 0 ==> old(self).inner().is_live(x),
        ensures
            final(self).wf(),
            final(self).inner() == old(self).inner(),
            old(self).judged(final(self), x, layout, -1, res),
    {
        if layout.size() == 0 {
            return Ok(x);
        }
        if !check_layout(x, layout) {
            return Err(ValidationError::BadBlock(x));
        }
        match first_overlap(&self.alive_allocs, x, None) {
            Some(i) => Err(ValidationError::Overlap(x, self.alive_allocs[i])),
            None => {
                self.alive_allocs.push(x);
                proof {
                    let before = old(self).alive();
                    let after = self.alive();
                    assert forall|k: int, m: int|
                        0 <= k < after.len() && 0 <= m < after.len() && k != m implies !(
                    #[trigger] after[k]).overlaps(#[trigger] after[m]) by {
                        if k < before.len() && m < before.len() {
                            assert(!before[k].overlaps(before[m]));
                        } else if k < before.len() {
                            assert(!x.overlaps(before[k]));
                        } else {
                            assert(!x.overlaps(before[m]));
                        }
                    }
                }
                Ok(x)
            },
        }
    }

    /// `res` is the verdict on the block `x` handed out for `layout`, and
    /// `after` is the wrapper that has given it. The live block at place
    /// `skip`, if there is one, is not held against `x`.
    pub open spec fn judged(
        &self,
        after: &Self,
        x: Slice,
        layout: Layout,
        skip: int,
        res: Result<Slice, ValidationError>,
    ) -> bool {
        if layout.size() == 0 {
            res == Ok::<Slice, ValidationError>(x) && after.alive() == self.alive()
        } else if !meets(x, layout) {
            res == Err::<Slice, ValidationError>(ValidationError::BadBlock(x)) && after.alive()
                == self.alive()
        } else if overlaps_none(self.alive(), x, skip) {
            res == Ok::<Slice, ValidationError>(x) && after.alive() == self.alive().push(x)
        } else {
            exists|i: int|
                {
                    &&& #[trigger] is_first_overlap(self.alive(), x, skip, i)
                    &&& res == Err::<Slice, ValidationError>(
                        ValidationError::Overlap(x, self.alive()[i]),
                    )
                    &&& after.alive() == self.alive()
                }
        }
    }

    /// Passes a request on, and checks the block that comes back.
    ///
    /// It fails with `Alloc` when the wrapped allocator fails. Else the
    /// block is checked and taken into the list as `track_allocation` says.
    pub fn allocate(&mut self, layout: Layout) -> (res: Result<Slice, ValidationError>)
        requires
            old(self).wf(),
        ensures
            final(self).wf(),
            res == Err::<Slice, ValidationError>(ValidationError::Alloc) ==> final(self).alive()
                == old(self).alive(),
            res != Err::<Slice, ValidationError>(ValidationError::Alloc) ==> exists|x: Slice|
                #[trigger] old(self).judged(final(self), x, layout, -1, res),
            res matches Ok(x) ==> layout.size() > 0 ==> {
                &&& x.ptr % layout.align() == 0
                &&& x.len == layout.size()
                &&& forall|k: int|
                    0 <= k < old(self).alive().len() ==> x.disjoint(
                        #[trigger] old(self).alive()[k],
                    )
                &&& final(self).alive() == old(self).alive().push(x)
            },
    {
        let x = match self.inner.allocate(layout) {
            Ok(x) => x,
            Err(_) => {
                return Err(ValidationError::Alloc);
            },
        };
        let ghost mid = *self;
        let res = self.track_allocation(x, layout);
        proof {
            assert(mid.alive() == old(self).alive());
            assert(mid.judged(self, x, layout, -1, res));
            assert(old(self).judged(self, x, layout, -1, res));
            if res is Ok && layout.size() > 0 {
                assert forall|k: int| 0 <= k < old(self).alive().len() implies x.disjoint(
                    #[trigger] old(self).alive()[k],
                ) by {
                    assert(!x.overlaps(old(self).alive()[k]));
                    crate::allocator::lemma_overlaps_iff_not_disjoint(x, old(self).alive()[k]);
                }
            }
        }
        res
    }

    /// The block of `layout` at `ptr` is one that a caller may pass back or
    /// ask to resize: it holds no byte, or it stands in the list of live
    /// blocks with that address and that size.
    pub open spec fn holds(&self, ptr: usize, layout: Layout) -> bool {
        layout.size() > 0 ==> self.alive().contains(block(ptr, layout.size()))
    }

    /// `after` is the wrapper that has passed the block of `layout` at `ptr`
    /// back: a block that holds a byte has left the list, and every other
    /// entry is kept.
    pub open spec fn passed_back(&self, after: &Self, ptr: usize, layout: Layout) -> bool {
        if layout.size() == 0 {
            after.alive() == self.alive()
        } else {
            &&& after.alive() == swap_removed(
                self.alive(),
                self.alive().index_of(block(ptr, layout.size())),
            )
            &&& !after.alive().contains(block(ptr, layout.size()))
        }
    }

    /// The place of `slice` in the list of live blocks.
    fn place_of(&self, slice: Slice) -> (i: usize)
        requires
            alive_ok(self.alive()),
            self.alive().contains(slice),
        ensures
            i < self.alive().len(),
            self.alive()[i as int] == slice,
            i == self.alive().index_of(slice),
    {
        let mut i: usize = 0;
        while self.alive_allocs[i].ptr != slice.ptr || self.alive_allocs[i].len != slice.len
            invariant
                0 <= i < self.alive_allocs.len(),
                exists|k: int| i <= k < self.alive_allocs@.len() && self.alive_allocs@[k] == slice,
            decreases self.alive_allocs.len() - i,
        {
            i += 1;
        }
        proof {
            lemma_first_is_index_of(self.alive(), slice, i as int);
        }
        i
    }

    /// Passes a block back to the wrapped allocator.
    ///
    /// A block of no bytes is passed back unseen. Any other block stands in
    /// the list, with the address and the size that the caller names; it is
    /// passed back and leaves the list.
    pub fn deallocate(&mut self, ptr: usize, layout: Layout)
        requires
            old(self).wf(),
            old(self).holds(ptr, layout),
        ensures
            final(self).wf(),
            old(self).passed_back(final(self), ptr, layout),
    {
        if layout.size() == 0 {
            self.inner.deallocate(ptr, layout);
            return ;
        }
        let slice = Slice { ptr, len: layout.size() };
        let i = self.place_of(slice);
        let ghost before = self.alive();
        proof {
            lemma_swap_removed(before, i as int);
            assert forall|k: int| 0 <= k < before.len() && k != i implies #[trigger] before[k]
                != slice by {
                lemma_alive_disjoint(before, k, i as int);
            }
        }
        self.inner.deallocate(ptr, layout);
        self.alive_allocs.swap_remove(i);
        proof {
            let after = self.alive();
            assert forall|k: int| 0 <= k < after.len() implies #[trigger] after[k] == before[if k
                == i {
                before.len() - 1
            } else {
                k
            }] by {}
            assert forall|k: int| 0 <= k < after.len() implies self.inner().is_live(
                #[trigger] after[k],
            ) && after[k] != slice by {
                let src = if k == i {
                    before.len() - 1
                } else {
                    k
                };
                assert(after[k] == before[src]);
                assert(old(self).inner().is_live(before[src]));
            }
            assert forall|k: int, m: int|
                0 <= k < after.len() && 0 <= m < after.len() && k != m implies !(
            #[trigger] after[k]).overlaps(#[trigger] after[m]) by {
                let ks = if k == i {
                    before.len() - 1
                } else {
                    k
                };
                let ms = if m == i {
                    before.len() - 1
                } else {
                    m
                };
                assert(!before[ks].overlaps(before[ms]));
            }
        }
    }

    /// The wrapper's invariant, but for the block `gone`, which the wrapped
    /// allocator may have given up.
    pub open spec fn wf_but(&self, gone: Slice) -> bool {
        &&& self.inner().wf()
        &&& alive_ok(self.alive())
        &&& forall|k: int|
            0 <= k < self.alive().len() && self.alive()[k] != gone ==> self.inner().is_live(
                #[trigger] self.alive()[k],
            )
    }

    /// The place of the old block of a resize request in the list of live
    /// blocks, or -1 if the old block holds no byte.
    pub open spec fn old_place(&self, old_block: Slice) -> int {
        if old_block.len > 0 {
            self.alive().index_of(old_block)
        } else {
            -1
        }
    }

    /// The list of live blocks without the old block of a resize request.
    pub open spec fn without(&self, old_block: Slice) -> Seq<Slice> {
        if old_block.len > 0 {
            swap_removed(self.alive(), self.alive().index_of(old_block))
        } else {
            self.alive()
        }
    }

    /// `res` is the verdict on the answer `r` of the wrapped allocator to a
    /// request to resize the block of `old_layout` at `ptr` to `new_layout`,
    /// and `after` is the wrapper that has given it.
    ///
    /// A request for a new size of zero is not looked at: the list stays as
    /// it is. Otherwise a block that the caller moves to is judged like a
    /// block handed out for `new_layout`; the old block stays in the list. A
    /// block said to stand where the old one stood takes the place of the
    /// old one in the list: it has to meet `new_layout`, to start where the
    /// old one started, and to overlap no other live block. If it does not,
    /// the old block leaves the list and nothing takes its place.
    pub open spec fn resize_judged(
        &self,
        after: &Self,
        ptr: usize,
        old_layout: Layout,
        new_layout: Layout,
        r: Resized,
        res: Result<Resized, ValidationError>,
    ) -> bool {
        let old_block = block(ptr, old_layout.size());
        let x = r.slice();
        let at = self.old_place(old_block);
        if new_layout.size() == 0 {
            res == Ok::<Resized, ValidationError>(r) && after.alive() == self.alive()
        } else {
            self.resize_judged_above_zero(after, ptr, old_layout, new_layout, r, res)
        }
    }

    /// What `resize_judged` says of a request for a new size above zero.
    pub open spec fn resize_judged_above_zero(
        &self,
        after: &Self,
        ptr: usize,
        old_layout: Layout,
        new_layout: Layout,
        r: Resized,
        res: Result<Resized, ValidationError>,
    ) -> bool {
        let old_block = block(ptr, old_layout.size());
        let x = r.slice();
        let at = self.old_place(old_block);
        match r {
            Resized::Moved(_) => match res {
                Ok(kept) => kept == r && self.judged(
                    after,
                    x,
                    new_layout,
                    -1,
                    Ok::<Slice, ValidationError>(x),
                ),
                Err(e) => self.judged(after, x, new_layout, -1, Err::<Slice, ValidationError>(e)),
            },
            Resized::InPlace(_) => if !meets(x, new_layout) || (old_block.len > 0 && x.ptr != ptr) {
                res == Err::<Resized, ValidationError>(ValidationError::BadBlock(x))
                    && after.alive() == self.without(old_block)
            } else if overlaps_none(self.alive(), x, at) {
                res == Ok::<Resized, ValidationError>(r) && after.alive() == if old_block.len > 0 {
                    self.alive().update(at, x)
                } else {
                    self.alive().push(x)
                }
            } else {
                exists|i: int|
                    {
                        &&& #[trigger] is_first_overlap(self.alive(), x, at, i)
                        &&& res == Err::<Resized, ValidationError>(
                            ValidationError::Overlap(x, self.alive()[i]),
                        )
                        &&& after.alive() == self.without(old_block)
                    }
            },
        }
    }

    /// Takes the block at place `i` out of the list.
    fn forget(&mut self, i: usize)
        requires
            i < old(self).alive().len(),
            old(self).wf_but(old(self).alive()[i as int]),
        ensures
            final(self).wf(),
            final(self).inner() == old(self).inner(),
            final(self).alive() == swap_removed(old(self).alive(), i as int),
    {
        let ghost before = self.alive();
        proof {
            lemma_swap_removed(before, i as int);
        }
        self.alive_allocs.swap_remove(i);
        proof {
            let after = self.alive();
            assert forall|k: int| 0 <= k < after.len() implies #[trigger] after[k] == before[if k
                == i {
                before.len() - 1
            } else {
                k
            }] by {}
            assert forall|k: int| 0 <= k < after.len() implies self.inner().is_live(
                #[trigger] after[k],
            ) by {
                let src = if k == i {
                    before.len() - 1
                } else {
                    k
                };
                assert(after[k] == before[src]);
                lemma_alive_disjoint(before, src, i as int);
            }
            assert forall|k: int, m: int|
                0 <= k < after.len() && 0 <= m < after.len() && k != m implies !(
            #[trigger] after[k]).overlaps(#[trigger] after[m]) by {
                let ks = if k == i {
                    before.len() - 1
                } else {
                    k
                };
                let ms = if m == i {
                    before.len() - 1
                } else {
                    m
                };
                assert(!before[ks].overlaps(before[ms]));
            }
        }
    }

    /// Gives the verdict on the answer `r` of the wrapped allocator to a
    /// request to resize the block of `old_layout` at `ptr` to `new_layout`,
    /// and brings the list of live blocks up to date.
    pub fn track_resize(
        &mut self,
        ptr: usize,
        old_layout: Layout,
        new_layout: Layout,
        r: Resized,
    ) -> (res: Result<Resized, ValidationError>)
        requires
            old(self).wf_but(block(ptr, old_layout.size())),
            r is Moved || new_layout.size() == 0 ==> old(self).wf(),
            r.slice().len > 0 ==> old(self).inner().is_live(r.slice()),
            old(self).holds(ptr, old_layout),
        ensures
            final(self).wf(),
            final(self).inner() == old(self).inner(),
            old(self).resize_judged(final(self), ptr, old_layout, new_layout, r, res),
            !(res matches Err(ValidationError::Alloc)),
    {
        let x = r.slice();
        if new_layout.size() == 0 {
            return Ok(r);
        }
        match r {
            Resized::Moved(_) => {
                match self.track_allocation(x, new_layout) {
                    Ok(_) => Ok(r),
                    Err(e) => Err(e),
                }
            },
            Resized::InPlace(_) => {
                let ghost before = self.alive();
                let old_block = Slice { ptr, len: old_layout.size() };
                let at: Option<usize> = if old_layout.size() > 0 {
                    Some(self.place_of(old_block))
                } else {
                    None
                };
                if !check_layout(x, new_layout) || (old_layout.size() > 0 && x.ptr != ptr) {
                    if let Some(i) = at {
                        self.forget(i);
                    }
                    return Err(ValidationError::BadBlock(x));
                }
                match first_overlap(&self.alive_allocs, x, at) {
                    Some(k) => {
                        let other = self.alive_allocs[k];
                        if let Some(i) = at {
                            self.forget(i);
                        }
                        Err(ValidationError::Overlap(x, other))
                    },
                    None => {
                        match at {
                            Some(i) => {
                                self.alive_allocs[i] = x;
                                proof {
                                    let after = self.alive();
                                    assert(after == before.update(i as int, x));
                                    assert forall|k: int| 0 <= k < after.len() implies self.inner().is_live(
                                        #[trigger] after[k],
                                    ) by {
                                        if k != i {
                                            lemma_alive_disjoint(before, k, i as int);
                                        }
                                    }
                                    assert forall|k: int, m: int|
                                        0 <= k < after.len() && 0 <= m < after.len() && k
                                            != m implies !(#[trigger] after[k]).overlaps(
                                        #[trigger] after[m],
                                    ) by {
                                        if k != i && m != i {
                                            assert(!before[k].overlaps(before[m]));
                                        } else if k == i {
                                            assert(!x.overlaps(before[m]));
                                        } else {
                                            assert(!x.overlaps(before[k]));
                                        }
                                    }
                                }
                            },
                            None => {
                                self.alive_allocs.push(x);
                                proof {
                                    let after = self.alive();
                                    assert forall|k: int, m: int|
                                        0 <= k < after.len() && 0 <= m < after.len() && k
                                            != m implies !(#[trigger] after[k]).overlaps(
                                        #[trigger] after[m],
                                    ) by {
                                        if k < before.len() && m < before.len() {
                                            assert(!before[k].overlaps(before[m]));
                                        } else if k < before.len() {
                                            assert(!x.overlaps(before[k]));
                                        } else {
                                            assert(!x.overlaps(before[m]));
                                        }
                                    }
                                }
                            },
                        }
                        Ok(r)
                    },
                }
            },
        }
    }

    /// `res` answers a request to resize the block of `old_layout` at `ptr`
    /// to `new_layout`, and `after` is the wrapper that has answered it.
    ///
    /// The request is passed on. If the wrapped allocator fails, the list
    /// stays as it is; if it answers, the answer is judged as
    /// `resize_judged` says.
    pub open spec fn resized(
        &self,
        after: &Self,
        ptr: usize,
        old_layout: Layout,
        new_layout: Layout,
        res: Result<Resized, ValidationError>,
    ) -> bool {
        if res == Err::<Resized, ValidationError>(ValidationError::Alloc) {
            after.alive() == self.alive()
        } else {
            exists|r: Resized| #[trigger]
                self.resize_judged(after, ptr, old_layout, new_layout, r, res)
        }
    }

    /// Passes a request to enlarge a block that the caller holds on, and
    /// checks the answer.
    pub fn grow(&mut self, ptr: usize, old_layout: Layout, new_layout: Layout) -> (res: Result<
        Resized,
        ValidationError,
    >)
        requires
            old(self).wf(),
            old(self).holds(ptr, old_layout),
        ensures
            final(self).wf(),
            old(self).resized(final(self), ptr, old_layout, new_layout, res),
    {
        proof {
            if old_layout.size() > 0 {
                let k = self.alive().index_of(block(ptr, old_layout.size()));
                assert(self.inner().is_live(self.alive()[k]));
            }
        }
        let r = match self.inner.grow(ptr, old_layout, new_layout) {
            Ok(r) => r,
            Err(_) => {
                return Err(ValidationError::Alloc);
            },
        };
        let ghost mid = *self;
        let res = self.track_resize(ptr, old_layout, new_layout, r);
        proof {
            assert(mid.alive() == old(self).alive());
            assert(mid.resize_judged(self, ptr, old_layout, new_layout, r, res));
            assert(old(self).resize_judged(self, ptr, old_layout, new_layout, r, res));
        }
        res
    }

    /// Passes a request to reduce a block that the caller holds on, and
    /// checks the answer.
    pub fn shrink(&mut self, ptr: usize, old_layout: Layout, new_layout: Layout) -> (res: Result<
        Resized,
        ValidationError,
    >)
        requires
            old(self).wf(),
            old(self).holds(ptr, old_layout),
        ensures
            final(self).wf(),
            old(self).resized(final(self), ptr, old_layout, new_layout, res),
    {
        proof {
            if old_layout.size() > 0 {
                let k = self.alive().index_of(block(ptr, old_layout.size()));
                assert(self.inner().is_live(self.alive()[k]));
            }
        }
        let r = match self.inner.shrink(ptr, old_layout, new_layout) {
            Ok(r) => r,
            Err(_) => {
                return Err(ValidationError::Alloc);
            },
        };
        let ghost mid = *self;
        let res = self.track_resize(ptr, old_layout, new_layout, r);
        proof {
            assert(mid.alive() == old(self).alive());
            assert(mid.resize_judged(self, ptr, old_layout, new_layout, r, res));
            assert(old(self).resize_judged(self, ptr, old_layout, new_layout, r, res));
        }
        res
    }
}

/// The move protocol under the wrapper: when a resize is answered by a
/// block that the caller moves to, and the caller then passes the old block
/// back, the list holds the new block in place of the old one, and as many
/// entries as before.
pub proof fn lemma_moved_then_passed_back<A: Allocator>(
    before: ValidatingAllocator<A>,
    mid: ValidatingAllocator<A>,
    after: ValidatingAllocator<A>,
    ptr: usize,
    old_layout: Layout,
    new_layout: Layout,
    x: Slice,
)
    requires
        alive_ok(before.alive()),
        alive_ok(mid.alive()),
        old_layout.size() > 0,
        new_layout.size() > 0,
        before.holds(ptr, old_layout),
        before.resized(&mid, ptr, old_layout, new_layout, Ok(Resized::Moved(x))),
        mid.passed_back(&after, ptr, old_layout),
    ensures
        meets(x, new_layout),
        after.alive().len() == before.alive().len(),
        after.alive().contains(x),
        !after.alive().contains(block(ptr, old_layout.size())),
        forall|b: Slice|
            #![trigger after.alive().contains(b)]
            #![trigger before.alive().contains(b)]
            after.alive().contains(b) <==> b == x || (before.alive().contains(b) && b != block(
                ptr,
                old_layout.size(),
            )),
{
    let old_block = block(ptr, old_layout.size());
    let res = Ok::<Resized, ValidationError>(Resized::Moved(x));
    let r = choose|r: Resized| #[trigger]
        before.resize_judged(&mid, ptr, old_layout, new_layout, r, res);
    assert(r == Resized::Moved(x));
    let list = before.alive();
    let grown = mid.alive();
    assert(grown == list.push(x));
    let at = grown.index_of(old_block);
    let i = list.index_of(old_block);
    assert(grown[i] == old_block);
    lemma_first_is_index_of(grown, old_block, i);
    lemma_swap_removed(grown, at);
    let last = grown.len() - 1;
    assert(after.alive()[at] == x);
    assert forall|b: Slice|
        #![trigger after.alive().contains(b)]
        #![trigger before.alive().contains(b)]
        after.alive().contains(b) <==> b == x || (before.alive().contains(b) && b
            != old_block) by {
        if after.alive().contains(b) {
            let k = choose|k: int| 0 <= k < after.alive().len() && after.alive()[k] == b;
            if k != at {
                assert(list[k] == b);
                lemma_alive_disjoint(grown, k, at);
            }
        }
        if before.alive().contains(b) && b != old_block {
            let k = choose|k: int| 0 <= k < list.len() && list[k] == b;
            assert(after.alive()[k] == b);
        }
    }
}

/// The place that a search from the front finds is the one that `index_of` names.
pub proof fn lemma_first_is_index_of(alive: Seq<Slice>, slice: Slice, i: int)
    requires
        alive_ok(alive),
        0 <= i < alive.len(),
        alive[i] == slice,
    ensures
        alive.index_of(slice) == i,
{
    let j = alive.index_of(slice);
    assert(alive.contains(slice));
    if j != i {
        lemma_alive_disjoint(alive, j, i);
    }
}

} // verus!
