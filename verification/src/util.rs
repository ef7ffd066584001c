//! Rounding addresses up to an alignment.

use vstd::prelude::*;

verus! {

/// The distance from `ptr` up to the next multiple of `align`.
pub open spec fn spec_align_offset(ptr: int, align: int) -> int {
    if ptr % align == 0 {
        0
    } else {
        align - ptr % align
    }
}

/// `ptr` rounded up to a multiple of `align`.
pub open spec fn spec_align_up(ptr: int, align: int) -> int {
    ptr + spec_align_offset(ptr, align)
}

/// The number of bytes to skip from `ptr` to reach a multiple of `align`.
pub fn align_offset(ptr: usize, align: usize) -> (res: usize)
    requires
        align > 0,
    ensures
        res == spec_align_offset(ptr as int, align as int),
        res < align,
{
    let rem: usize = ptr % align;
    if rem == 0 {
        0
    } else {
        align - rem
    }
}

/// The smallest multiple of `align` that is not below `ptr`.
pub fn align_up(ptr: usize, align: usize) -> (res: usize)
    requires
        align > 0,
        spec_align_up(ptr as int, align as int) <= usize::MAX,
    ensures
        res == spec_align_up(ptr as int, align as int),
{
    ptr + align_offset(ptr, align)
}

/// The smallest multiple of `multiple` that is not below `x`, if it fits
/// in `usize`.
pub fn checked_next_multiple_of(x: usize, multiple: usize) -> (res: Option<usize>)
    requires
        multiple > 0,
    ensures
        match res {
            Some(r) => r == spec_align_up(x as int, multiple as int),
            None => spec_align_up(x as int, multiple as int) > usize::MAX,
        },
{
    x.checked_add(align_offset(x, multiple))
}

/// `spec_align_up(ptr, align)` is a multiple of `align`, is not below `ptr`,
/// and no multiple of `align` lies between the two.
pub proof fn lemma_align_up_is_least_multiple(ptr: int, align: int)
    requires
        0 <= ptr,
        0 < align,
    ensures
        spec_align_up(ptr, align) % align == 0,
        ptr <= spec_align_up(ptr, align) < ptr + align,
        forall|m: int| ptr <= m && #[trigger] (m % align) == 0 ==> spec_align_up(ptr, align) <= m,
{
    let r = ptr % align;
    let up = spec_align_up(ptr, align);
    vstd::arithmetic::div_mod::lemma_fundamental_div_mod(ptr, align);
    let q = ptr / align;
    assert(ptr == align * q + r);
    if r == 0 {
        assert(up == ptr);
    } else {
        assert(up == align * (q + 1)) by (nonlinear_arith)
            requires
                up == ptr + align - r,
                ptr == align * q + r,
        ;
        vstd::arithmetic::div_mod::lemma_mod_multiples_basic(q + 1, align);
        assert(up % align == 0) by (nonlinear_arith)
            requires
                up == align * (q + 1),
                ((q + 1) * align) % align == 0,
        ;
    }
    assert forall|m: int| ptr <= m && #[trigger] (m % align) == 0 implies up <= m by {
        vstd::arithmetic::div_mod::lemma_fundamental_div_mod(m, align);
        let k = m / align;
        assert(m == align * k);
        if m < up {
            if r == 0 {
            } else {
                // align * q + r <= align * k < align * (q + 1)
                assert(q < k) by (nonlinear_arith)
                    requires
                        align * q + r <= align * k,
                        0 < r < align,
                {
                    if k <= q {
                        assert(align * k <= align * q);
                    }
                }
                assert(k < q + 1) by (nonlinear_arith)
                    requires
                        align * k < align * (q + 1),
                        0 < align,
                {
                    if k >= q + 1 {
                        assert(align * k >= align * (q + 1));
                    }
                }
            }
        }
    }
}

} // verus!
