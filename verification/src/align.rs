//! Alignment algebra shared by the physical and virtual address types.
//!
//! Every alignment operation of the address types is specified against the
//! three spec functions below, and the laws relating them are proved once,
//! here, over mathematical integers.

use vstd::prelude::*;

verus! {

/// `a` rounded down to the next multiple of `align`.
pub open spec fn spec_align_down(a: int, align: int) -> int {
    a - a % align
}

/// `a` rounded up to the next multiple of `align`.
pub open spec fn spec_align_up(a: int, align: int) -> int {
    if a % align == 0 {
        a
    } else {
        a + align - a % align
    }
}

/// Whether `a` is a multiple of `align`.
pub open spec fn spec_is_aligned(a: int, align: int) -> bool {
    a % align == 0
}

/// Rounding down yields an aligned value no greater than the input, and
/// less than one stride below it.
pub proof fn lemma_align_down(a: int, align: int)
    requires
        a >= 0,
        align > 0,
    ensures
        spec_is_aligned(spec_align_down(a, align), align),
        spec_align_down(a, align) <= a,
        a < spec_align_down(a, align) + align,
        spec_align_down(a, align) >= 0,
{
    let q = a / align;
    vstd::arithmetic::div_mod::lemma_fundamental_div_mod(a, align);
    vstd::arithmetic::div_mod::lemma_mod_division_less_than_divisor(a, align);
    vstd::arithmetic::div_mod::lemma_div_pos_is_pos(a, align);
    assert(spec_align_down(a, align) == q * align);
    vstd::arithmetic::div_mod::lemma_mod_multiples_basic(q, align);
    assert(q * align >= 0) by (nonlinear_arith)
        requires
            q >= 0,
            align > 0,
    ;
}

/// Rounding up yields an aligned value no less than the input, and less
/// than one stride above it.
pub proof fn lemma_align_up(a: int, align: int)
    requires
        a >= 0,
        align > 0,
    ensures
        spec_is_aligned(spec_align_up(a, align), align),
        a <= spec_align_up(a, align),
        spec_align_up(a, align) < a + align,
        spec_align_up(a, align) == spec_align_down(a, align) || spec_align_up(a, align) == spec_align_down(
            a,
            align,
        ) + align,
{
    lemma_align_down(a, align);
    if a % align != 0 {
        let q = a / align;
        vstd::arithmetic::div_mod::lemma_fundamental_div_mod(a, align);
        vstd::arithmetic::div_mod::lemma_mod_division_less_than_divisor(a, align);
        assert(spec_align_up(a, align) == spec_align_down(a, align) + align);
        assert(spec_align_up(a, align) == (q + 1) * align) by {
            assert((q + 1) * align == q * align + align) by (nonlinear_arith);
        }
        vstd::arithmetic::div_mod::lemma_mod_multiples_basic(q + 1, align);
    }
}

/// Both roundings leave an already aligned value unchanged.
pub proof fn lemma_align_noop(a: int, align: int)
    requires
        a >= 0,
        align > 0,
        spec_is_aligned(a, align),
    ensures
        spec_align_down(a, align) == a,
        spec_align_up(a, align) == a,
{
}

/// The input is bracketed by its two roundings:
/// `align_down(a) <= a <= align_up(a) <= align_down(a) + align`.
pub proof fn lemma_align_bracket(a: int, align: int)
    requires
        a >= 0,
        align > 0,
    ensures
        spec_align_down(a, align) <= a,
        a <= spec_align_up(a, align),
        spec_align_up(a, align) <= spec_align_down(a, align) + align,
{
    lemma_align_down(a, align);
    lemma_align_up(a, align);
}

/// An aligned value below another aligned value stays below by a whole stride.
pub proof fn lemma_aligned_gap(a: int, b: int, align: int)
    requires
        align > 0,
        spec_is_aligned(a, align),
        spec_is_aligned(b, align),
        a < b,
    ensures
        a + align <= b,
{
    let qa = a / align;
    let qb = b / align;
    vstd::arithmetic::div_mod::lemma_fundamental_div_mod(a, align);
    vstd::arithmetic::div_mod::lemma_fundamental_div_mod(b, align);
    assert(a == qa * align && b == qb * align);
    assert(qa < qb) by (nonlinear_arith)
        requires
            qa * align < qb * align,
            align > 0,
    ;
    assert((qa + 1) * align <= qb * align) by (nonlinear_arith)
        requires
            qa + 1 <= qb,
            align > 0,
    ;
    assert((qa + 1) * align == qa * align + align) by (nonlinear_arith);
}

/// `a` rounded down to a multiple of `align`, executable form.
pub fn align_down_usize(a: usize, align: usize) -> (r: usize)
    requires
        align > 0,
    ensures
        r == spec_align_down(a as int, align as int),
{
    proof {
        vstd::arithmetic::div_mod::lemma_mod_decreases(a as nat, align as nat);
    }
    a - a % align
}

/// `a` rounded up to a multiple of `align`, executable form.
pub fn align_up_usize(a: usize, align: usize) -> (r: usize)
    requires
        align > 0,
        spec_align_up(a as int, align as int) <= usize::MAX,
    ensures
        r == spec_align_up(a as int, align as int),
{
    let rem = a % align;
    if rem == 0 {
        a
    } else {
        proof {
            vstd::arithmetic::div_mod::lemma_mod_division_less_than_divisor(a as int, align as int);
        }
        a + (align - rem)
    }
}

/// Whether `a` is a multiple of `align`, executable form.
pub fn is_aligned_usize(a: usize, align: usize) -> (r: bool)
    requires
        align > 0,
    ensures
        r == spec_is_aligned(a as int, align as int),
{
    a % align == 0
}



} // verus!
