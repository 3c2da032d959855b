//! Sizes and alignments of memory regions.

use crate::align::{
    lemma_mask_is_align_down, lemma_multiples_gap, lemma_pow2_bits, lemma_pow2_divides,
    lemma_pow2_doubles,
    lemma_round_up_bounds, round_up,
};
use vstd::arithmetic::power2::is_pow2;
use vstd::layout::{align_of, size_of, valid_layout};
use vstd::prelude::*;

verus! {

/// The mathematical content of a [`Layout`]: a size in bytes and an alignment.
pub struct LayoutView {
    pub size: int,
    pub align: int,
}

impl LayoutView {
    /// The alignment is a power of two, and the size, rounded up to the
    /// alignment, does not exceed `isize::MAX`.
    pub open spec fn valid(self) -> bool {
        &&& is_pow2(self.align)
        &&& 0 <= self.size <= isize::MAX - (self.align - 1)
    }

    /// The same alignment, with the size rounded up to a multiple of it.
    pub open spec fn padded(self) -> LayoutView {
        LayoutView { size: round_up(self.size, self.align), align: self.align }
    }

    /// The layout of `n` values of type `T`, one after the other.
    pub open spec fn array<T>(n: int) -> LayoutView {
        LayoutView { size: n * size_of::<T>(), align: align_of::<T>() as int }
    }

    /// The layout of a record of this layout followed by one of layout
    /// `next`, and the offset at which the second begins: the size of the
    /// first, rounded up to the alignment of the second. There is none where
    /// the two together make no valid layout.
    pub open spec fn extend(self, next: LayoutView) -> Option<(LayoutView, int)> {
        let offset = round_up(self.size, next.align);
        let both = LayoutView {
            size: offset + next.size,
            align: if self.align >= next.align {
                self.align
            } else {
                next.align
            },
        };
        if both.valid() {
            Some((both, offset))
        } else {
            None
        }
    }

    /// A region of this layout can hold a value of layout `inner`.
    pub open spec fn holds(self, inner: LayoutView) -> bool {
        self.align >= inner.align && self.size >= inner.size
    }
}

/// The size and alignment of a region of memory.
///
/// Every value of this type is valid in the sense of [`LayoutView::valid`]:
/// [`Layout::from_size_align`] admits no other.
#[derive(Clone, Copy, Debug, PartialEq, Eq)]
pub struct Layout {
    size: usize,
    align: usize,
}

/// The reason why a size and an alignment do not make a [`Layout`]: the
/// alignment is not a power of two, or the size is too large for it.
#[derive(Clone, Copy, Debug, PartialEq, Eq)]
pub struct LayoutError;

impl View for Layout {
    type V = LayoutView;

    closed spec fn view(&self) -> LayoutView {
        LayoutView { size: self.size as int, align: self.align as int }
    }
}

/// Half of the address space, the bound on every size, is a power of two.
pub proof fn lemma_size_limit_is_pow2()
    ensures
        is_pow2(isize::MAX + 1),
{
    vstd::layout::signed_int_min_max_values();
    let e = (isize::BITS - 1) as nat;
    assert(vstd::arithmetic::power::pow(2, e) == isize::MAX + 1) by {
        vstd::arithmetic::power2::lemma_pow2(e);
    }
    vstd::arithmetic::power2::is_pow2_equiv(isize::MAX + 1);
}

/// A power of two that fits a machine word is at most half the address space.
pub proof fn lemma_pow2_word_bound(a: usize)
    requires
        is_pow2(a as int),
    ensures
        1 <= a <= isize::MAX + 1,
{
    lemma_size_limit_is_pow2();
    assert(is_pow2(usize::MAX + 1)) by {
        reveal(is_pow2);
        assert(usize::MAX + 1 == 2 * (isize::MAX + 1));
    }
    lemma_pow2_divides(a as int, a as int);
    lemma_pow2_doubles(a as int, usize::MAX + 1);
}

/// Rounding the size of a valid layout up to its alignment gives a valid
/// layout again.
pub proof fn lemma_padded_valid(l: LayoutView)
    requires
        l.valid(),
    ensures
        l.padded().valid(),
        l.padded().size % l.align == 0,
        l.size <= l.padded().size < l.size + l.align,
{
    lemma_pow2_divides(l.align, l.align);
    lemma_round_up_bounds(l.size, l.align);
    lemma_size_limit_is_pow2();
    if l.align <= isize::MAX + 1 {
        lemma_pow2_divides(l.align, isize::MAX + 1);
        if l.padded().size < isize::MAX + 1 {
            lemma_multiples_gap(l.padded().size, isize::MAX + 1, l.align);
        }
    }
}

/// What the compiler guarantees of the size and alignment of a type makes a
/// valid layout.
pub proof fn lemma_type_layout_valid(size: usize, align: usize)
    requires
        valid_layout(size, align),
    ensures
        (LayoutView { size: size as int, align: align as int }).valid(),
{
    lemma_pow2_word_bound(align);
    lemma_size_limit_is_pow2();
    lemma_pow2_divides(align as int, isize::MAX + 1);
    let a = align as int;
    let q = (isize::MAX + 1) / a;
    vstd::arithmetic::div_mod::lemma_fundamental_div_mod(isize::MAX + 1, a);
    assert(isize::MAX + 1 == a * q);
    assert(isize::MAX as int == (q - 1) * a + (a - 1)) by (nonlinear_arith)
        requires
            isize::MAX + 1 == a * q,
    ;
    vstd::arithmetic::div_mod::lemma_fundamental_div_mod_converse(
        isize::MAX as int,
        a,
        q - 1,
        a - 1,
    );
}

/// Values of one layout, one after the other, that a valid region is large
/// and aligned enough for have a valid layout themselves.
pub proof fn lemma_array_fits(region: LayoutView, element: LayoutView, n: int)
    requires
        region.valid(),
        element.valid(),
        n >= 0,
        region.align >= element.align,
        region.size >= n * element.size,
    ensures
        0 <= n * element.size <= usize::MAX,
        (LayoutView { size: n * element.size, align: element.align }).valid(),
{
    assert(n * element.size >= 0) by (nonlinear_arith)
        requires
            n >= 0,
            element.size >= 0,
    ;
    lemma_pow2_divides(region.align, region.align);
    lemma_pow2_divides(element.align, element.align);
}

/// As many values of one layout as a valid region has room for, one after
/// the other, have a valid layout themselves.
pub proof fn lemma_array_within(region: LayoutView, element: LayoutView, n: int)
    requires
        region.valid(),
        element.valid(),
        element.size > 0,
        region.align >= element.align,
        n == region.size / element.size,
    ensures
        0 <= n * element.size <= usize::MAX,
        (LayoutView { size: n * element.size, align: element.align }).valid(),
{
    vstd::arithmetic::div_mod::lemma_fundamental_div_mod(region.size, element.size);
    vstd::arithmetic::div_mod::lemma_mod_bound(region.size, element.size);
    vstd::arithmetic::div_mod::lemma_div_pos_is_pos(region.size, element.size);
    assert(n * element.size == element.size * n) by (nonlinear_arith);
    lemma_array_fits(region, element, n);
}

impl Layout {
    /// Every layout is a valid one.
    #[verifier::type_invariant]
    pub open spec fn inv(self) -> bool {
        self@.valid()
    }

    /// The layout of a value of type `T`.
    pub fn new<T>() -> (r: Layout)
        ensures
            r@ == LayoutView::array::<T>(1),
            r@.valid(),
    {
        vstd::layout::layout_for_type_is_valid::<T>();
        let size: usize = core::mem::size_of::<T>();
        let align: usize = core::mem::align_of::<T>();
        proof {
            lemma_type_layout_valid(size, align);
        }
        Layout { size, align }
    }

    /// The layout of `n` values of type `T`, one after the other, if their
    /// sizes add up to a valid one.
    pub fn array<T>(n: usize) -> (r: Result<Layout, LayoutError>)
        ensures
            match r {
                Ok(l) => l@ == LayoutView::array::<T>(n as int) && l@.valid(),
                Err(_) => !LayoutView::array::<T>(n as int).valid(),
            },
    {
        let element = Layout::new::<T>();
        match n.checked_mul(element.size) {
            Some(size) => Layout::from_size_align(size, element.align),
            None => {
                proof {
                    lemma_pow2_word_bound(element.align);
                }
                Err(LayoutError)
            },
        }
    }

    /// The layout of the given size and alignment, if they make one.
    pub fn from_size_align(size: usize, align: usize) -> (r: Result<Layout, LayoutError>)
        ensures
            match r {
                Ok(l) => l@ == (LayoutView { size: size as int, align: align as int })
                    && l@.valid(),
                Err(_) => !(LayoutView { size: size as int, align: align as int }).valid(),
            },
    {
        proof {
            lemma_pow2_bits(align);
        }
        if align == 0 || align & (align - 1) != 0 {
            return Err(LayoutError);
        }
        proof {
            lemma_pow2_word_bound(align);
        }
        let limit: usize = isize::MAX as usize - (align - 1);
        if size > limit {
            return Err(LayoutError);
        }
        Ok(Layout { size, align })
    }

    /// The layout of `n` values of type `T`, one after the other, which is
    /// known to be a valid one.
    pub fn array_unchecked<T>(n: usize) -> (r: Layout)
        requires
            LayoutView::array::<T>(n as int).valid(),
        ensures
            r@ == LayoutView::array::<T>(n as int),
            r@.valid(),
    {
        let element = Layout::new::<T>();
        proof {
            assert(n * element.size >= 0) by (nonlinear_arith)
                requires
                    n >= 0,
                    element.size >= 0,
            ;
            lemma_pow2_word_bound(element.align);
        }
        Layout { size: n * element.size, align: element.align }
    }

    /// The layout of a record of this layout followed by one of layout
    /// `next`, with the offset at which the second begins.
    pub fn extend(&self, next: Layout) -> (r: Result<(Layout, usize), LayoutError>)
        ensures
            match self@.extend(next@) {
                Some((both, offset)) => r matches Ok((layout, at)) && layout@ == both && at
                    == offset && layout@.valid(),
                None => r is Err,
            },
    {
        proof {
            use_type_invariant(self);
            use_type_invariant(&next);
            lemma_pow2_word_bound(self.align);
            lemma_pow2_word_bound(next.align);
            lemma_mask_is_align_down((self.size + (next.align - 1)) as usize, next.align);
            lemma_round_up_bounds(self.size as int, next.align as int);
        }
        let align: usize = if self.align >= next.align {
            self.align
        } else {
            next.align
        };
        let low: usize = next.align - 1;
        let offset: usize = (self.size + low) & !low;
        match offset.checked_add(next.size) {
            Some(size) => match Layout::from_size_align(size, align) {
                Ok(layout) => Ok((layout, offset)),
                Err(error) => Err(error),
            },
            None => Err(LayoutError),
        }
    }

    /// The layout of a size and an alignment that are known to make one.
    pub fn from_size_align_unchecked(size: usize, align: usize) -> (r: Layout)
        requires
            (LayoutView { size: size as int, align: align as int }).valid(),
        ensures
            r@ == (LayoutView { size: size as int, align: align as int }),
            r@.valid(),
    {
        Layout { size, align }
    }

    /// The size in bytes.
    pub fn size(&self) -> (size: usize)
        ensures
            size == self@.size,
            self@.valid(),
    {
        proof {
            use_type_invariant(self);
        }
        self.size
    }

    /// The alignment in bytes.
    pub fn align(&self) -> (align: usize)
        ensures
            align == self@.align,
            self@.valid(),
    {
        proof {
            use_type_invariant(self);
        }
        self.align
    }

    /// This layout with its size rounded up to a multiple of its alignment.
    pub fn pad_to_align(&self) -> (r: Layout)
        ensures
            r@ == self@.padded(),
            r@.valid(),
    {
        proof {
            use_type_invariant(self);
            lemma_pow2_word_bound(self.align);
            lemma_mask_is_align_down((self.size + (self.align - 1)) as usize, self.align);
            lemma_padded_valid(self@);
        }
        let low: usize = self.align - 1;
        let size: usize = (self.size + low) & !low;
        Layout { size, align: self.align }
    }
}

} // verus!
