//! Arithmetic of power-of-two alignments: the mathematical meaning of the
//! bit masks that the allocator applies to addresses and sizes.

use vstd::arithmetic::power2::is_pow2;
use vstd::prelude::*;

verus! {

/// The largest multiple of `align` that is at most `x`.
pub open spec fn align_down(x: int, align: int) -> int {
    x - x % align
}

/// The smallest multiple of `align` that is at least `x`.
pub open spec fn round_up(x: int, align: int) -> int {
    align_down(x + align - 1, align)
}

/// A machine word has exactly one bit set if and only if halving it, when it
/// is even and above one, leaves a word with exactly one bit set.
proof fn lemma_one_bit_step(a: usize)
    by (bit_vector)
    requires
        a >= 2,
    ensures
        (a & ((a - 1) as usize) == 0) == (a % 2 == 0 && (a / 2) & ((a / 2 - 1) as usize) == 0),
{
}

/// The recursive definition of a power of two agrees with the test on bits
/// that executable code performs.
pub proof fn lemma_pow2_bits(a: usize)
    ensures
        is_pow2(a as int) <==> (a != 0 && a & ((a - 1) as usize) == 0),
    decreases a,
{
    reveal(is_pow2);
    if a == 0 {
    } else if a == 1 {
        assert(1usize & ((1usize - 1) as usize) == 0) by (bit_vector);
    } else {
        lemma_one_bit_step(a);
        lemma_pow2_bits(a / 2);
    }
}

/// Clearing the low bits of `x` below an even `a` is clearing the low bits
/// of half of `x` below half of `a`, and doubling.
proof fn lemma_mask_halves(x: usize, a: usize)
    by (bit_vector)
    requires
        a >= 2,
        a % 2 == 0,
    ensures
        x & !((a - 1) as usize) == 2 * ((x / 2) & !((a / 2 - 1) as usize)),
{
}

/// Clearing the low bits of `x` below a power of two `a` rounds `x` down to a
/// multiple of `a`.
pub proof fn lemma_mask_is_align_down(x: usize, a: usize)
    requires
        is_pow2(a as int),
    ensures
        a >= 1,
        (x & !((a - 1) as usize)) as int == align_down(x as int, a as int),
    decreases a,
{
    reveal(is_pow2);
    if a == 1 {
        assert(x & !((1usize - 1) as usize) == x) by (bit_vector);
    } else {
        let half: usize = a / 2;
        lemma_mask_halves(x, a);
        lemma_mask_is_align_down(x / 2, half);
        vstd::arithmetic::div_mod::lemma_breakdown(x as int, 2, half as int);
        assert(2 * (half as int) == a as int);
    }
}

/// `align_down(x, a)` is a multiple of `a`, at most `x`, and less than `a`
/// below it.
pub proof fn lemma_align_down_bounds(x: int, a: int)
    requires
        a > 0,
    ensures
        align_down(x, a) % a == 0,
        align_down(x, a) <= x,
        x - align_down(x, a) < a,
        x >= 0 ==> align_down(x, a) >= 0,
{
    vstd::arithmetic::div_mod::lemma_fundamental_div_mod(x, a);
    vstd::arithmetic::div_mod::lemma_mod_multiples_basic(x / a, a);
    vstd::arithmetic::div_mod::lemma_mod_bound(x, a);
    assert(x - x % a == a * (x / a));
    assert(a * (x / a) == (x / a) * a) by (nonlinear_arith);
    if x >= 0 {
        vstd::arithmetic::div_mod::lemma_div_pos_is_pos(x, a);
    }
}

/// Two distinct multiples of `a` are at least `a` apart.
pub proof fn lemma_multiples_gap(lo: int, hi: int, a: int)
    requires
        a > 0,
        lo % a == 0,
        hi % a == 0,
        lo < hi,
    ensures
        lo + a <= hi,
{
    vstd::arithmetic::div_mod::lemma_fundamental_div_mod(lo, a);
    vstd::arithmetic::div_mod::lemma_fundamental_div_mod(hi, a);
    let ql = lo / a;
    let qh = hi / a;
    assert(lo == a * ql);
    assert(hi == a * qh);
    assert(qh > ql) by (nonlinear_arith)
        requires
            a > 0,
            a * qh > a * ql,
    ;
    assert(a * qh >= a * ql + a) by (nonlinear_arith)
        requires
            a > 0,
            qh >= ql + 1,
    ;
}

/// No multiple of `a` lies strictly between `align_down(x, a)` and `x`.
pub proof fn lemma_align_down_is_largest(x: int, a: int, m: int)
    requires
        a > 0,
        m % a == 0,
        m <= x,
    ensures
        m <= align_down(x, a),
{
    lemma_align_down_bounds(x, a);
    if m > align_down(x, a) {
        lemma_multiples_gap(align_down(x, a), m, a);
    }
}

/// Rounding down is monotone.
pub proof fn lemma_align_down_monotone(x: int, y: int, a: int)
    requires
        a > 0,
        x <= y,
    ensures
        align_down(x, a) <= align_down(y, a),
{
    lemma_align_down_bounds(x, a);
    lemma_align_down_is_largest(y, a, align_down(x, a));
}

/// `round_up(x, a)` is a multiple of `a`, at least `x`, and less than `a`
/// above it.
pub proof fn lemma_round_up_bounds(x: int, a: int)
    requires
        a > 0,
    ensures
        round_up(x, a) % a == 0,
        x <= round_up(x, a),
        round_up(x, a) - x < a,
{
    lemma_align_down_bounds(x + a - 1, a);
}

/// A multiple of a multiple of `a` is a multiple of `a`.
pub proof fn lemma_multiple_transitive(x: int, b: int, a: int)
    requires
        a > 0,
        b > 0,
        b % a == 0,
        x % b == 0,
    ensures
        x % a == 0,
{
    vstd::arithmetic::div_mod::lemma_fundamental_div_mod(x, b);
    vstd::arithmetic::div_mod::lemma_fundamental_div_mod(b, a);
    let k = x / b;
    let j = b / a;
    assert(x == b * k);
    assert(b == a * j);
    assert(x == (j * k) * a) by (nonlinear_arith)
        requires
            x == b * k,
            b == a * j,
    ;
    vstd::arithmetic::div_mod::lemma_mod_multiples_basic(j * k, a);
}

/// Of two powers of two, the smaller divides the larger.
pub proof fn lemma_pow2_divides(a: int, b: int)
    requires
        is_pow2(a),
        is_pow2(b),
        a <= b,
    ensures
        a > 0,
        b % a == 0,
    decreases a,
{
    reveal(is_pow2);
    if a == 1 {
    } else {
        let ha = a / 2;
        let hb = b / 2;
        lemma_pow2_divides(ha, hb);
        vstd::arithmetic::div_mod::lemma_fundamental_div_mod(hb, ha);
        let k = hb / ha;
        assert(hb == ha * k);
        assert(b == k * a) by (nonlinear_arith)
            requires
                b == 2 * hb,
                a == 2 * ha,
                hb == ha * k,
        ;
        vstd::arithmetic::div_mod::lemma_mod_multiples_basic(k, a);
    }
}

/// Of two distinct powers of two, the larger is at least twice the smaller.
pub proof fn lemma_pow2_doubles(a: int, b: int)
    requires
        is_pow2(a),
        is_pow2(b),
        a < b,
    ensures
        2 * a <= b,
    decreases a,
{
    reveal(is_pow2);
    if a > 1 {
        lemma_pow2_doubles(a / 2, b / 2);
    }
}

/// Sums and differences of multiples of `a` are multiples of `a`.
pub proof fn lemma_multiples_add_sub(x: int, y: int, a: int)
    requires
        a > 0,
        x % a == 0,
        y % a == 0,
    ensures
        (x + y) % a == 0,
        (x - y) % a == 0,
{
    vstd::arithmetic::div_mod::lemma_fundamental_div_mod(x, a);
    vstd::arithmetic::div_mod::lemma_fundamental_div_mod(y, a);
    let p = x / a;
    let q = y / a;
    assert(x + y == (p + q) * a) by (nonlinear_arith)
        requires
            x == a * p,
            y == a * q,
    ;
    assert(x - y == (p - q) * a) by (nonlinear_arith)
        requires
            x == a * p,
            y == a * q,
    ;
    vstd::arithmetic::div_mod::lemma_mod_multiples_basic(p + q, a);
    vstd::arithmetic::div_mod::lemma_mod_multiples_basic(p - q, a);
}

} // verus!
