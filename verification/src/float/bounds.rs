//! Between which multiples of `2^-12` a number lies, and what operations make
//! of such bounds.
//!
//! The bounds are numbers of the format themselves, so rounding never carries
//! a result past them.

use vstd::arithmetic::power2::*;
use vstd::prelude::*;

use crate::float;
use crate::float::{Code, Single};
use crate::rounding;

verus! {

/// `2^-12`, in units of the smallest positive number.
pub open spec fn grain() -> nat {
    pow2(137)
}

/// Whether a number lies between `lo` and `hi`, both in grains.
pub open spec fn between(a: Single, lo: int, hi: int) -> bool {
    &&& a.value() is Finite
    &&& lo * grain() <= float::worth(a) <= hi * grain()
}

/// Bounds that stay clear of where the grains get too coarse.
pub open spec fn moderate(lo: int, hi: int) -> bool {
    -0x100_0000 < lo <= hi < 0x100_0000
}

proof fn lemma_grain()
    ensures
        pow2(149) == 4096 * grain(),
        grain() > 0,
{
    lemma_pow2_adds(12, 137);
    lemma_pow2_pos(137);
    lemma2_to64();
}

/// Bounds in units of the smallest positive number.
pub proof fn lemma_grains(a: Single, lo: int, hi: int)
    requires
        between(a, lo, hi),
    ensures
        lo * grain() <= float::worth(a) <= hi * grain(),
        grain() > 0,
        pow2(149) == 4096 * grain(),
{
    lemma_grain();
}

/// A multiple of the grain is held exactly.
proof fn lemma_multiple(n: int, den: nat)
    requires
        -0x100_0000 < n < 0x100_0000,
        den > 0,
    ensures
        ({
            let num = float::magnitude_of((n * grain()) * den);
            let ord = rounding::rounded(float::single(), num, den);
            &&& ord < 0x7f80_0000
            &&& rounding::magnitude(float::single(), ord) == float::magnitude_of(n) * grain()
        }),
{
    let k = float::magnitude_of(n);
    let g = grain();
    rounding::lemma_formats();
    lemma_grain();
    rounding::lemma_held(float::single(), k, 137);
    assert(float::magnitude_of((n * g) * den) == (k * g) * den) by (nonlinear_arith)
        requires
            k == float::magnitude_of(n),
            g > 0,
            den > 0,
    ;
    float::lemma_same_fraction(float::single(), (k * g) * den, den, k * g, 1);
    assert(rounding::infinity(float::single()) == 255 * pow2(23));
}

/// What lies between bounds rounds to a number between them.
proof fn lemma_rounds(neg: bool, s: int, den: nat, lo: int, hi: int)
    requires
        den > 0,
        moderate(lo, hi),
        (lo * grain()) * den <= s <= (hi * grain()) * den,
        s < 0 ==> neg,
        s > 0 ==> !neg,
    ensures
        between(
            Single::of(
                Code::Number {
                    neg,
                    ord: rounding::rounded(float::single(), float::magnitude_of(s), den),
                },
            ),
            lo,
            hi,
        ),
{
    let g = grain();
    let (l, h) = ((lo * g) * den, (hi * g) * den);
    let f = float::single();
    lemma_grain();
    lemma_multiple(lo, den);
    lemma_multiple(hi, den);
    let ord = rounding::rounded(f, float::magnitude_of(s), den);
    let low = Single::of(
        Code::Number { neg: l < 0, ord: rounding::rounded(f, float::magnitude_of(l), den) },
    );
    let high = Single::of(
        Code::Number { neg: h < 0, ord: rounding::rounded(f, float::magnitude_of(h), den) },
    );
    let mid = Single::of(Code::Number { neg, ord });
    float::lemma_signed_rounding(l, s, den);
    float::lemma_signed_rounding(s, h, den);
    float::lemma_zero_rounds(den);
    float::lemma_single_bound(float::magnitude_of(s), den);
    float::lemma_of_signed(l < 0, rounding::rounded(f, float::magnitude_of(l), den));
    float::lemma_of_signed(h < 0, rounding::rounded(f, float::magnitude_of(h), den));
    float::lemma_of_signed(neg, ord);
    assert(rounding::infinity(f) == 255 * pow2(23));
    rounding::lemma_formats();
    float::lemma_between_finite(low, mid, high);
    float::lemma_worth_monotone(low, mid);
    float::lemma_worth_monotone(mid, high);
    assert((l < 0) == (lo < 0)) by (nonlinear_arith)
        requires
            l == (lo * g) * den,
            g > 0,
            den > 0,
    ;
    assert((h < 0) == (hi < 0)) by (nonlinear_arith)
        requires
            h == (hi * g) * den,
            g > 0,
            den > 0,
    ;
    assert(float::signed(lo < 0, float::magnitude_of(lo) * g) == lo * g) by (nonlinear_arith)
        requires
            g > 0,
    ;
    assert(float::signed(hi < 0, float::magnitude_of(hi) * g) == hi * g) by (nonlinear_arith)
        requires
            g > 0,
    ;
}

/// Wider bounds hold too.
pub proof fn lemma_widen(a: Single, l: int, h: int, lo: int, hi: int)
    requires
        between(a, l, h),
        lo <= l,
        h <= hi,
    ensures
        between(a, lo, hi),
{
    let g = grain();
    assert(lo * g <= l * g && h * g <= hi * g) by (nonlinear_arith)
        requires
            lo <= l,
            h <= hi,
            g >= 0,
    ;
}

/// The bounds of what lies between two numbers.
pub proof fn lemma_ranked(a: Single, l1: int, h1: int, x: Single, b: Single, l2: int, h2: int)
    requires
        between(a, l1, h1),
        between(b, l2, h2),
        a.rank() <= x.rank() <= b.rank(),
    ensures
        between(x, l1, h2),
{
    float::lemma_between_finite(a, x, b);
    float::lemma_worth_monotone(a, x);
    float::lemma_worth_monotone(x, b);
}

/// Numbers stand in the order of their values.
pub proof fn lemma_rank_of_worth(a: Single, b: Single)
    requires
        a.value() is Finite,
        b.value() is Finite,
        float::worth(a) <= float::worth(b),
    ensures
        a.rank() <= b.rank(),
{
    let f = float::single();
    let (x, y) = (rounding::magnitude(f, a.ord()), rounding::magnitude(f, b.ord()));
    rounding::lemma_magnitude_held(f, a.ord());
    rounding::lemma_magnitude_held(f, b.ord());
    if x <= y {
        rounding::lemma_rounded_monotone(f, x, 1, y, 1);
    }
    if y <= x {
        rounding::lemma_rounded_monotone(f, y, 1, x, 1);
    }
    lemma_magnitude_of_zero();
    rounding::lemma_formats();
    assert(rounding::infinity(f) == 255 * pow2(23));
}

/// Only nothing has no magnitude.
proof fn lemma_magnitude_of_zero()
    ensures
        forall|ord: nat|
            ord < 0x7f80_0000 && #[trigger] rounding::magnitude(float::single(), ord) == 0
                ==> ord == 0,
{
    let f = float::single();
    rounding::lemma_formats();
    assert(rounding::infinity(f) == 255 * pow2(23));
    assert forall|ord: nat|
        ord < 0x7f80_0000 && #[trigger] rounding::magnitude(f, ord) == 0 implies ord == 0 by {
        rounding::lemma_magnitude_held(f, ord);
        float::lemma_zero_rounds(1);
    }
}

/// Numbers stand in the order of their bounds.
pub proof fn lemma_apart(a: Single, l1: int, h1: int, b: Single, l2: int, h2: int)
    requires
        between(a, l1, h1),
        between(b, l2, h2),
        h1 <= l2,
    ensures
        a.rank() <= b.rank(),
{
    let g = grain();
    lemma_grain();
    assert(h1 * g <= l2 * g) by (nonlinear_arith)
        requires
            h1 <= l2,
            g > 0,
    ;
    lemma_rank_of_worth(a, b);
}

/// A whole number.
pub proof fn lemma_whole(n: int)
    requires
        -4096 < n < 4096,
    ensures
        between(Single::integer(n), 4096 * n, 4096 * n),
{
    let k = float::magnitude_of(n);
    let g = grain();
    lemma_grain();
    float::lemma_exact_integer(k);
    assert(k * pow2(149) == (4096 * k) * g) by (nonlinear_arith)
        requires
            pow2(149) == 4096 * g,
    ;
    assert((-(4096 * k)) * g == -((4096 * k) * g)) by (nonlinear_arith);
    if n < 0 {
        lemma_opposite(Single::nearest(k, 1), -(4096 * n), -(4096 * n));
    }
}

/// The opposite number.
pub proof fn lemma_opposite(a: Single, lo: int, hi: int)
    requires
        between(a, lo, hi),
    ensures
        between(a.negated(), -hi, -lo),
{
    let g = grain();
    assert((-hi) * g == -(hi * g) && (-lo) * g == -(lo * g)) by (nonlinear_arith);
    assert(a.negated().ord() == a.ord());
    assert(a.negated().neg() == !a.neg());
}

/// A fraction.
pub proof fn lemma_fraction(n: nat, d: nat, lo: int, hi: int)
    requires
        d > 0,
        moderate(lo, hi),
        lo * d <= 4096 * n <= hi * d,
    ensures
        between(Single::nearest(n, d), lo, hi),
{
    reveal(Single::nearest);
    let g = grain();
    lemma_grain();
    let s = (n * pow2(149)) as int;
    assert((lo * g) * d <= s <= (hi * g) * d && s >= 0) by (nonlinear_arith)
        requires
            s == n * (4096 * g),
            lo * d <= 4096 * n <= hi * d,
            g > 0,
    ;
    lemma_rounds(false, s, d, lo, hi);
}

/// A sum.
pub proof fn lemma_sum(a: Single, l1: int, h1: int, b: Single, l2: int, h2: int)
    requires
        between(a, l1, h1),
        between(b, l2, h2),
        moderate(l1 + l2, h1 + h2),
    ensures
        between(a.add_spec(b), l1 + l2, h1 + h2),
{
    reveal(Single::add_spec);
    let g = grain();
    let s = float::worth(a) + float::worth(b);
    assert(((l1 + l2) * g) * 1 == l1 * g + l2 * g && ((h1 + h2) * g) * 1 == h1 * g + h2 * g)
        by (nonlinear_arith);
    float::lemma_zero_rounds(1);
    if s == 0 {
        lemma_rounds(a.neg() && b.neg(), s, 1, l1 + l2, h1 + h2);
    } else {
        lemma_rounds(s < 0, s, 1, l1 + l2, h1 + h2);
    }
}

/// A difference.
pub proof fn lemma_difference(a: Single, l1: int, h1: int, b: Single, l2: int, h2: int)
    requires
        between(a, l1, h1),
        between(b, l2, h2),
        moderate(l1 - h2, h1 - l2),
    ensures
        between(a.sub_spec(b), l1 - h2, h1 - l2),
{
    lemma_opposite(b, l2, h2);
    lemma_sum(a, l1, h1, b.negated(), -h2, -l2);
}

/// A product is the rounding of the product of the values.
proof fn lemma_product(a: Single, b: Single, lo: int, hi: int)
    requires
        a.value() is Finite,
        b.value() is Finite,
        moderate(lo, hi),
        (lo * grain()) * pow2(149) <= float::worth(a) * float::worth(b),
        float::worth(a) * float::worth(b) <= (hi * grain()) * pow2(149),
    ensures
        between(a.mul_spec(b), lo, hi),
{
    reveal(Single::mul_spec);
    lemma_grain();
    let (x, y) = (
        rounding::magnitude(float::single(), a.ord()),
        rounding::magnitude(float::single(), b.ord()),
    );
    let s = float::worth(a) * float::worth(b);
    assert(float::magnitude_of(s) == x * y && (s < 0 ==> a.neg() != b.neg()) && (s > 0 ==> a.neg()
        == b.neg())) by (nonlinear_arith)
        requires
            s == float::signed(a.neg(), x) * float::signed(b.neg(), y),
    ;
    lemma_rounds(a.neg() != b.neg(), s, pow2(149), lo, hi);
}

/// A product of numbers that are not below zero.
pub proof fn lemma_times(
    a: Single,
    l1: int,
    h1: int,
    b: Single,
    l2: int,
    h2: int,
    lo: int,
    hi: int,
)
    requires
        between(a, l1, h1),
        between(b, l2, h2),
        0 <= l1,
        0 <= l2,
        4096 * lo <= l1 * l2,
        h1 * h2 <= 4096 * hi,
        moderate(lo, hi),
    ensures
        between(a.mul_spec(b), lo, hi),
{
    let g = grain();
    let u = pow2(149);
    lemma_grain();
    let (v, w) = (float::worth(a), float::worth(b));
    assert((lo * g) * u <= v * w) by (nonlinear_arith)
        requires
            u == 4096 * g,
            4096 * lo <= l1 * l2,
            0 <= l1 * g <= v,
            0 <= l2 * g <= w,
            g > 0,
            0 <= l1,
            0 <= l2,
    {
        assert((l1 * g) * (l2 * g) <= v * w);
        assert((l1 * g) * (l2 * g) == (l1 * l2) * (g * g));
        assert((4096 * lo) * (g * g) <= (l1 * l2) * (g * g));
        assert((lo * g) * u == (4096 * lo) * (g * g));
    }
    assert(0 <= l1 * g && 0 <= l2 * g) by (nonlinear_arith)
        requires
            0 <= l1,
            0 <= l2,
            g > 0,
    ;
    assert(v * w <= (hi * g) * u) by (nonlinear_arith)
        requires
            u == 4096 * g,
            h1 * h2 <= 4096 * hi,
            0 <= v <= h1 * g,
            0 <= w <= h2 * g,
            g > 0,
    {
        assert(v * w <= (h1 * g) * (h2 * g));
        assert((h1 * g) * (h2 * g) == (h1 * h2) * (g * g));
        assert((h1 * h2) * (g * g) <= (4096 * hi) * (g * g));
        assert((hi * g) * u == (4096 * hi) * (g * g));
    }
    lemma_product(a, b, lo, hi);
}

/// A product with a number that is not below zero.
pub proof fn lemma_signed_times(
    a: Single,
    l1: int,
    h1: int,
    b: Single,
    l2: int,
    h2: int,
    lo: int,
    hi: int,
)
    requires
        between(a, l1, h1),
        between(b, l2, h2),
        0 <= l2,
        4096 * lo <= l1 * l2,
        4096 * lo <= l1 * h2,
        h1 * l2 <= 4096 * hi,
        h1 * h2 <= 4096 * hi,
        moderate(lo, hi),
    ensures
        between(a.mul_spec(b), lo, hi),
{
    let g = grain();
    let u = pow2(149);
    lemma_grain();
    let (v, w) = (float::worth(a), float::worth(b));
    assert((lo * g) * u <= v * w) by (nonlinear_arith)
        requires
            u == 4096 * g,
            4096 * lo <= l1 * l2,
            4096 * lo <= l1 * h2,
            l1 * g <= v,
            l2 * g <= w <= h2 * g,
            0 <= l2,
            g > 0,
    {
        assert(w >= 0);
        assert((l1 * g) * w <= v * w);
        if l1 >= 0 {
            assert((l1 * g) * (l2 * g) <= (l1 * g) * w);
            assert((4096 * lo) * (g * g) <= (l1 * l2) * (g * g));
        } else {
            assert((l1 * g) * (h2 * g) <= (l1 * g) * w);
            assert((4096 * lo) * (g * g) <= (l1 * h2) * (g * g));
        }
    }
    assert(v * w <= (hi * g) * u) by (nonlinear_arith)
        requires
            u == 4096 * g,
            h1 * l2 <= 4096 * hi,
            h1 * h2 <= 4096 * hi,
            v <= h1 * g,
            l2 * g <= w <= h2 * g,
            0 <= l2,
            g > 0,
    {
        assert(w >= 0);
        assert(v * w <= (h1 * g) * w);
        if h1 >= 0 {
            assert((h1 * g) * w <= (h1 * g) * (h2 * g));
            assert((h1 * h2) * (g * g) <= (4096 * hi) * (g * g));
        } else {
            assert((h1 * g) * w <= (h1 * g) * (l2 * g));
            assert((h1 * l2) * (g * g) <= (4096 * hi) * (g * g));
        }
    }
    lemma_product(a, b, lo, hi);
}

/// A product of which one factor may have either sign.
pub proof fn lemma_scaled(a: Single, h1: int, b: Single, h2: int, hi: int)
    requires
        between(a, -h1, h1),
        between(b, 0, h2),
        h1 * h2 <= 4096 * hi,
        moderate(-hi, hi),
    ensures
        between(a.mul_spec(b), -hi, hi),
{
    let g = grain();
    let u = pow2(149);
    lemma_grain();
    let (v, w) = (float::worth(a), float::worth(b));
    assert((-h1) * g == -(h1 * g) && 0 * g == 0) by (nonlinear_arith);
    assert(-((hi * g) * u) <= v * w <= (hi * g) * u) by (nonlinear_arith)
        requires
            u == 4096 * g,
            h1 * h2 <= 4096 * hi,
            -(h1 * g) <= v <= h1 * g,
            0 <= w <= h2 * g,
            g > 0,
    {
        assert(-((h1 * g) * w) <= v * w <= (h1 * g) * w);
        assert((h1 * g) * w <= (h1 * g) * (h2 * g));
        assert((h1 * g) * (h2 * g) == (h1 * h2) * (g * g));
        assert((h1 * h2) * (g * g) <= (4096 * hi) * (g * g));
        assert((hi * g) * u == (4096 * hi) * (g * g));
    }
    assert(((-hi) * g) * u == -((hi * g) * u)) by (nonlinear_arith);
    lemma_product(a, b, -hi, hi);
}

/// A quotient by a whole number.
pub proof fn lemma_divided(a: Single, l: int, h: int, k: nat, lo: int, hi: int)
    requires
        between(a, l, h),
        0 <= l,
        !a.neg(),
        0 < k < 4096,
        lo * k <= l,
        h <= hi * k,
        moderate(lo, hi),
    ensures
        between(a.div_spec(Single::nearest(k, 1)), lo, hi),
{
    reveal(Single::div_spec);
    let g = grain();
    let u = pow2(149);
    lemma_grain();
    float::lemma_exact_integer(k);
    let v = float::worth(a);
    let den = k * u;
    assert(den > 0 && (lo * g) * den <= v * u <= (hi * g) * den && 0 <= v * u) by (nonlinear_arith)
        requires
            den == k * u,
            k > 0,
            u > 0,
            g > 0,
            0 <= l,
            lo * k <= l,
            h <= hi * k,
            l * g <= v <= h * g,
    {
        assert((lo * g) * den == ((lo * k) * g) * u);
        assert((hi * g) * den == ((hi * k) * g) * u);
        assert((lo * k) * g <= l * g && h * g <= (hi * k) * g && 0 <= l * g);
    }
    lemma_rounds(false, v * u, den, lo, hi);
}

/// The reciprocal of a number that is two or more.
pub proof fn lemma_reciprocal(d: Single, lo: int, hi: int)
    requires
        between(d, lo, hi),
        8192 <= lo,
    ensures
        between(Single::nearest(1, 1).div_spec(d), 0, 2048),
{
    reveal(Single::div_spec);
    let g = grain();
    let u = pow2(149);
    lemma_grain();
    float::lemma_exact_integer(1);
    assert(float::worth(d) > 0) by (nonlinear_arith)
        requires
            lo * g <= float::worth(d),
            8192 <= lo,
            g > 0,
    ;
    let y = float::worth(d) as nat;
    assert(y > 0 && u * u <= (2048 * g) * y && (0 * g) * y == 0 && u * u > 0) by (nonlinear_arith)
        requires
            u == 4096 * g,
            lo * g <= y,
            8192 <= lo,
            g > 0,
    {
        assert(8192 * g <= y);
        assert((2048 * g) * (8192 * g) <= (2048 * g) * y);
    }
    lemma_rounds(false, (u * u) as int, y, 0, 2048);
}

/// A number from one up to two, by the bits of its fraction.
pub proof fn lemma_mantissa(bits: nat, lo: int, hi: int)
    requires
        bits < 0x80_0000,
        2048 * lo <= bits <= 2048 * hi,
    ensures
        between(Single { bits: (bits + 0x3f80_0000) as u32 }, 4096 + lo, 4096 + hi),
{
    let a = Single { bits: (bits + 0x3f80_0000) as u32 };
    let f = float::single();
    let (g, v) = (grain(), pow2(126));
    rounding::lemma_formats();
    lemma_pow2_adds(11, 126);
    lemma2_to64();
    lemma_pow2_pos(126);
    rounding::lemma_quotient(a.ord(), pow2(23), 127, bits);
    assert(rounding::infinity(f) == 255 * pow2(23));
    let mag = rounding::magnitude(f, a.ord());
    assert(mag == (bits + 0x80_0000) * v);
    assert((4096 + lo) * g <= mag <= (4096 + hi) * g) by (nonlinear_arith)
        requires
            mag == (bits + 0x80_0000) * v,
            g == 2048 * v,
            2048 * lo <= bits <= 2048 * hi,
            v > 0,
    ;
}

/// The value of a number from one up to two.
pub proof fn lemma_mantissa_worth(bits: nat)
    requires
        bits < 0x80_0000,
    ensures
        float::worth(Single { bits: (bits + 0x3f80_0000) as u32 }) == (bits + 0x80_0000)
            * pow2(126),
{
    let a = Single { bits: (bits + 0x3f80_0000) as u32 };
    rounding::lemma_formats();
    rounding::lemma_quotient(a.ord(), pow2(23), 127, bits);
}

/// Terms can change places.
pub proof fn lemma_plus_commutes(a: Single, b: Single)
    ensures
        a.add_spec(b) == b.add_spec(a),
{
    reveal(Single::add_spec);
}

/// What is no larger than a number of the format rounds to what is no larger.
proof fn lemma_rounds_below(num: nat, den: nat, k: nat, e: nat)
    requires
        den > 0,
        k < 0x100_0000,
        e <= 253,
        num <= (k * pow2(e)) * den,
    ensures
        rounding::rounded(float::single(), num, den) < 0x7f80_0000,
        rounding::magnitude(float::single(), rounding::rounded(float::single(), num, den)) <= k
            * pow2(e),
{
    let f = float::single();
    let top = k * pow2(e);
    rounding::lemma_formats();
    rounding::lemma_held(f, k, e);
    assert(rounding::infinity(f) == 255 * pow2(23));
    assert(num * 1 <= top * den);
    rounding::lemma_rounded_monotone(f, num, den, top, 1);
    rounding::lemma_magnitude_monotone(
        f,
        rounding::rounded(f, num, den),
        rounding::rounded(f, top, 1),
    );
}

/// What is no larger than a power of two rounds to what is no larger.
proof fn lemma_capped(num: nat, den: nat, p: nat)
    requires
        den > 0,
        num <= pow2(p) * den,
        p <= 253,
    ensures
        rounding::rounded(float::single(), num, den) < 0x7f80_0000,
        rounding::magnitude(float::single(), rounding::rounded(float::single(), num, den))
            <= pow2(p),
{
    assert(1 * pow2(p) == pow2(p));
    lemma_rounds_below(num, den, 1, p);
}

/// A significand in range stands where its power of two and its bits say.
proof fn lemma_placed(k: nat, e: nat)
    requires
        0x80_0000 <= k < 0x100_0000,
        e <= 149,
    ensures
        rounding::rounded(float::single(), k * pow2(e), 1) == e * 0x80_0000 + k,
{
    let f = float::single();
    let ord = e * 0x80_0000 + k;
    rounding::lemma_formats();
    assert(rounding::infinity(f) == 255 * pow2(23));
    assert(ord == (e + 1) * pow2(23) + (k - 0x80_0000)) by (nonlinear_arith)
        requires
            ord == e * 0x80_0000 + k,
            pow2(23) == 0x80_0000,
    ;
    rounding::lemma_quotient(ord, pow2(23), e + 1, (k - 0x80_0000) as nat);
    rounding::lemma_magnitude_held(f, ord);
}

/// What is beyond the middle between two numbers of the format rounds up.
proof fn lemma_rounds_up(num: nat, den: nat, k: nat, e: nat)
    requires
        den > 0,
        0x80_0000 <= k < 0xff_ffff,
        e <= 149,
        2 * num > (2 * k + 1) * (pow2(e) * den),
    ensures
        rounding::rounded(float::single(), num, den) >= e * 0x80_0000 + k + 1,
{
    let f = float::single();
    let d = den * pow2(e);
    let q = num / den;
    rounding::lemma_formats();
    lemma_pow2_pos(e);
    assert(d > 0 && 2 * num > (2 * k + 1) * d) by (nonlinear_arith)
        requires
            d == den * pow2(e),
            2 * num > (2 * k + 1) * (pow2(e) * den),
            den > 0,
            pow2(e) > 0,
    ;
    assert((k + 1) * d == k * d + d && (2 * k + 1) * d == 2 * (k * d) + d) by (nonlinear_arith);
    if num >= (k + 1) * d {
        lemma_placed(k + 1, e);
        assert(((k + 1) * pow2(e)) * den <= num * 1) by (nonlinear_arith)
            requires
                num >= (k + 1) * d,
                d == den * pow2(e),
        ;
        rounding::lemma_rounded_monotone(f, (k + 1) * pow2(e), 1, num, den);
    } else {
        rounding::lemma_parts(num, den);
        let r = num % den;
        assert(k * pow2(e) <= q < (k + 1) * pow2(e)) by (nonlinear_arith)
            requires
                num == q * den + r,
                r < den,
                k * d <= num < (k + 1) * d,
                d == den * pow2(e),
                den > 0,
        {
            assert((q + 1) * den > (k * pow2(e)) * den);
            assert(q * den < ((k + 1) * pow2(e)) * den);
        }
        lemma_pow2_adds(23, e);
        lemma_pow2_adds(24, e);
        assert(pow2(23 + e) <= q < pow2(24 + e)) by (nonlinear_arith)
            requires
                pow2(23 + e) == 0x80_0000 * pow2(e),
                pow2(24 + e) == 0x100_0000 * pow2(e),
                k * pow2(e) <= q < (k + 1) * pow2(e),
                0x80_0000 <= k < 0xff_ffff,
        ;
        assert((24 + e - 1) as nat == 23 + e);
        rounding::lemma_excess_unique(q, 24, e);
        rounding::lemma_quotient(num, d, k, (num - k * d) as nat);
        assert(rounding::half_even(num, d) == k + 1);
        rounding::lemma_ordinal(f, k + 1, e);
        rounding::lemma_overflow(f, k + 1, e);
        assert(rounding::infinity(f) == 255 * pow2(23));
    }
}

/// A fraction that is no larger than a number of the format stands no higher.
pub proof fn lemma_fraction_upto(n: nat, d: nat, k: nat, e: nat)
    requires
        d > 0,
        0x80_0000 <= k < 0x100_0000,
        e <= 149,
        n * pow2((149 - e) as nat) <= k * d,
    ensures
        Single::nearest(n, d).nonneg(),
        Single::nearest(n, d).rank() <= e * 0x80_0000 + k,
{
    reveal(Single::nearest);
    let num = n * pow2(149);
    lemma_pow2_adds((149 - e) as nat, e);
    assert(num * 1 <= (k * pow2(e)) * d) by (nonlinear_arith)
        requires
            num == n * pow2(149),
            n * pow2((149 - e) as nat) <= k * d,
            pow2(149) == pow2((149 - e) as nat) * pow2(e),
    ;
    rounding::lemma_formats();
    lemma_placed(k, e);
    rounding::lemma_rounded_monotone(float::single(), num, d, k * pow2(e), 1);
    float::lemma_single_bound(num, d);
    float::lemma_of_ordinal(rounding::rounded(float::single(), num, d));
}

/// A fraction beyond the middle between two numbers of the format stands above
/// the lower one.
pub proof fn lemma_fraction_beyond(n: nat, d: nat, k: nat, e: nat)
    requires
        d > 0,
        0x80_0000 <= k < 0xff_ffff,
        e <= 149,
        2 * (n * pow2((149 - e) as nat)) > (2 * k + 1) * d,
    ensures
        Single::nearest(n, d).nonneg(),
        Single::nearest(n, d).rank() > e * 0x80_0000 + k,
{
    reveal(Single::nearest);
    let num = n * pow2(149);
    lemma_pow2_adds((149 - e) as nat, e);
    lemma_pow2_pos(e);
    assert(2 * num > (2 * k + 1) * (pow2(e) * d)) by (nonlinear_arith)
        requires
            num == n * pow2(149),
            2 * (n * pow2((149 - e) as nat)) > (2 * k + 1) * d,
            pow2(149) == pow2((149 - e) as nat) * pow2(e),
            pow2(e) > 0,
    {
        let m = n * pow2((149 - e) as nat);
        assert(num == m * pow2(e));
        assert((2 * m) * pow2(e) > ((2 * k + 1) * d) * pow2(e));
    }
    lemma_rounds_up(num, d, k, e);
    float::lemma_single_bound(num, d);
    float::lemma_of_ordinal(rounding::rounded(float::single(), num, d));
}

/// What stands below one is no more than the largest number below it.
pub proof fn lemma_below_one(a: Single)
    requires
        a.value() is Finite,
        !a.neg(),
        a.rank() < Single::nearest(1, 1).rank(),
    ensures
        float::worth(a) <= 0xff_ffff * pow2(125),
{
    let f = float::single();
    lemma_pow2_adds(23, 126);
    lemma2_to64();
    lemma_placed(0x80_0000, 126);
    reveal(Single::nearest);
    assert(1 * pow2(149) == 0x80_0000 * pow2(126));
    float::lemma_of_ordinal(126 * 0x80_0000 + 0x80_0000);
    lemma_placed(0xff_ffff, 125);
    rounding::lemma_formats();
    rounding::lemma_held(f, 0xff_ffff, 125);
    rounding::lemma_magnitude_monotone(f, a.ord(), 125 * 0x80_0000 + 0xff_ffff);
}

/// A count over two divisors, one added: two or more if the quotient is one or
/// more, and finite.
pub proof fn lemma_one_more(n: nat, d1: nat, d2: nat)
    requires
        n < 0x1_0000_0000,
        0 < d1 < 4096,
        0 < d2 < 4096,
    ensures
        ({
            let one = Single::nearest(1, 1);
            let q = Single::nearest(n, 1).div_spec(Single::nearest(d1, 1)).div_spec(
                Single::nearest(d2, 1),
            );
            &&& q.value() is Finite
            &&& one.rank() <= q.rank() ==> q.add_spec(one).positive()
            &&& one.rank() <= q.rank() ==> q.add_spec(one).rank() >= 0x4000_0000
        }),
{
    let one = Single::nearest(1, 1);
    let f = float::single();
    let u = pow2(149);
    let a = Single::nearest(n, 1);
    let b = a.div_spec(Single::nearest(d1, 1));
    let q = b.div_spec(Single::nearest(d2, 1));
    rounding::lemma_formats();
    assert(rounding::infinity(f) == 255 * pow2(23));
    lemma_pow2_pos(149);
    lemma_count_finite(n);
    lemma_shrinks(a, d1);
    lemma_shrinks(b, d2);
    float::lemma_exact_integer(1);
    if one.rank() <= q.rank() {
        reveal(Single::add_spec);
        float::lemma_worth_monotone(one, q);
        let s = (float::worth(q) + u) as nat;
        lemma_pow2_unfold(182);
        lemma_pow2_unfold(150);
        lemma_pow2_strictly_increases(149, 181);
        assert(s <= pow2(182) * 1 && pow2(150) * 1 <= s);
        lemma_capped(s, 1, 182);
        let ord = rounding::rounded(f, s, 1);
        rounding::lemma_rounded_monotone(f, pow2(150), 1, s, 1);
        assert(pow2(150) == 0x80_0000 * pow2(127)) by {
            lemma_pow2_adds(23, 127);
        }
        lemma_placed(0x80_0000, 127);
        float::lemma_of_signed(false, ord);
    }
}

/// A count is finite.
proof fn lemma_count_finite(n: nat)
    requires
        n < 0x1_0000_0000,
    ensures
        Single::nearest(n, 1).nonneg(),
        Single::nearest(n, 1).value() is Finite,
        float::worth(Single::nearest(n, 1)) <= pow2(181),
{
    reveal(Single::nearest);
    let u = pow2(149);
    rounding::lemma_formats();
    assert(rounding::infinity(float::single()) == 255 * pow2(23));
    lemma_pow2_adds(32, 149);
    lemma2_to64();
    assert(n * u <= pow2(181) * 1) by (nonlinear_arith)
        requires
            n < 0x1_0000_0000,
            pow2(181) == 0x1_0000_0000 * u,
    ;
    lemma_capped(n * u, 1, 181);
    float::lemma_of_signed(false, rounding::rounded(float::single(), n * u, 1));
}

/// A quotient by a whole number is no larger than the dividend may be.
proof fn lemma_shrinks(a: Single, d: nat)
    requires
        a.nonneg(),
        a.value() is Finite,
        float::worth(a) <= pow2(181),
        0 < d < 4096,
    ensures
        ({
            let q = a.div_spec(Single::nearest(d, 1));
            q.nonneg() && q.value() is Finite && float::worth(q) <= pow2(181)
        }),
{
    reveal(Single::div_spec);
    let f = float::single();
    let u = pow2(149);
    rounding::lemma_formats();
    assert(rounding::infinity(f) == 255 * pow2(23));
    lemma_pow2_pos(149);
    float::lemma_exact_integer(d);
    let (x, y) = (float::worth(a) as nat, d * u);
    assert(y > 0 && x * u <= pow2(181) * y) by (nonlinear_arith)
        requires
            y == d * u,
            d > 0,
            u > 0,
            x <= pow2(181),
    ;
    lemma_capped(x * u, y, 181);
    float::lemma_of_signed(false, rounding::rounded(f, x * u, y));
}

/// A count over a whole number is finite.
pub proof fn lemma_size_finite(n: nat, d: nat)
    requires
        n < 0x1_0000_0000,
        0 < d < 4096,
    ensures
        Single::nearest(n, 1).div_spec(Single::nearest(d, 1)).value() is Finite,
{
    lemma_count_finite(n);
    lemma_shrinks(Single::nearest(n, 1), d);
}

/// A fraction of ordinary size is above zero.
pub proof fn lemma_small_positive(n: nat, d: nat)
    requires
        0 < n < 0x100_0000,
        0 < d < 0x100_0000,
    ensures
        Single::nearest(n, d).positive(),
{
    lemma_pow2_adds(24, 125);
    lemma_pow2_adds(24, 76);
    lemma_pow2_pos(125);
    lemma_pow2_pos(76);
    lemma2_to64();
    lemma2_to64_rest();
    assert(d <= n * pow2(149) && n <= d * pow2(100)) by (nonlinear_arith)
        requires
            0 < n < 0x100_0000,
            0 < d < 0x100_0000,
            pow2(149) >= 0x100_0000,
            pow2(100) >= 0x100_0000,
    ;
    float::lemma_nearest_positive(n, d);
}

/// A fraction is no larger than a number of the format that the fraction is no
/// larger than.
pub proof fn lemma_fraction_below(n: nat, d: nat, k: nat, e: nat)
    requires
        d > 0,
        k < 0x100_0000,
        e <= 149,
        n * pow2((149 - e) as nat) <= k * d,
    ensures
        Single::nearest(n, d).value() is Finite,
        0 <= float::worth(Single::nearest(n, d)) <= k * pow2(e),
{
    reveal(Single::nearest);
    let num = n * pow2(149);
    lemma_pow2_adds((149 - e) as nat, e);
    assert(num <= (k * pow2(e)) * d) by (nonlinear_arith)
        requires
            num == n * pow2(149),
            n * pow2((149 - e) as nat) <= k * d,
            pow2(149) == pow2((149 - e) as nat) * pow2(e),
    ;
    lemma_rounds_below(num, d, k, e);
    rounding::lemma_formats();
    assert(rounding::infinity(float::single()) == 255 * pow2(23));
    float::lemma_of_signed(false, rounding::rounded(float::single(), num, d));
}

/// Half of a number with few enough bits.
pub proof fn lemma_half(a: Single, k: nat, e: nat)
    requires
        a.value() is Finite,
        !a.neg(),
        0 < e <= 253,
        k < 0x100_0000,
        float::worth(a) == k * pow2(e),
    ensures
        a.div_spec(Single::nearest(2, 1)).value() is Finite,
        0 <= float::worth(a.div_spec(Single::nearest(2, 1))) <= k * pow2((e - 1) as nat),
{
    reveal(Single::div_spec);
    let u = pow2(149);
    let (x, y) = (float::worth(a) as nat, 2 * u);
    lemma_pow2_pos(149);
    lemma_pow2_unfold(e);
    float::lemma_exact_integer(2);
    assert(x * u <= (k * pow2((e - 1) as nat)) * y) by (nonlinear_arith)
        requires
            x == k * (2 * pow2((e - 1) as nat)),
            y == 2 * u,
    ;
    lemma_rounds_below(x * u, y, k, (e - 1) as nat);
    rounding::lemma_formats();
    assert(rounding::infinity(float::single()) == 255 * pow2(23));
    float::lemma_of_signed(false, rounding::rounded(float::single(), x * u, y));
}

/// A part of a number is no larger than the number.
pub proof fn lemma_part(a: Single, x: Single)
    requires
        a.value() is Finite,
        x.value() is Finite,
        0 <= float::worth(a),
        0 <= float::worth(x) <= pow2(149),
    ensures
        a.mul_spec(x).value() is Finite,
        0 <= float::worth(a.mul_spec(x)) <= float::worth(a),
{
    reveal(Single::mul_spec);
    let f = float::single();
    let u = pow2(149);
    lemma_pow2_pos(149);
    let (v, w) = (rounding::magnitude(f, a.ord()), rounding::magnitude(f, x.ord()));
    let ord = rounding::rounded(f, v * w, u);
    assert((v * w) * 1 <= v * u) by (nonlinear_arith)
        requires
            w <= u,
    ;
    rounding::lemma_rounded_monotone(f, v * w, u, v, 1);
    rounding::lemma_magnitude_held(f, a.ord());
    rounding::lemma_formats();
    assert(rounding::infinity(f) == 255 * pow2(23));
    float::lemma_of_signed(a.neg() != x.neg(), ord);
    rounding::lemma_magnitude_monotone(f, ord, a.ord());
    if v * w == 0 {
        float::lemma_zero_rounds(u);
    } else {
        assert(v > 0 && w > 0) by (nonlinear_arith)
            requires
                v * w != 0,
                v >= 0,
                w >= 0,
        ;
    }
}

/// Products of what is not below zero rise with their factors.
pub proof fn lemma_product_rises(a1: Single, b1: Single, a2: Single, b2: Single)
    requires
        a1.value() is Finite,
        b1.value() is Finite,
        a2.value() is Finite,
        b2.value() is Finite,
        0 <= float::worth(a1) <= float::worth(a2),
        0 <= float::worth(b1) <= float::worth(b2),
    ensures
        a1.mul_spec(b1).rank() <= a2.mul_spec(b2).rank(),
{
    reveal(Single::mul_spec);
    let f = float::single();
    let u = pow2(149);
    lemma_pow2_pos(149);
    let (v1, w1) = (rounding::magnitude(f, a1.ord()), rounding::magnitude(f, b1.ord()));
    let (v2, w2) = (rounding::magnitude(f, a2.ord()), rounding::magnitude(f, b2.ord()));
    let (s1, s2) = (v1 * w1, v2 * w2);
    assert(s1 <= s2 && s1 * u <= s2 * u) by (nonlinear_arith)
        requires
            s1 == v1 * w1,
            s2 == v2 * w2,
            0 <= v1 <= v2,
            0 <= w1 <= w2,
            u > 0,
    ;
    rounding::lemma_rounded_monotone(f, s1, u, s2, u);
    float::lemma_zero_rounds(u);
    float::lemma_single_bound(s1, u);
    float::lemma_single_bound(s2, u);
    float::lemma_of_signed(a1.neg() != b1.neg(), rounding::rounded(f, s1, u));
    float::lemma_of_signed(a2.neg() != b2.neg(), rounding::rounded(f, s2, u));
    assert(s1 != 0 ==> v1 > 0 && w1 > 0) by (nonlinear_arith)
        requires
            s1 == v1 * w1,
            v1 >= 0,
            w1 >= 0,
    ;
    assert(s2 != 0 ==> v2 > 0 && w2 > 0) by (nonlinear_arith)
        requires
            s2 == v2 * w2,
            v2 >= 0,
            w2 >= 0,
    ;
}

/// Differences fall with what is taken away.
pub proof fn lemma_difference_falls(a: Single, b1: Single, b2: Single)
    requires
        a.value() is Finite,
        b1.value() is Finite,
        b2.value() is Finite,
        b1.rank() <= b2.rank(),
    ensures
        a.sub_spec(b2).rank() <= a.sub_spec(b1).rank(),
{
    let (x, y) = (b1.negated(), b2.negated());
    assert(x.ord() == b1.ord() && x.neg() == !b1.neg());
    assert(y.ord() == b2.ord() && y.neg() == !b2.neg());
    float::lemma_plus_monotone(y, x, a);
    lemma_plus_commutes(x, a);
    lemma_plus_commutes(y, a);
}

/// Reciprocals fall.
pub proof fn lemma_reciprocal_falls(d1: Single, d2: Single)
    requires
        d1.value() is Finite,
        d2.value() is Finite,
        0 < float::worth(d1) <= float::worth(d2),
    ensures
        Single::nearest(1, 1).div_spec(d2).rank() <= Single::nearest(1, 1).div_spec(d1).rank(),
{
    reveal(Single::div_spec);
    let f = float::single();
    let u = pow2(149);
    float::lemma_exact_integer(1);
    let (x, y) = (float::worth(d1) as nat, float::worth(d2) as nat);
    assert((u * u) * x <= (u * u) * y) by (nonlinear_arith)
        requires
            x <= y,
    ;
    rounding::lemma_rounded_monotone(f, u * u, y, u * u, x);
    float::lemma_single_bound(u * u, x);
    float::lemma_single_bound(u * u, y);
    assert(1 * u == u);
    float::lemma_of_signed(false, rounding::rounded(f, u * u, x));
    float::lemma_of_signed(false, rounding::rounded(f, u * u, y));
}

/// Bounds above zero.
pub proof fn lemma_above_zero(a: Single, lo: int, hi: int)
    requires
        between(a, lo, hi),
        0 < lo,
    ensures
        0 < float::worth(a),
{
    let g = grain();
    lemma_grain();
    assert(0 < lo * g) by (nonlinear_arith)
        requires
            0 < lo,
            g > 0,
    ;
}

/// Whether a number lies between zero and one.
pub open spec fn unit(a: Single) -> bool {
    a.value() is Finite && 0 <= float::worth(a) <= pow2(149)
}

pub proof fn lemma_unit(a: Single)
    ensures
        unit(a) <==> between(a, 0, 4096),
{
    lemma_grain();
    assert(0 * grain() == 0);
}

/// What is left of one.
pub proof fn lemma_rest(a: Single)
    requires
        unit(a),
    ensures
        unit(Single::nearest(1, 1).sub_spec(a)),
{
    let one = Single::nearest(1, 1);
    lemma_unit(a);
    lemma_whole(1);
    lemma_difference(one, 4096, 4096, a, 0, 4096);
    lemma_unit(one.sub_spec(a));
}

/// A product of numbers between zero and one.
pub proof fn lemma_unit_product(a: Single, b: Single)
    requires
        unit(a),
        unit(b),
    ensures
        unit(a.mul_spec(b)),
{
    lemma_part(a, b);
}

/// What comes to one at the most rounds to no more.
pub proof fn lemma_sum_upto_one(a: Single, b: Single)
    requires
        a.value() is Finite,
        b.value() is Finite,
        0 <= float::worth(a),
        0 <= float::worth(b),
        float::worth(a) + float::worth(b) <= pow2(149),
    ensures
        unit(a.add_spec(b)),
{
    reveal(Single::add_spec);
    lemma_grain();
    float::lemma_zero_rounds(1);
    let s = float::worth(a) + float::worth(b);
    assert((0 * grain()) * 1 == 0 && (4096 * grain()) * 1 == pow2(149)) by (nonlinear_arith)
        requires
            pow2(149) == 4096 * grain(),
    ;
    if s == 0 {
        lemma_rounds(a.neg() && b.neg(), s, 1, 0, 4096);
    } else {
        lemma_rounds(false, s, 1, 0, 4096);
    }
    lemma_unit(a.add_spec(b));
}

/// Sums rise with both of their terms.
pub proof fn lemma_sum_rises(a1: Single, b1: Single, a2: Single, b2: Single)
    requires
        a1.value() is Finite,
        b1.value() is Finite,
        a2.value() is Finite,
        b2.value() is Finite,
        a1.rank() <= a2.rank(),
        b1.rank() <= b2.rank(),
    ensures
        a1.add_spec(b1).rank() <= a2.add_spec(b2).rank(),
{
    float::lemma_plus_monotone(a1, a2, b1);
    float::lemma_plus_monotone(b1, b2, a2);
    lemma_plus_commutes(b1, a2);
    lemma_plus_commutes(b2, a2);
}

/// Nothing times a number has no whole part.
pub proof fn lemma_no_product(q: Single)
    requires
        q.positive(),
    ensures
        Single::nearest(0, 1).mul_spec(q).whole(u32::MAX as nat) == 0,
{
    let none = Single::nearest(0, 1);
    lemma_whole(0);
    float::lemma_exact_integer(0);
    lemma_pow2_pos(149);
    reveal(Single::mul_spec);
    reveal(Single::whole);
    let u = pow2(149);
    assert(0 * u == 0);
    let y = rounding::magnitude(float::single(), q.ord());
    assert(0 * y == 0);
    float::lemma_zero_rounds(u);
    float::lemma_of_signed(false, 0);
    rounding::lemma_formats();
    assert(rounding::infinity(float::single()) == 255 * pow2(23));
    rounding::lemma_quotient(0, pow2(23), 0, 0);
    rounding::lemma_quotient(0, u, 0, 0);
}

} // verus!
