//! How near the result of a chain of operations keeps to an exact fraction.

use vstd::arithmetic::power2::*;
use vstd::prelude::*;

use crate::float;
use crate::float::bounds;
use crate::float::nearness;
use crate::float::{Code, Single};
use crate::rounding;

verus! {

/// Whether a number is `n / d`, give or take `e` parts in `2^24` of it.
pub open spec fn about(a: Single, n: int, d: int, e: int) -> bool {
    &&& a.value() is Finite
    &&& !a.neg()
    &&& nearness::close(float::worth(a) * d, n * pow2(149), e)
}

/// Whether a fraction is nothing, or of a size at which the format keeps all of
/// its bits.
pub open spec fn wide(n: int, d: int) -> bool {
    &&& 0 < d
    &&& 0 <= n
    &&& n == 0 || (d <= n * pow2(120) && n <= d * pow2(100))
}

/// Whether a whole number is `n / d` cut and held to `limit`, give or take `e`
/// parts in `2^24` of the fraction.
pub open spec fn cut(w: int, n: int, d: int, e: int, limit: int) -> bool {
    &&& 0 <= w <= limit
    &&& (w * d) * 0x100_0000 <= n * (0x100_0000 + e)
    &&& w < limit ==> ((w + 1) * d) * 0x100_0000 > n * (0x100_0000 - e)
}

/// Fractions whose sizes differ by less than `2^64` are wide.
pub proof fn lemma_wide(n: int, d: int)
    requires
        0 <= n < 0x1_0000_0000_0000_0000,
        0 < d < 0x1_0000_0000_0000_0000,
    ensures
        wide(n, d),
{
    lemma2_to64();
    lemma2_to64_rest();
    lemma_pow2_strictly_increases(64, 100);
    lemma_pow2_strictly_increases(64, 120);
    if n > 0 {
        assert(d <= n * pow2(120) && n <= d * pow2(100)) by (nonlinear_arith)
            requires
                0 < n < 0x1_0000_0000_0000_0000,
                0 < d < 0x1_0000_0000_0000_0000,
                pow2(100) > 0x1_0000_0000_0000_0000,
                pow2(120) > 0x1_0000_0000_0000_0000,
        ;
    }
}

/// A number that is not zero is above it.
pub proof fn lemma_above(a: Single, n: int, d: int, e: int)
    requires
        about(a, n, d, e),
        0 < d,
        0 < n,
        0 <= e <= 64,
    ensures
        a.positive(),
        float::worth(a) > 0,
{
    let x = float::worth(a);
    lemma_pow2_pos(149);
    let u = pow2(149) as int;
    assert(x > 0) by (nonlinear_arith)
        requires
            (n * u - x * d) * 0x100_0000 <= e * (n * u),
            0 < d,
            0 < n,
            0 < u,
            0 <= e <= 64,
    {
        let y = n * u;
        assert(y > 0);
        assert(e * y <= 64 * y);
    }
    if a.ord() == 0 {
        lemma_pow2_pos(23);
        rounding::lemma_formats();
        rounding::lemma_quotient(0, pow2(23), 0, 0);
    }
}

/// What stands above zero is worth something.
pub proof fn lemma_positive_worth(a: Single)
    requires
        a.positive(),
    ensures
        float::worth(a) > 0,
{
    float::lemma_positive_magnitude(a);
}

/// What is worth nothing stands at zero.
pub proof fn lemma_no_worth(a: Single)
    requires
        a.value() is Finite,
        !a.neg(),
        float::worth(a) == 0,
    ensures
        a.rank() == 0,
{
    if a.ord() > 0 {
        float::lemma_positive_magnitude(a);
    }
}

/// Nothing is held as nothing.
pub proof fn lemma_none(a: Single, d: int, e: int)
    requires
        about(a, 0, d, e),
        0 < d,
    ensures
        float::worth(a) == 0,
{
    let x = float::worth(a);
    assert(0 * pow2(149) == 0);
    assert(e * 0 == 0);
    assert(x == 0) by (nonlinear_arith)
        requires
            (x * d) * 0x100_0000 <= 0,
            (0 - x * d) * 0x100_0000 <= 0,
            0 < d,
    ;
}

/// A margin may be wider.
pub proof fn lemma_wider(a: Single, n: int, d: int, e: int, f: int)
    requires
        about(a, n, d, e),
        0 <= n,
        e <= f,
    ensures
        about(a, n, d, f),
{
    let y = n * pow2(149);
    assert(e * y <= f * y) by (nonlinear_arith)
        requires
            y == n * pow2(149),
            0 <= n,
            e <= f,
    {
        assert(y >= 0);
    }
}

/// A fraction may be expanded.
pub proof fn lemma_expanded(a: Single, n: int, d: int, k: int, e: int)
    requires
        about(a, n, d, e),
        0 < k,
    ensures
        about(a, n * k, d * k, e),
{
    nearness::lemma_multiple(float::worth(a) * d, n * pow2(149), k, e);
    assert((float::worth(a) * d) * k == float::worth(a) * (d * k)) by (nonlinear_arith);
    assert((n * pow2(149)) * k == (n * k) * pow2(149)) by (nonlinear_arith);
}

/// A fraction may be reduced.
pub proof fn lemma_reduced(a: Single, n: int, d: int, k: int, e: int)
    requires
        about(a, n * k, d * k, e),
        0 < k,
    ensures
        about(a, n, d, e),
{
    assert((float::worth(a) * d) * k == float::worth(a) * (d * k)) by (nonlinear_arith);
    assert((n * pow2(149)) * k == (n * k) * pow2(149)) by (nonlinear_arith);
    nearness::lemma_divided(float::worth(a) * d, n * pow2(149), k, e);
}

/// A count below `2^24` is held exactly.
pub proof fn lemma_exact(n: nat)
    requires
        n < 0x100_0000,
    ensures
        about(Single::nearest(n, 1), n as int, 1, 0),
        float::worth(Single::nearest(n, 1)) == n * pow2(149),
{
    float::lemma_exact_integer(n);
    assert(0 * (n * pow2(149)) == 0);
}

/// A fraction of counts.
pub proof fn lemma_ratio(n: nat, d: nat)
    requires
        n < 0x1_0000_0000_0000_0000,
        0 < d < 0x1_0000_0000_0000_0000,
    ensures
        about(Single::nearest(n, d), n as int, d as int, 1),
{
    reveal(Single::nearest);
    let u = pow2(149);
    lemma_pow2_pos(149);
    if n == 0 {
        float::lemma_zero_rounds(d);
        assert(0 * u == 0);
        lemma_of_nothing();
    } else {
        lemma2_to64();
        lemma2_to64_rest();
        lemma_pow2_adds(23, 64);
        lemma_pow2_strictly_increases(87, 149);
        lemma_pow2_adds(64, 149);
        lemma_pow2_strictly_increases(213, 253);
        assert(pow2(23) * d <= n * u && n * u <= pow2(253) * d) by (nonlinear_arith)
            requires
                0 < n < 0x1_0000_0000_0000_0000,
                0 < d < 0x1_0000_0000_0000_0000,
                pow2(23) * 0x1_0000_0000_0000_0000 < u,
                0x1_0000_0000_0000_0000 * u < pow2(253),
                pow2(23) > 0,
        {
            assert(pow2(23) * d <= pow2(23) * 0x1_0000_0000_0000_0000);
            assert(n * u >= u);
            assert(n * u <= 0x1_0000_0000_0000_0000 * u);
            assert(pow2(253) * d >= pow2(253));
        }
        nearness::lemma_rounded(n * u, d);
    }
}

/// What the encoding of nothing is worth.
proof fn lemma_of_nothing()
    ensures
        ({
            let s = Single::of(Code::Number { neg: false, ord: 0 });
            &&& s.value() is Finite
            &&& !s.neg()
            &&& float::worth(s) == 0
        }),
{
    rounding::lemma_formats();
    assert(rounding::infinity(float::single()) == 255 * pow2(23));
    float::lemma_of_signed(false, 0);
    rounding::lemma_quotient(0, pow2(23), 0, 0);
}

/// A product close to a wide fraction is of a size that rounds well.
proof fn lemma_product_size(p: int, bn: int, bd: int, e: int)
    requires
        nearness::close(p * bd, (bn * pow2(149)) * pow2(149), e),
        0 <= e <= 200,
        wide(bn, bd),
        bn > 0,
    ensures
        pow2(23) * pow2(149) <= p <= pow2(253) * pow2(149),
{
    let u = pow2(149) as int;
    let (lo, hi) = (pow2(120) as int, pow2(100) as int);
    let q = (bn * u) * u;
    lemma_pow2_pos(149);
    lemma_pow2_pos(120);
    lemma_pow2_pos(100);
    lemma_pow2_adds(29, 120);
    lemma_pow2_adds(23, 6);
    lemma_pow2_adds(100, 149);
    lemma_pow2_adds(4, 249);
    lemma2_to64();
    let b = p * bd;
    assert(q > 0) by (nonlinear_arith)
        requires
            q == (bn * u) * u,
            bn > 0,
            u > 0,
    ;
    assert(e * q <= 200 * q) by (nonlinear_arith)
        requires
            q > 0,
            0 <= e <= 200,
    ;
    assert(q <= 2 * b && b <= 2 * q);
    assert(u * u <= 2 * p * lo) by (nonlinear_arith)
        requires
            q == (bn * u) * u,
            q <= 2 * b,
            b == p * bd,
            bd <= bn * lo,
            bd > 0,
            u > 0,
            lo > 0,
    {
        assert(bd * (u * u) <= (bn * lo) * (u * u));
        assert((bn * lo) * (u * u) == q * lo);
        assert(q * lo <= (2 * b) * lo);
        assert((2 * b) * lo == bd * (2 * p * lo));
    }
    assert(p <= 2 * hi * (u * u)) by (nonlinear_arith)
        requires
            q == (bn * u) * u,
            b <= 2 * q,
            b == p * bd,
            bn <= bd * hi,
            bd > 0,
            u > 0,
    {
        assert(bn * (u * u) <= (bd * hi) * (u * u));
        assert(bd * p <= bd * (2 * hi * (u * u)));
    }
    let c = pow2(23) as int;
    assert(c * u <= p) by (nonlinear_arith)
        requires
            u * u <= 2 * p * lo,
            u == (c * 64) * lo,
            lo > 0,
            u > 0,
    {
        assert(((c * 64) * u) * lo <= (2 * p) * lo);
        assert((c * 64) * u <= 2 * p);
        assert(c * u >= 0);
    }
    assert(p <= pow2(253) * u) by (nonlinear_arith)
        requires
            p <= 2 * hi * (u * u),
            pow2(253) == 16 * (hi * u),
            hi > 0,
            u > 0,
    {
        assert(2 * hi * (u * u) == (2 * (hi * u)) * u);
        assert(hi * u > 0);
        assert((2 * (hi * u)) * u <= (16 * (hi * u)) * u);
    }
}

/// A product.
pub proof fn lemma_times(
    a: Single,
    n1: int,
    d1: int,
    e1: int,
    b: Single,
    n2: int,
    d2: int,
    e2: int,
)
    requires
        about(a, n1, d1, e1),
        about(b, n2, d2, e2),
        0 <= n1,
        0 <= n2,
        0 < d1,
        0 < d2,
        0 <= e1 <= 30,
        0 <= e2 <= 30,
        wide(n1 * n2, d1 * d2),
    ensures
        about(a.mul_spec(b), n1 * n2, d1 * d2, e1 + e2 + 3),
{
    reveal(Single::mul_spec);
    let u = pow2(149) as int;
    lemma_pow2_pos(149);
    let (x, y) = (float::worth(a), float::worth(b));
    let (bn, bd) = (n1 * n2, d1 * d2);
    let p = x * y;
    assert(x >= 0 && y >= 0 && p >= 0 && y * d2 >= 0 && n1 * u >= 0 && (bn * u) * u >= 0)
        by (nonlinear_arith)
        requires
            x >= 0,
            y >= 0,
            p == x * y,
            d2 > 0,
            u > 0,
            n1 >= 0,
            n2 >= 0,
            bn == n1 * n2,
    {
        assert(bn >= 0);
        assert(bn * u >= 0);
    }
    nearness::lemma_multiple(x * d1, n1 * u, y * d2, e1);
    nearness::lemma_multiple(y * d2, n2 * u, n1 * u, e2);
    assert((x * d1) * (y * d2) == p * bd && (n1 * u) * (y * d2) == (y * d2) * (n1 * u) && (n2 * u)
        * (n1 * u) == (bn * u) * u) by (nonlinear_arith)
        requires
            p == x * y,
            bd == d1 * d2,
            bn == n1 * n2,
    ;
    nearness::lemma_chain(p * bd, (y * d2) * (n1 * u), (bn * u) * u, e1, e2);
    if bn == 0 {
        assert(p == 0) by (nonlinear_arith)
            requires
                nearness::close(p * bd, (bn * u) * u, e1 + e2 + 1),
                bn == 0,
                bd > 0,
                p >= 0,
        {
            assert((bn * u) * u == 0);
            assert((e1 + e2 + 1) * 0 == 0);
        }
        float::lemma_zero_rounds(pow2(149));
        lemma_of_nothing();
        assert(0 * bd == 0 && 0 * u == 0);
    } else {
        lemma_product_size(p, bn, bd, e1 + e2 + 1);
        nearness::lemma_rounded(p as nat, pow2(149));
        let w = float::worth(a.mul_spec(b));
        nearness::lemma_multiple(w * u, p, bd, 1);
        nearness::lemma_chain((w * u) * bd, p * bd, (bn * u) * u, 1, e1 + e2 + 1);
        assert((w * u) * bd == (w * bd) * u) by (nonlinear_arith);
        nearness::lemma_divided(w * bd, bn * u, u, e1 + e2 + 3);
    }
}

/// A quotient close to a wide fraction is of a size that rounds well.
proof fn lemma_quotient_size(
    x: int,
    n1: int,
    d1: int,
    e1: int,
    y: int,
    n2: int,
    d2: int,
    e2: int,
)
    requires
        nearness::close(x * d1, n1 * pow2(149), e1),
        nearness::close(y * d2, n2 * pow2(149), e2),
        0 < n1,
        0 < n2,
        0 < d1,
        0 < d2,
        0 <= e1 <= 50,
        0 <= e2 <= 50,
        wide(n1 * d2, d1 * n2),
    ensures
        pow2(23) * y <= x * pow2(149) <= pow2(253) * y,
        0 < x,
        0 < y,
{
    let u = pow2(149) as int;
    let (lo, hi) = (pow2(120) as int, pow2(100) as int);
    let c = pow2(23) as int;
    let t = pow2(253) as int;
    lemma_pow2_pos(149);
    lemma_pow2_pos(120);
    lemma_pow2_pos(100);
    lemma_pow2_adds(29, 120);
    lemma_pow2_adds(23, 6);
    lemma_pow2_adds(100, 149);
    lemma_pow2_adds(4, 249);
    lemma2_to64();
    let (p, q, v, w) = (x * d1, n1 * u, y * d2, n2 * u);
    assert(q > 0 && w > 0) by (nonlinear_arith)
        requires
            q == n1 * u,
            w == n2 * u,
            n1 > 0,
            n2 > 0,
            u > 0,
    ;
    assert(e1 * q <= 50 * q && e2 * w <= 50 * w) by (nonlinear_arith)
        requires
            q > 0,
            w > 0,
            0 <= e1 <= 50,
            0 <= e2 <= 50,
    ;
    assert(q <= 2 * p && p <= 2 * q && w <= 2 * v && v <= 2 * w);
    assert(x > 0 && y > 0) by (nonlinear_arith)
        requires
            p == x * d1,
            v == y * d2,
            p > 0,
            v > 0,
            d1 > 0,
            d2 > 0,
    ;
    assert(n1 * d2 > 0) by (nonlinear_arith)
        requires
            n1 > 0,
            d2 > 0,
    ;
    // Four times the one side over the other, cross-multiplied.
    assert(d1 * w <= 2 * (p * d2) * lo) by (nonlinear_arith)
        requires
            d1 * n2 <= (n1 * d2) * lo,
            w == n2 * u,
            q == n1 * u,
            q <= 2 * p,
            d2 > 0,
            lo > 0,
            u > 0,
    {
        assert((d1 * n2) * u <= ((n1 * d2) * lo) * u);
        assert(((n1 * d2) * lo) * u == (q * d2) * lo);
        assert(q * d2 <= (2 * p) * d2);
        assert((q * d2) * lo <= ((2 * p) * d2) * lo);
    }
    assert(q * d2 <= (d1 * w) * hi) by (nonlinear_arith)
        requires
            n1 * d2 <= (d1 * n2) * hi,
            w == n2 * u,
            q == n1 * u,
            u > 0,
    {
        assert((n1 * d2) * u <= ((d1 * n2) * hi) * u);
    }
    let k = d1 * d2;
    assert(k > 0) by (nonlinear_arith)
        requires
            k == d1 * d2,
            d1 > 0,
            d2 > 0,
    ;
    assert(y <= 4 * x * lo) by (nonlinear_arith)
        requires
            d1 * w <= 2 * (p * d2) * lo,
            v <= 2 * w,
            p == x * d1,
            v == y * d2,
            k == d1 * d2,
            k > 0,
            d1 > 0,
    {
        assert(d1 * v <= d1 * (2 * w));
        assert(d1 * v == k * y);
        assert(4 * (p * d2) * lo == k * (4 * x * lo));
    }
    assert(x <= 4 * y * hi) by (nonlinear_arith)
        requires
            q * d2 <= (d1 * w) * hi,
            p <= 2 * q,
            w <= 2 * v,
            p == x * d1,
            v == y * d2,
            k == d1 * d2,
            k > 0,
            d1 > 0,
            d2 > 0,
            hi > 0,
    {
        assert(p * d2 <= (2 * q) * d2);
        assert(d1 * w <= d1 * (2 * v));
        assert((d1 * w) * hi <= (d1 * (2 * v)) * hi);
        assert(k * x <= k * (4 * y * hi));
    }
    assert(c * y <= x * u) by (nonlinear_arith)
        requires
            y <= 4 * x * lo,
            u == (c * 64) * lo,
            x > 0,
            c > 0,
            lo > 0,
    {
        assert(c * y <= c * (4 * x * lo));
        assert(x * u == (c * 64) * lo * x);
        assert(c * lo * x > 0);
    }
    assert(x * u <= t * y) by (nonlinear_arith)
        requires
            x <= 4 * y * hi,
            t == 16 * (hi * u),
            u > 0,
            y > 0,
            hi > 0,
    {
        assert(x * u <= (4 * y * hi) * u);
        assert(hi * u * y > 0);
    }
}

/// A quotient.
pub proof fn lemma_over(
    a: Single,
    n1: int,
    d1: int,
    e1: int,
    b: Single,
    n2: int,
    d2: int,
    e2: int,
)
    requires
        about(a, n1, d1, e1),
        about(b, n2, d2, e2),
        0 <= n1,
        0 < n2,
        0 < d1,
        0 < d2,
        0 <= e1 <= 25,
        0 <= e2 <= 25,
        wide(n1 * d2, d1 * n2),
    ensures
        about(a.div_spec(b), n1 * d2, d1 * n2, e1 + e2 + 4),
{
    reveal(Single::div_spec);
    let u = pow2(149) as int;
    lemma_pow2_pos(149);
    let (x, y) = (float::worth(a), float::worth(b));
    let (bn, bd) = (n1 * d2, d1 * n2);
    lemma_above(b, n2, d2, e2);
    assert(x >= 0);
    if n1 == 0 {
        lemma_none(a, d1, e1);
        assert(0 * u == 0 && 0 * d2 == 0 && 0 * bd == 0);
        float::lemma_zero_rounds(y as nat);
        lemma_of_nothing();
    } else {
        lemma_quotient_size(x, n1, d1, e1, y, n2, d2, e2);
        nearness::lemma_rounded((x * u) as nat, y as nat);
        let w = float::worth(a.div_spec(b));
        let k = d1 * d2;
        assert(k > 0 && u * d2 > 0 && w * d1 >= 0 && n2 * u >= 0 && (bn * u) * u >= 0)
            by (nonlinear_arith)
            requires
                k == d1 * d2,
                d1 > 0,
                d2 > 0,
                u > 0,
                w >= 0,
                n2 > 0,
                n1 > 0,
                bn == n1 * d2,
        {
            assert(bn > 0);
            assert(bn * u > 0);
        }
        nearness::lemma_multiple(w * y, x * u, k, 1);
        nearness::lemma_multiple(x * d1, n1 * u, u * d2, e1);
        assert((x * u) * k == (x * d1) * (u * d2) && (n1 * u) * (u * d2) == (bn * u) * u)
            by (nonlinear_arith)
            requires
                k == d1 * d2,
                bn == n1 * d2,
        ;
        nearness::lemma_chain((w * y) * k, (x * u) * k, (bn * u) * u, 1, e1);
        nearness::lemma_turned(y * d2, n2 * u, e2);
        nearness::lemma_multiple(n2 * u, y * d2, w * d1, e2 + 1);
        assert((y * d2) * (w * d1) == (w * y) * k && (n2 * u) * (w * d1) == (w * bd) * u)
            by (nonlinear_arith)
            requires
                k == d1 * d2,
                bd == d1 * n2,
        ;
        nearness::lemma_chain((w * bd) * u, (w * y) * k, (bn * u) * u, e2 + 1, e1 + 2);
        nearness::lemma_divided(w * bd, bn * u, u, e1 + e2 + 4);
    }
}

/// A sum over one denominator.
pub proof fn lemma_plus(a: Single, n1: int, b: Single, n2: int, d: int, e: int)
    requires
        about(a, n1, d, e),
        about(b, n2, d, e),
        0 <= n1,
        0 <= n2,
        0 < d,
        0 <= e <= 50,
        wide(n1 + n2, d),
    ensures
        about(a.add_spec(b), n1 + n2, d, e + 2),
{
    reveal(Single::add_spec);
    let u = pow2(149) as int;
    lemma_pow2_pos(149);
    let (x, y) = (float::worth(a), float::worth(b));
    let (s, n) = (x + y, n1 + n2);
    assert(x >= 0 && y >= 0);
    assert(s * d == x * d + y * d && n * u == n1 * u + n2 * u && e * (n * u) == e * (n1 * u) + e
        * (n2 * u)) by (nonlinear_arith)
        requires
            s == x + y,
            n == n1 + n2,
    ;
    assert(nearness::close(s * d, n * u, e));
    assert(n * u >= 0) by (nonlinear_arith)
        requires
            n >= 0,
            u > 0,
    ;
    if n == 0 {
        lemma_none(a, d, e);
        lemma_none(b, d, e);
        lemma_of_nothing();
        assert(0 * d == 0 && 0 * u == 0);
    } else {
        // The same sum over the unit is a product with one.
        nearness::lemma_multiple(s * d, n * u, u, e);
        assert((s * d) * u == (s * u) * d) by (nonlinear_arith);
        lemma_product_size(s * u, n, d, e);
        assert(pow2(23) * 1 <= s && s <= pow2(253) * 1) by (nonlinear_arith)
            requires
                pow2(23) * u <= s * u,
                s * u <= pow2(253) * u,
                u > 0,
        ;
        nearness::lemma_rounded(s as nat, 1);
        let w = float::worth(a.add_spec(b));
        assert(w * 1 == w);
        nearness::lemma_multiple(w, s, d, 1);
        nearness::lemma_chain(w * d, s * d, n * u, 1, e);
    }
}

/// What is left of one.
pub proof fn lemma_from_one(share: Single)
    requires
        share.value() is Finite,
        !share.neg(),
        float::worth(share) <= pow2(149),
        float::worth(share) < pow2(149) ==> share.rank() < Single::nearest(1, 1).rank(),
    ensures
        ({
            let rest = Single::nearest(1, 1).sub_spec(share);
            let (s, u) = (float::worth(share), pow2(149) as int);
            &&& about(rest, u - s, u, 1)
            &&& s < u ==> (u - s) * 0x100_0000 >= u
        }),
{
    reveal(Single::add_spec);
    let one = Single::nearest(1, 1);
    let f = float::single();
    let (s, u) = (float::worth(share), pow2(149) as int);
    let less = share.negated();
    float::lemma_exact_integer(1);
    lemma_exact(1);
    lemma_pow2_pos(149);
    rounding::lemma_formats();
    assert(rounding::infinity(f) == 255 * pow2(23));
    assert(less.ord() == share.ord());
    assert(float::worth(less) == -s);
    let rest = one.sub_spec(share);
    if s == u {
        bounds::lemma_rank_of_worth(one, share);
        float::lemma_of_signed(false, 0);
        rounding::lemma_quotient(0, pow2(23), 0, 0);
        assert(0 * u == 0);
        assert(1 * 0 == 0);
    } else {
        // The largest number below one.
        bounds::lemma_below_one(share);
        let left = (u - s) as nat;
        lemma_pow2_adds(24, 125);
        lemma_pow2_adds(23, 102);
        lemma_pow2_pos(125);
        lemma_pow2_strictly_increases(23, 125);
        lemma_pow2_strictly_increases(149, 253);
        lemma2_to64();
        assert(pow2(23) * 1 <= left <= pow2(253) * 1);
        nearness::lemma_rounded(left, 1);
        assert(float::worth(rest) * 1 == float::worth(rest));
        nearness::lemma_multiple(float::worth(rest), left as int, u, 1);
    }
}

/// The whole part.
pub proof fn lemma_cut(a: Single, n: int, d: int, e: int, limit: nat)
    requires
        about(a, n, d, e),
        0 <= n,
        0 < d,
        0 <= e <= 64,
    ensures
        cut(a.whole(limit) as int, n, d, e, limit as int),
{
    reveal(Single::whole);
    let (x, u) = (float::worth(a) as nat, pow2(149));
    lemma_pow2_pos(149);
    rounding::lemma_parts(x, u);
    let q = x / u;
    assert((q + 1) * u == q * u + u) by (nonlinear_arith);
    assert(limit <= q ==> limit * u <= q * u) by (nonlinear_arith);
    let w = a.whole(limit) as int;
    assert((w * d) * 0x100_0000 <= n * (0x100_0000 + e)) by (nonlinear_arith)
        requires
            w * u <= x,
            (x * d - n * u) * 0x100_0000 <= e * (n * u),
            d > 0,
            u > 0,
    {
        assert((w * u) * d <= x * d);
        assert(((w * d) * 0x100_0000) * u <= (n * (0x100_0000 + e)) * u);
    }
    if w < limit {
        assert(((w + 1) * d) * 0x100_0000 > n * (0x100_0000 - e)) by (nonlinear_arith)
            requires
                (w + 1) * u > x,
                (n * u - x * d) * 0x100_0000 <= e * (n * u),
                d > 0,
                u > 0,
        {
            assert(((w + 1) * u) * d > x * d);
            assert((((w + 1) * d) * 0x100_0000) * u > (n * (0x100_0000 - e)) * u);
        }
    }
}

/// The whole part of a number that is not below zero.
pub proof fn lemma_signed_whole(a: Single, limit: nat)
    requires
        a.value() is Finite,
        float::worth(a) >= 0,
    ensures
        ({
            let w = a.whole(limit) as int;
            &&& 0 <= w <= limit
            &&& w * pow2(149) <= float::worth(a)
            &&& w < limit ==> float::worth(a) < (w + 1) * pow2(149)
        }),
{
    reveal(Single::whole);
    let u = pow2(149);
    lemma_pow2_pos(149);
    let x = float::worth(a) as nat;
    rounding::lemma_parts(x, u);
    rounding::lemma_parts(0, u);
    let q = x / u;
    assert((q + 1) * u == q * u + u) by (nonlinear_arith);
    assert(limit <= q ==> limit * u <= q * u) by (nonlinear_arith);
    assert(0 * u == 0);
}

/// The whole part of a number that is held to the limit first.
pub proof fn lemma_held_cut(a: Single, n: int, d: int, e: int, limit: nat)
    requires
        about(a, n, d, e),
        0 <= n,
        0 < d,
        0 <= e <= 64,
        limit < 0x100_0000,
    ensures
        cut(a.min_spec(Single::nearest(limit, 1)).whole(limit) as int, n, d, e, limit as int),
{
    let top = Single::nearest(limit, 1);
    lemma_cut(a, n, d, e, limit);
    float::lemma_exact_integer(limit);
    if top.below(a) {
        float::lemma_whole_of_integer(limit, limit);
        float::lemma_whole_below(top, a, limit);
    }
}

/// Fractions further apart than their margins stand in their order.
pub proof fn lemma_beyond(
    a: Single,
    n1: int,
    d1: int,
    e1: int,
    b: Single,
    n2: int,
    d2: int,
    e2: int,
)
    requires
        about(a, n1, d1, e1),
        about(b, n2, d2, e2),
        0 < d1,
        0 < d2,
        (n1 * d2) * (0x100_0000 - e1) > (n2 * d1) * (0x100_0000 + e2),
    ensures
        float::worth(a) > float::worth(b),
        a.rank() > b.rank(),
        b.below(a),
        !a.upto(b),
{
    let (x, y) = (float::worth(a), float::worth(b));
    let u = pow2(149) as int;
    lemma_pow2_pos(149);
    let k = d1 * d2;
    let (p, q) = (x * k, y * k);
    assert(p * 0x100_0000 >= ((n1 * d2) * (0x100_0000 - e1)) * u) by (nonlinear_arith)
        requires
            (n1 * u - x * d1) * 0x100_0000 <= e1 * (n1 * u),
            p == x * k,
            k == d1 * d2,
            d2 > 0,
    {
        assert((x * d1) * 0x100_0000 >= (n1 * u) * (0x100_0000 - e1));
        assert(((x * d1) * 0x100_0000) * d2 >= ((n1 * u) * (0x100_0000 - e1)) * d2);
    }
    assert(q * 0x100_0000 <= ((n2 * d1) * (0x100_0000 + e2)) * u) by (nonlinear_arith)
        requires
            (y * d2 - n2 * u) * 0x100_0000 <= e2 * (n2 * u),
            q == y * k,
            k == d1 * d2,
            d1 > 0,
    {
        assert((y * d2) * 0x100_0000 <= (n2 * u) * (0x100_0000 + e2));
        assert(((y * d2) * 0x100_0000) * d1 <= ((n2 * u) * (0x100_0000 + e2)) * d1);
    }
    let (v, w) = ((n1 * d2) * (0x100_0000 - e1), (n2 * d1) * (0x100_0000 + e2));
    assert(v * u > w * u) by (nonlinear_arith)
        requires
            v > w,
            u > 0,
    ;
    assert(x > y) by (nonlinear_arith)
        requires
            x * k > y * k,
            k == d1 * d2,
            d1 > 0,
            d2 > 0,
    {
        assert(k > 0);
    }
    if a.rank() <= b.rank() {
        float::lemma_worth_monotone(a, b);
    }
}

/// Tall fractions are wide too.
pub proof fn lemma_wide_tall(n: int, d: int)
    requires
        0 <= n < 0x1_0000_0000_0000_0000_0000_0000int,
        0 < d < 0x1_0000_0000_0000_0000,
    ensures
        wide(n, d),
{
    lemma2_to64();
    lemma2_to64_rest();
    lemma_pow2_adds(64, 36);
    lemma_pow2_strictly_increases(64, 120);
    if n > 0 {
        assert(d <= n * pow2(120) && n <= d * pow2(100)) by (nonlinear_arith)
            requires
                0 < n < 0x1_0000_0000_0000_0000_0000_0000int,
                0 < d < 0x1_0000_0000_0000_0000,
                pow2(100) >= 0x1_0000_0000_0000_0000_0000_0000int,
                pow2(120) > 0x1_0000_0000_0000_0000,
        ;
    }
}

} // verus!
