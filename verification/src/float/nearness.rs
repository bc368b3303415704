//! How near rounded results keep to exact ones.

use vstd::arithmetic::power2::*;
use vstd::prelude::*;

use crate::float;
use crate::float::Single;
use crate::rounding;

verus! {

/// Whether two values differ by no more than `e` parts in `2^24` of the second.
pub open spec fn close(x: int, y: int, e: int) -> bool {
    &&& (x - y) * 0x100_0000 <= e * y
    &&& (y - x) * 0x100_0000 <= e * y
}

/// What is close to something close.
pub proof fn lemma_chain(x: int, y: int, z: int, e: int, f: int)
    requires
        close(x, y, e),
        close(y, z, f),
        0 <= z,
        0 <= e <= 64,
        0 <= f <= 64,
    ensures
        close(x, z, e + f + 1),
{
    assert(e * y <= e * z + z) by (nonlinear_arith)
        requires
            (y - z) * 0x100_0000 <= f * z,
            0 <= e <= 64,
            0 <= f <= 64,
            0 <= z,
    {
        assert(e * ((y - z) * 0x100_0000) <= e * (f * z));
        assert(e * (f * z) <= 4096 * z) by (nonlinear_arith)
            requires
                0 <= e <= 64,
                0 <= f <= 64,
                0 <= z,
        ;
    }
    assert((e + f + 1) * z == e * z + f * z + z) by (nonlinear_arith);
}

/// Multiples are as close.
pub proof fn lemma_multiple(x: int, y: int, k: int, e: int)
    requires
        close(x, y, e),
        0 <= k,
    ensures
        close(x * k, y * k, e),
{
    assert((x * k - y * k) * 0x100_0000 <= e * (y * k) && (y * k - x * k) * 0x100_0000 <= e * (y
        * k)) by (nonlinear_arith)
        requires
            (x - y) * 0x100_0000 <= e * y,
            (y - x) * 0x100_0000 <= e * y,
            0 <= k,
    {
        assert(((x - y) * 0x100_0000) * k <= (e * y) * k);
        assert(((y - x) * 0x100_0000) * k <= (e * y) * k);
    }
}

/// What multiples are close of is as close.
pub proof fn lemma_divided(x: int, y: int, k: int, e: int)
    requires
        close(x * k, y * k, e),
        0 < k,
    ensures
        close(x, y, e),
{
    assert((x - y) * 0x100_0000 <= e * y && (y - x) * 0x100_0000 <= e * y) by (nonlinear_arith)
        requires
            (x * k - y * k) * 0x100_0000 <= e * (y * k),
            (y * k - x * k) * 0x100_0000 <= e * (y * k),
            0 < k,
    {
        assert((x * k - y * k) * 0x100_0000 == ((x - y) * 0x100_0000) * k);
        assert((y * k - x * k) * 0x100_0000 == ((y - x) * 0x100_0000) * k);
        assert(e * (y * k) == (e * y) * k);
    }
}

/// Closeness the other way round.
pub proof fn lemma_turned(x: int, y: int, e: int)
    requires
        close(x, y, e),
        0 <= y,
        0 <= e <= 64,
    ensures
        close(y, x, e + 1),
        0 <= x,
{
    assert(0 <= x && e * y <= (e + 1) * x) by (nonlinear_arith)
        requires
            (y - x) * 0x100_0000 <= e * y,
            0 <= y,
            0 <= e <= 64,
    {
        assert(y * (0x100_0000 - e) <= 0x100_0000 * x);
        assert(y * (0x100_0000 - 64) <= y * (0x100_0000 - e));
        assert(e * (y * (0x100_0000 - 64)) <= e * (0x100_0000 * x));
    }
}

/// What a rounded fraction is encoded as, and how close it is.
pub proof fn lemma_rounded(num: nat, den: nat)
    requires
        den > 0,
        pow2(23) * den <= num <= pow2(253) * den,
    ensures
        ({
            let s = Single::of(
                float::Code::Number {
                    neg: false,
                    ord: rounding::rounded(float::single(), num, den),
                },
            );
            &&& s.positive()
            &&& close(float::worth(s) * den, num as int, 1)
        }),
{
    let f = float::single();
    let ord = rounding::rounded(f, num, den);
    rounding::lemma_formats();
    assert(rounding::infinity(f) == 255 * pow2(23));
    lemma_pow2_pos(253);
    assert(1 * pow2(253) == pow2(253) && den * pow2(23) == pow2(23) * den) by (nonlinear_arith);
    rounding::lemma_held(f, 1, 253);
    assert(num * 1 <= pow2(253) * den);
    rounding::lemma_rounded_monotone(f, num, den, pow2(253), 1);
    rounding::lemma_relative(f, num, den);
    float::lemma_of_signed(false, ord);
    let mag = rounding::magnitude(f, ord);
    assert(ord > 0) by {
        if ord == 0 {
            rounding::lemma_quotient(0, pow2(23), 0, 0);
            assert(num > 0) by (nonlinear_arith)
                requires
                    pow2(23) * den <= num,
                    pow2(23) == 0x80_0000,
                    den > 0,
            ;
            assert(0 * den == 0);
        }
    }
    assert(1 * (num as int) == num);
}

/// A count.
pub proof fn lemma_count(n: nat)
    requires
        1 <= n < 0x1_0000_0000,
    ensures
        Single::nearest(n, 1).positive(),
        close(float::worth(Single::nearest(n, 1)), (n * pow2(149)) as int, 1),
{
    lemma_quotient(n, 1);
    assert(float::worth(Single::nearest(n, 1)) * 1 == float::worth(Single::nearest(n, 1)));
}

/// A fraction.
pub proof fn lemma_quotient(n: nat, d: nat)
    requires
        1 <= n < 0x1_0000_0000,
        1 <= d < 0x1_0000_0000,
    ensures
        Single::nearest(n, d).positive(),
        close(float::worth(Single::nearest(n, d)) * d, (n * pow2(149)) as int, 1),
{
    reveal(Single::nearest);
    let u = pow2(149);
    lemma2_to64();
    lemma_pow2_adds(32, 149);
    lemma_pow2_adds(55, 94);
    lemma_pow2_adds(23, 32);
    lemma_pow2_pos(94);
    lemma_pow2_pos(149);
    lemma_pow2_strictly_increases(181, 253);
    assert(pow2(23) * d <= n * u && n * u <= pow2(253) * d) by (nonlinear_arith)
        requires
            1 <= n < 0x1_0000_0000,
            1 <= d < 0x1_0000_0000,
            pow2(181) == 0x1_0000_0000 * u,
            pow2(181) <= pow2(253),
            u == (pow2(23) * 0x1_0000_0000) * pow2(94),
            pow2(94) >= 1,
            pow2(23) >= 1,
            u > 0,
    {
        assert(pow2(23) * d <= pow2(23) * 0x1_0000_0000);
        assert(u >= pow2(23) * 0x1_0000_0000);
        assert(n * u >= u);
        assert(n * u <= 0x1_0000_0000 * u);
        assert(pow2(253) * d >= pow2(253));
    }
    lemma_rounded(n * u, d);
}

/// A product.
pub proof fn lemma_product(a: Single, b: Single)
    requires
        a.positive(),
        b.positive(),
        pow2(23) * pow2(149) <= float::worth(a) * float::worth(b) <= pow2(253) * pow2(149),
    ensures
        a.mul_spec(b).positive(),
        close(
            float::worth(a.mul_spec(b)) * pow2(149),
            float::worth(a) * float::worth(b),
            1,
        ),
{
    reveal(Single::mul_spec);
    lemma_pow2_pos(149);
    let (x, y) = (float::worth(a) as nat, float::worth(b) as nat);
    lemma_rounded(x * y, pow2(149));
}

/// A quotient.
pub proof fn lemma_over(a: Single, b: Single)
    requires
        a.positive(),
        b.positive(),
        pow2(23) * float::worth(b) <= float::worth(a) * pow2(149) <= pow2(253) * float::worth(b),
    ensures
        a.div_spec(b).positive(),
        close(
            float::worth(a.div_spec(b)) * float::worth(b),
            float::worth(a) * pow2(149),
            1,
        ),
        float::worth(b) > 0,
{
    reveal(Single::div_spec);
    let (x, y) = (float::worth(a) as nat, float::worth(b) as nat);
    float::lemma_positive_magnitude(b);
    lemma_rounded(x * pow2(149), y);
}

/// The whole part of a number.
pub proof fn lemma_whole(a: Single, limit: nat)
    requires
        a.positive(),
    ensures
        ({
            let n = a.whole(limit);
            &&& n <= limit
            &&& n * pow2(149) <= float::worth(a)
            &&& n < limit ==> float::worth(a) < (n + 1) * pow2(149)
        }),
{
    reveal(Single::whole);
    let (x, u) = (float::worth(a) as nat, pow2(149));
    lemma_pow2_pos(149);
    rounding::lemma_parts(x, u);
    let q = x / u;
    assert((q + 1) * u == q * u + u) by (nonlinear_arith);
    assert(limit <= q ==> limit * u <= q * u) by (nonlinear_arith);
}

} // verus!
