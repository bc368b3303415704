//! How a throughput moved to another format stands to the bits per weight.

use vstd::arithmetic::power2::*;
use vstd::prelude::*;

use crate::float;
use crate::float::bounds;
use crate::float::nearness;
use crate::float::Single;
use crate::quant::Quant;
use crate::speed;

verus! {

/// A rescaled throughput is the measured one times the ratio of the bits per
/// weight, cut to a whole number: exactly, unless that product lies within one
/// part in two million of a whole number, and then to within one.
pub proof fn law_rescaling_goes_by_the_bits(tps_x10: u16, from: Quant, to: Quant)
    ensures
        ({
            let (n, d) = ((tps_x10 * from.centibits()) as nat, to.centibits());
            let (r, exact, rest) = (speed::rescaled_spec(tps_x10, from, to), n / d, n % d);
            &&& exact - 1 <= r <= exact + 1
            &&& n <= rest * 0x20_0000 && n < (d - rest) * 0x20_0000 ==> r == exact
        }),
{
    let (f, t) = (from.centibits(), to.centibits());
    let u = pow2(149) as int;
    let (a, b) = (from.bits_spec(), to.bits_spec());
    let q = a.div_spec(b);
    let x = Single::nearest(tps_x10 as nat, 1);
    let y = x.mul_spec(q);
    let n = (tps_x10 * f) as nat;
    let r = speed::rescaled_spec(tps_x10, from, to);
    if tps_x10 == 0 {
        lemma_nothing_rescaled(from, to);
        assert(0 * f == 0);
    } else {
        lemma_rescaled_close(tps_x10, from, to);
        lemma_pow2_pos(149);
        nearness::lemma_whole(y, u32::MAX as nat);
        let v = float::worth(y);
        assert(1 <= n <= 65_535 * 1600 && v * t * 0x20_0000 <= n * u * 0x20_0001 && v * t
            * 0x20_0000 >= n * u * 0x1f_ffff) by (nonlinear_arith)
            requires
                nearness::close(v * t, n * u, 8),
                n == tps_x10 * f,
                1 <= tps_x10 <= 65_535,
                335 <= f <= 1600,
        ;
        lemma_cut(r as int, v, u, n as int, t as int);
    }
}

/// Where the cut falls.
proof fn lemma_cut(r: int, v: int, u: int, n: int, d: int)
    requires
        u > 0,
        335 <= d <= 1600,
        1 <= n <= 65_535 * 1600,
        0 <= r <= u32::MAX,
        r * u <= v,
        r < u32::MAX ==> v < (r + 1) * u,
        v * d * 0x20_0000 <= n * u * 0x20_0001,
        v * d * 0x20_0000 >= n * u * 0x1f_ffff,
    ensures
        n / d - 1 <= r <= n / d + 1,
        n <= (n % d) * 0x20_0000 && n < (d - n % d) * 0x20_0000 ==> r == n / d,
{
    let (q, z) = (n / d, n % d);
    vstd::arithmetic::div_mod::lemma_fundamental_div_mod(n, d);
    assert(n == q * d + z) by (nonlinear_arith)
        requires
            n == d * (n / d) + n % d,
            q == n / d,
            z == n % d,
    ;
    assert(0 <= z < d);
    // From above.
    assert(r * d * 0x20_0000 <= n * 0x20_0001) by (nonlinear_arith)
        requires
            r * u <= v,
            v * d * 0x20_0000 <= n * u * 0x20_0001,
            u > 0,
            335 <= d,
    {
        assert((r * u) * d <= v * d);
        assert((r * d * 0x20_0000) * u <= (n * 0x20_0001) * u);
    }
    assert(r < u32::MAX) by (nonlinear_arith)
        requires
            r * d * 0x20_0000 <= n * 0x20_0001,
            n <= 65_535 * 1600,
            335 <= d,
            0 <= r,
    ;
    // From below.
    assert((r + 1) * d * 0x20_0000 > n * 0x1f_ffff) by (nonlinear_arith)
        requires
            v < (r + 1) * u,
            v * d * 0x20_0000 >= n * u * 0x1f_ffff,
            u > 0,
            335 <= d,
    {
        assert(v * d < ((r + 1) * u) * d);
        assert(((r + 1) * d * 0x20_0000) * u > (n * 0x1f_ffff) * u);
    }
    let p = r * d;
    assert((r + 1) * d == p + d) by (nonlinear_arith)
        requires
            p == r * d,
    ;
    assert(r >= q + 1 ==> p >= q * d + d) by (nonlinear_arith)
        requires
            p == r * d,
            335 <= d,
    ;
    assert(r >= q + 2 ==> p >= q * d + 2 * d) by (nonlinear_arith)
        requires
            p == r * d,
            335 <= d,
    ;
    assert(r <= q - 1 ==> p <= q * d - d) by (nonlinear_arith)
        requires
            p == r * d,
            335 <= d,
    ;
    assert(r <= q - 2 ==> p <= q * d - 2 * d) by (nonlinear_arith)
        requires
            p == r * d,
            335 <= d,
    ;
}

/// Nothing measured is nothing rescaled.
proof fn lemma_nothing_rescaled(from: Quant, to: Quant)
    ensures
        speed::rescaled_spec(0, from, to) == 0,
{
    let (a, b) = (from.bits_spec(), to.bits_spec());
    let none = Single::nearest(0, 1);
    let q = a.div_spec(b);
    lemma_ratio_close(from, to);
    float::lemma_exact_integer(0);
    float::lemma_zero_rank();
    float::lemma_times_monotone(none, none, q, q);
    bounds::lemma_no_product(q);
}

/// The ratio of the bits per weight, rounded.
proof fn lemma_ratio_close(from: Quant, to: Quant)
    ensures
        ({
            let (a, b) = (from.bits_spec(), to.bits_spec());
            let q = a.div_spec(b);
            let u = pow2(149) as int;
            &&& a.positive()
            &&& b.positive()
            &&& q.positive()
            &&& nearness::close(float::worth(a) * 100, from.centibits() * u, 1)
            &&& nearness::close(float::worth(b) * 100, to.centibits() * u, 1)
            &&& nearness::close(float::worth(q) * float::worth(b), float::worth(a) * u, 1)
            &&& u <= float::worth(a) <= 32 * u
            &&& u <= float::worth(b) <= 32 * u
        }),
{
    let (f, t) = (from.centibits(), to.centibits());
    let u = pow2(149) as int;
    let (a, b) = (from.bits_spec(), to.bits_spec());
    nearness::lemma_quotient(f, 100);
    nearness::lemma_quotient(t, 100);
    lemma2_to64();
    lemma_pow2_pos(149);
    let (v, w) = (float::worth(a), float::worth(b));
    assert(u <= v <= 32 * u) by (nonlinear_arith)
        requires
            nearness::close(v * 100, f * u, 1),
            335 <= f <= 1600,
            u > 0,
    ;
    assert(u <= w <= 32 * u) by (nonlinear_arith)
        requires
            nearness::close(w * 100, t * u, 1),
            335 <= t <= 1600,
            u > 0,
    ;
    lemma_pow2_adds(28, 121);
    lemma_pow2_pos(121);
    lemma_pow2_adds(5, 149);
    lemma_pow2_strictly_increases(154, 253);
    assert(pow2(23) * w <= v * u && v * u <= pow2(253) * w) by (nonlinear_arith)
        requires
            u <= v <= 32 * u,
            u <= w <= 32 * u,
            pow2(23) == 0x80_0000,
            u == 0x1000_0000 * pow2(121),
            pow2(121) > 0,
            32 * u <= pow2(253),
            u > 0,
    {
        assert(pow2(23) * w <= 0x80_0000 * (32 * u));
        assert(v * u >= u * u);
        assert(u * u >= 0x1000_0000 * u);
        assert(v * u <= pow2(253) * u);
        assert(pow2(253) * u <= pow2(253) * w);
    }
    nearness::lemma_over(a, b);
}

/// How close a rescaled throughput is before it is cut.
proof fn lemma_rescaled_close(tps_x10: u16, from: Quant, to: Quant)
    requires
        tps_x10 > 0,
    ensures
        ({
            let y = Single::nearest(tps_x10 as nat, 1).mul_spec(
                from.bits_spec().div_spec(to.bits_spec()),
            );
            let n = tps_x10 * from.centibits();
            &&& y.positive()
            &&& nearness::close(float::worth(y) * to.centibits(), n * pow2(149), 8)
        }),
{
    let (f, t) = (from.centibits() as int, to.centibits() as int);
    let u = pow2(149) as int;
    let (a, b) = (from.bits_spec(), to.bits_spec());
    let q = a.div_spec(b);
    let k = tps_x10 as int;
    let x = Single::nearest(tps_x10 as nat, 1);
    let y = x.mul_spec(q);
    lemma_pow2_pos(149);
    lemma_ratio_close(from, to);
    float::lemma_count_positive(tps_x10 as nat);
    float::lemma_exact_integer(tps_x10 as nat);
    let (v, w, r) = (float::worth(a), float::worth(b), float::worth(q));
    assert(float::worth(x) == k * u);
    // The ratio is of ordinary size.
    assert(r * 64 >= u && r <= 64 * u) by (nonlinear_arith)
        requires
            nearness::close(r * w, v * u, 1),
            u <= v <= 32 * u,
            u <= w <= 32 * u,
            u > 0,
    {
        let z = v * u;
        assert(r * w * 0x100_0000 >= z * 0xff_ffff);
        assert(r * w * 0x100_0000 <= z * 0x100_0001);
        assert(z >= u * u);
        assert(z <= (32 * u) * u);
        if r * 64 < u {
            assert(r * w <= r * (32 * u)) by (nonlinear_arith)
                requires
                    w <= 32 * u,
                    r >= 0 || r < 0,
                    r * w >= 0,
                    w > 0,
            ;
        }
        if r > 64 * u {
            assert(r * w > (64 * u) * u) by (nonlinear_arith)
                requires
                    r > 64 * u,
                    w >= u,
                    u > 0,
            ;
        }
    }
    lemma2_to64();
    lemma_pow2_adds(30, 119);
    lemma_pow2_adds(22, 149);
    lemma_pow2_pos(119);
    lemma_pow2_strictly_increases(171, 253);
    assert(pow2(23) * u <= (k * u) * r && (k * u) * r <= pow2(253) * u) by (nonlinear_arith)
        requires
            1 <= k <= 65_535,
            r * 64 >= u,
            r <= 64 * u,
            pow2(23) == 0x80_0000,
            u == 0x4000_0000 * pow2(119),
            pow2(119) >= 1,
            pow2(171) == 0x40_0000 * u,
            pow2(171) <= pow2(253),
            u > 0,
    {
        assert(r >= 0x100_0000);
        assert((k * u) * r >= u * r);
        assert(u * r >= u * 0x80_0000);
        assert(k * r <= 65_535 * (64 * u)) by (nonlinear_arith)
            requires
                1 <= k <= 65_535,
                0 <= r <= 64 * u,
        ;
        assert((k * u) * r == (k * r) * u);
        assert((k * r) * u <= pow2(253) * u);
    }
    nearness::lemma_product(x, q);
    let m = float::worth(y);
    // m * u is close to (k * u) * r, so that m is close to k * r,
    assert((k * u) * r == (k * r) * u) by (nonlinear_arith);
    nearness::lemma_divided(m, k * r, u, 1);
    nearness::lemma_multiple(m, k * r, w, 1);
    // which goes by the ratio,
    nearness::lemma_multiple(r * w, v * u, k, 1);
    assert((k * r) * w == (r * w) * k) by (nonlinear_arith);
    assert(0 <= (v * u) * k) by (nonlinear_arith)
        requires
            u <= v,
            u > 0,
            k >= 1,
    ;
    nearness::lemma_chain(m * w, (k * r) * w, (v * u) * k, 1, 1);
    nearness::lemma_multiple(m * w, (v * u) * k, 100, 3);
    // which goes by the bits.
    nearness::lemma_multiple(v * 100, f * u, u * k, 1);
    assert(((v * u) * k) * 100 == (v * 100) * (u * k)) by (nonlinear_arith);
    assert(0 <= (f * u) * (u * k)) by (nonlinear_arith)
        requires
            f >= 0,
            u > 0,
            k >= 1,
    ;
    nearness::lemma_chain((m * w) * 100, ((v * u) * k) * 100, (f * u) * (u * k), 3, 1);
    assert(0 <= t * u && 0 <= m) by (nonlinear_arith)
        requires
            t >= 0,
            u > 0,
            m >= 0,
    ;
    nearness::lemma_turned(w * 100, t * u, 1);
    nearness::lemma_multiple(t * u, w * 100, m, 2);
    assert((w * 100) * m == (m * w) * 100) by (nonlinear_arith);
    nearness::lemma_chain((t * u) * m, (m * w) * 100, (f * u) * (u * k), 2, 5);
    assert((t * u) * m == (m * t) * u) by (nonlinear_arith);
    assert((f * u) * (u * k) == ((k * f) * u) * u) by (nonlinear_arith);
    nearness::lemma_divided(m * t, (k * f) * u, u, 8);
}

} // verus!
