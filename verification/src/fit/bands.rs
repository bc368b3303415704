//! The verdict bands as percentages.

use vstd::arithmetic::power2::*;
use vstd::prelude::*;

use crate::fit;
use crate::fit::Verdict;
use crate::float;
use crate::float::bounds;
use crate::float::nearness;
use crate::float::Single;

verus! {

/// The verdict of a pool by the percentage that is taken.
pub open spec fn percentage_band(resident: u32, pool: u32) -> Verdict {
    if 100 * resident <= 60 * pool {
        Verdict::Perfect
    } else if 100 * resident <= 85 * pool {
        Verdict::Good
    } else if 100 * resident <= 98 * pool {
        Verdict::Marginal
    } else {
        Verdict::TooTight
    }
}

/// The middle between a limit as it is held and the next number, in parts of
/// `2^25`: what is beyond the limit rounds to it up to here.
pub open spec fn middle(percent: int) -> int {
    if percent == 60 {
        20_132_661
    } else if percent == 85 {
        28_521_269
    } else {
        32_883_345
    }
}

/// Whether what is taken of a pool stands clear of a limit. Of a pool below
/// 16 TiB that is all but what is beyond the limit and rounds to it; of a larger
/// one, what is further from the limit than one part in `2^21` of it.
pub open spec fn clear(resident: u32, pool: u32, percent: int) -> bool {
    let (taken, limit) = (100 * resident, percent * pool);
    ||| pool < 0x100_0000 && taken <= limit
    ||| pool < 0x100_0000 && resident * 0x200_0000 > middle(percent) * pool
    ||| (taken - limit) * 0x20_0000 > limit
    ||| (limit - taken) * 0x20_0000 > limit
}

/// The percentages that part the bands.
spec fn is_limit(percent: nat) -> bool {
    percent == 60 || percent == 85 || percent == 98
}

/// Of a pool of up to 409,200 MiB, what is beyond a limit is beyond the middle.
proof fn lemma_small_pool(resident: u32, pool: u32, percent: nat)
    requires
        is_limit(percent),
        pool <= 409_200,
    ensures
        clear(resident, pool, percent as int),
{
    let l = percent * pool;
    let m = middle(percent as int) * pool;
    assert(l == if percent == 60 {
        60 * pool
    } else if percent == 85 {
        85 * pool
    } else {
        98 * pool
    });
    assert(m == if percent == 60 {
        20_132_661 * pool
    } else if percent == 85 {
        28_521_269 * pool
    } else {
        32_883_345 * pool
    });
    if 100 * resident > l {
        // Both sides are multiples of a step, so that is how far apart they are.
        let step: int = if percent == 60 {
            20
        } else if percent == 85 {
            5
        } else {
            2
        };
        assert(100 * resident >= l + step);
    }
}

/// What is beyond the middle is beyond the limit.
proof fn lemma_beyond_middle(n: nat, pool: nat, percent: nat)
    requires
        is_limit(percent),
        pool > 0,
        n * 0x200_0000 > middle(percent as int) * pool,
    ensures
        100 * n > percent * pool,
        !Single::nearest(n, pool).upto(Single::nearest(percent, 100)),
{
    lemma2_to64();
    assert(percent * pool == if percent == 60 {
        60 * pool
    } else if percent == 85 {
        85 * pool
    } else {
        98 * pool
    });
    assert(middle(percent as int) * pool == if percent == 60 {
        20_132_661 * pool
    } else if percent == 85 {
        28_521_269 * pool
    } else {
        32_883_345 * pool
    });
    let k = ((middle(percent as int) - 1) / 2) as nat;
    assert((2 * k + 1) * pool == middle(percent as int) * pool);
    bounds::lemma_fraction_upto(percent, 100, k, 125);
    bounds::lemma_fraction_beyond(n, pool, k, 125);
}

/// What is taken of a pool, whatever their sizes, is close to the exact share.
proof fn lemma_share_close(resident: nat, pool: nat)
    requires
        0 < resident < 0x1_0000_0000,
        0 < pool < 0x1_0000_0000,
    ensures
        ({
            let q = Single::nearest(resident, 1).div_spec(Single::nearest(pool, 1));
            &&& q.positive()
            &&& nearness::close(float::worth(q) * pool, (resident * pow2(149)) as int, 6)
        }),
{
    let (a, b) = (Single::nearest(resident, 1), Single::nearest(pool, 1));
    let q = a.div_spec(b);
    let u = pow2(149) as int;
    let (n, d) = (resident as int, pool as int);
    nearness::lemma_count(resident);
    nearness::lemma_count(pool);
    lemma2_to64();
    lemma_pow2_pos(149);
    let (v, w) = (float::worth(a), float::worth(b));
    lemma_spread(v, n, u);
    lemma_spread(w, d, u);
    lemma_pow2_adds(58, 91);
    lemma_pow2_pos(91);
    lemma_pow2_adds(34, 149);
    lemma_pow2_strictly_increases(183, 253);
    lemma2_to64_rest();
    assert(pow2(23) * w <= v * u && v * u <= pow2(253) * w) by (nonlinear_arith)
        requires
            u <= 2 * v <= 0x4_0000_0000 * u,
            u <= 2 * w <= 0x4_0000_0000 * u,
            pow2(23) == 0x80_0000,
            u == 0x400_0000_0000_0000 * pow2(91),
            pow2(91) > 0,
            0x4_0000_0000 * u <= pow2(253),
            u > 0,
    {
        assert(2 * (pow2(23) * w) <= 0x80_0000 * (0x4_0000_0000 * u));
        assert(2 * (v * u) >= u * u);
        assert(u * u >= 0x400_0000_0000_0000 * u);
        assert(2 * (v * u) <= (0x4_0000_0000 * u) * u);
        assert((0x4_0000_0000 * u) * u <= pow2(253) * u);
        assert(pow2(253) * u <= pow2(253) * (2 * w));
    }
    nearness::lemma_over(a, b);
    let m = float::worth(q);
    nearness::lemma_multiple(v, n * u, u, 1);
    assert((n * u) * u >= 0 && m >= 0 && d * u >= 0) by (nonlinear_arith)
        requires
            n >= 0,
            d >= 0,
            u > 0,
            m >= 0,
    ;
    nearness::lemma_chain(m * w, v * u, (n * u) * u, 1, 1);
    nearness::lemma_turned(w, d * u, 1);
    nearness::lemma_multiple(d * u, w, m, 2);
    assert(w * m == m * w) by (nonlinear_arith);
    nearness::lemma_chain((d * u) * m, m * w, (n * u) * u, 2, 3);
    assert((d * u) * m == (m * d) * u) by (nonlinear_arith);
    nearness::lemma_divided(m * d, n * u, u, 6);
}

/// The value of a rounded count lies between half of the count and twice of it.
proof fn lemma_spread(v: int, n: int, u: int)
    requires
        nearness::close(v, n * u, 1),
        1 <= n < 0x1_0000_0000,
        u > 0,
    ensures
        u <= 2 * v <= 0x4_0000_0000 * u,
{
    let x = n * u;
    assert(u <= x <= 0x1_0000_0000 * u) by (nonlinear_arith)
        requires
            x == n * u,
            1 <= n < 0x1_0000_0000,
            u > 0,
    ;
}

/// What is close to one side of a limit stands on that side.
proof fn lemma_apart(q: int, pool: int, n: int, y: int, percent: int, u: int)
    requires
        nearness::close(q * pool, n * u, 6),
        nearness::close(y * 100, percent * u, 1),
        pool > 0,
        u > 0,
        n >= 0,
        percent > 0,
    ensures
        (100 * n - percent * pool) * 0x20_0000 > percent * pool ==> q > y,
        (percent * pool - 100 * n) * 0x20_0000 > percent * pool ==> q < y,
{
    let (k, l) = (100 * n, percent * pool);
    let (left, right) = (q * (100 * pool), y * (100 * pool));
    let (ku, lu) = (k * u, l * u);
    assert(0 < l) by (nonlinear_arith)
        requires
            l == percent * pool,
            percent > 0,
            pool > 0,
    ;
    assert((q * pool) * 100 == left && (n * u) * 100 == ku && (y * 100) * pool == right && (percent
        * u) * pool == lu) by (nonlinear_arith)
        requires
            left == q * (100 * pool),
            right == y * (100 * pool),
            ku == (100 * n) * u,
            lu == (percent * pool) * u,
    ;
    nearness::lemma_multiple(q * pool, n * u, 100, 6);
    nearness::lemma_multiple(y * 100, percent * u, pool, 1);
    if (k - l) * 0x20_0000 > l {
        assert(0xff_fffa * k > 0x100_0001 * l);
        assert(0xff_fffa * ku > 0x100_0001 * lu) by (nonlinear_arith)
            requires
                0xff_fffa * k > 0x100_0001 * l,
                ku == k * u,
                lu == l * u,
                u > 0,
        ;
        assert(left > right);
        assert(q > y) by (nonlinear_arith)
            requires
                q * (100 * pool) > y * (100 * pool),
                pool > 0,
        ;
    }
    if (l - k) * 0x20_0000 > l {
        assert(0x100_0006 * k < 0xff_ffff * l);
        assert(0x100_0006 * ku < 0xff_ffff * lu) by (nonlinear_arith)
            requires
                0x100_0006 * k < 0xff_ffff * l,
                ku == k * u,
                lu == l * u,
                u > 0,
        ;
        assert(left < right);
        assert(q < y) by (nonlinear_arith)
            requires
                q * (100 * pool) < y * (100 * pool),
                pool > 0,
        ;
    }
}

/// What stands further from a limit than a hair stands on the right side of it.
proof fn lemma_far(resident: u32, pool: u32, percent: nat)
    requires
        resident > 0,
        pool > 0,
        0 < percent < 100,
        (100 * resident - percent * pool) * 0x20_0000 > percent * pool || (percent * pool - 100
            * resident) * 0x20_0000 > percent * pool,
    ensures
        fit::ratio_spec(resident, pool).nonneg(),
        fit::ratio_spec(resident, pool).upto(Single::nearest(percent, 100)) <==> 100 * resident
            <= percent * pool,
{
    let (q, y) = (fit::ratio_spec(resident, pool), Single::nearest(percent, 100));
    let u = pow2(149) as int;
    lemma_pow2_pos(149);
    lemma_share_close(resident as nat, pool as nat);
    nearness::lemma_quotient(percent, 100);
    lemma_apart(
        float::worth(q),
        pool as int,
        resident as int,
        float::worth(y),
        percent as int,
        u,
    );
    assert(percent * pool >= 0) by (nonlinear_arith);
    if 100 * resident <= percent * pool {
        bounds::lemma_rank_of_worth(q, y);
    } else if q.rank() <= y.rank() {
        float::lemma_worth_monotone(q, y);
    }
}

/// What is clear of a limit stands on the right side of it.
proof fn lemma_percentage(resident: u32, pool: u32, percent: nat)
    requires
        is_limit(percent),
        pool > 0,
        clear(resident, pool, percent as int),
    ensures
        fit::ratio_spec(resident, pool).upto(Single::nearest(percent, 100)) <==> 100 * resident
            <= percent * pool,
{
    let (n, d) = (resident as nat, pool as nat);
    let l = percent * pool;
    assert(60 * d <= l <= 98 * d) by (nonlinear_arith)
        requires
            60 <= percent <= 98,
            l == percent * d,
    ;
    if pool < 0x100_0000 && 100 * n <= l {
        float::lemma_count_ratio(n, d);
        float::lemma_nearest_monotone(n, d, percent, 100);
    } else if pool < 0x100_0000 && resident < 0x100_0000 && n * 0x200_0000 > middle(percent as int)
        * pool {
        float::lemma_count_ratio(n, d);
        lemma_beyond_middle(n, d, percent);
    } else if resident == 0 {
        // No more than the smallest share there is.
        lemma_far(1, pool, percent);
        let (a, b) = (Single::nearest(0, 1), Single::nearest(1, 1));
        float::lemma_nearest_monotone(0, 1, 1, 1);
        nearness::lemma_count(d);
        float::lemma_over_monotone(a, b, Single::nearest(d, 1));
    } else {
        lemma_far(resident, pool, percent);
    }
}

/// The bands are the percentages: at most 60 is perfect, at most 85 good, at
/// most 98 marginal, and beyond that it is too tight. This is exact for every
/// pool of up to 409,200 MiB, and for a larger one wherever what is taken is not
/// within a hair of a limit.
pub proof fn law_bands_are_percentages(resident: u32, pool: u32)
    requires
        pool > 0,
        pool <= 409_200 || (clear(resident, pool, 60) && clear(resident, pool, 85) && clear(
            resident,
            pool,
            98,
        )),
    ensures
        fit::band_spec(fit::ratio_spec(resident, pool)) == percentage_band(resident, pool),
{
    if pool <= 409_200 {
        lemma_small_pool(resident, pool, 60);
        lemma_small_pool(resident, pool, 85);
        lemma_small_pool(resident, pool, 98);
    }
    lemma_percentage(resident, pool, 60);
    lemma_percentage(resident, pool, 85);
    lemma_percentage(resident, pool, 98);
}

} // verus!
