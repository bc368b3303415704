//! How the logarithmic curve of the scores grows.

use vstd::arithmetic::power2::*;
use vstd::prelude::*;

use crate::catalog::{ModelData, UseCase};
use crate::fit::Fit;
use crate::float;
use crate::float::bounds;
use crate::float::Single;
use crate::score;

verus! {

/// The power of two at or below a number.
pub open spec fn exponent(x: Single) -> int {
    (x.bits as nat / 0x80_0000) % 256 - 127
}

/// Grains rounded down.
pub open spec fn down(x: int) -> int {
    x / 4096
}

/// Grains rounded up.
pub open spec fn up(x: int) -> int {
    (x + 4095) / 4096
}

/// A lower bound of the cubic from `lo` on, in grains.
pub open spec fn cubic_low(lo: int) -> int {
    let rest = 4096 - lo;
    down(2954 * (4096 - up(rest * rest))) + down(1141 * down(down(lo * lo) * lo))
}

/// An upper bound of the cubic up to `hi`, in grains.
pub open spec fn cubic_high(hi: int) -> int {
    let rest = 4096 - hi;
    up(2955 * (4096 - down(rest * rest))) + up(1142 * up(up(hi * hi) * hi))
}

/// The bounds of a product of numbers from zero to one.
proof fn lemma_factor(a: Single, l1: int, h1: int, b: Single, l2: int, h2: int)
    requires
        bounds::between(a, l1, h1),
        bounds::between(b, l2, h2),
        0 <= l1 <= h1 <= 4096,
        0 <= l2 <= h2 <= 4096,
    ensures
        bounds::between(a.mul_spec(b), down(l1 * l2), up(h1 * h2)),
        0 <= down(l1 * l2) <= up(h1 * h2) <= 4096,
        up(h1 * h2) <= h1,
{
    assert(0 <= l1 * l2 <= h1 * h2 && h1 * h2 <= 4096 * h1) by (nonlinear_arith)
        requires
            0 <= l1 <= h1 <= 4096,
            0 <= l2 <= h2 <= 4096,
    ;
    bounds::lemma_times(a, l1, h1, b, l2, h2, down(l1 * l2), up(h1 * h2));
}

/// The coefficients of the cubic.
proof fn lemma_coefficients()
    ensures
        bounds::between(score::half_log2_e(), 2954, 2955),
        bounds::between(score::fitted(), 1141, 1142),
        float::worth(score::half_log2_e()) + float::worth(score::fitted()) <= pow2(149),
        0 <= float::worth(score::half_log2_e()),
        0 <= float::worth(score::fitted()),
{
    let c1 = score::log2_e();
    let v = pow2(124);
    bounds::lemma_mantissa(0x38_aa3b, 1813, 1814);
    bounds::lemma_divided(c1, 5909, 5910, 2, 2954, 2955);
    bounds::lemma_fraction(2_786_524, 10_000_000, 1141, 1142);
    // Together they come to one.
    lemma2_to64();
    bounds::lemma_mantissa_worth(0x38_aa3b);
    bounds::lemma_half(c1, 0xb8_aa3b, 126);
    bounds::lemma_fraction_below(2_786_524, 10_000_000, 9_350_026, 124);
    lemma_pow2_unfold(125);
    lemma_pow2_adds(25, 124);
    assert(0xb8_aa3b * pow2(125) + 9_350_026 * v == pow2(149)) by (nonlinear_arith)
        requires
            pow2(125) == 2 * v,
            pow2(149) == 0x200_0000 * v,
    ;
}

/// The cubic keeps within its bounds.
proof fn lemma_cubic(m: Single, lo: int, hi: int)
    requires
        bounds::between(m, lo, hi),
        0 <= lo <= hi <= 4096,
    ensures
        bounds::between(score::cubic(m), cubic_low(lo), cubic_high(hi)),
        0 <= cubic_low(lo) <= cubic_high(hi) <= 8192,
{
    let one = Single::nearest(1, 1);
    let rest = one.sub_spec(m);
    let (l, h) = (4096 - hi, 4096 - lo);
    let (p, q) = (4096 - up(h * h), 4096 - down(l * l));
    let (s, t) = (down(down(lo * lo) * lo), up(up(hi * hi) * hi));
    let (gap, cube) = (one.sub_spec(rest.mul_spec(rest)), m.mul_spec(m).mul_spec(m));
    bounds::lemma_whole(1);
    bounds::lemma_difference(one, 4096, 4096, m, lo, hi);
    lemma_factor(rest, l, h, rest, l, h);
    bounds::lemma_difference(one, 4096, 4096, rest.mul_spec(rest), down(l * l), up(h * h));
    lemma_factor(m, lo, hi, m, lo, hi);
    lemma_factor(m.mul_spec(m), down(lo * lo), up(hi * hi), m, lo, hi);
    lemma_coefficients();
    lemma_factor(score::half_log2_e(), 2954, 2955, gap, p, q);
    lemma_factor(score::fitted(), 1141, 1142, cube, s, t);
    bounds::lemma_sum(
        score::half_log2_e().mul_spec(gap),
        down(2954 * p),
        up(2955 * q),
        score::fitted().mul_spec(cube),
        down(1141 * s),
        up(1142 * t),
    );
}

/// What the first two terms of the series rest on.
pub open spec fn gap(m: Single) -> Single {
    let one = Single::nearest(1, 1);
    let rest = one.sub_spec(m);
    one.sub_spec(rest.mul_spec(rest))
}

pub open spec fn cube(m: Single) -> Single {
    m.mul_spec(m).mul_spec(m)
}

proof fn lemma_gap(m: Single, n: Single)
    requires
        bounds::unit(m),
        bounds::unit(n),
        m.rank() <= n.rank(),
    ensures
        bounds::unit(gap(m)),
        bounds::unit(gap(n)),
        gap(m).rank() <= gap(n).rank(),
{
    let one = Single::nearest(1, 1);
    let (r, s) = (one.sub_spec(m), one.sub_spec(n));
    bounds::lemma_rest(m);
    bounds::lemma_rest(n);
    bounds::lemma_unit_product(r, r);
    bounds::lemma_unit_product(s, s);
    bounds::lemma_rest(r.mul_spec(r));
    bounds::lemma_rest(s.mul_spec(s));
    float::lemma_exact_integer(1);
    // What is left of one falls, and so does its square.
    bounds::lemma_difference_falls(one, m, n);
    float::lemma_worth_monotone(s, r);
    bounds::lemma_product_rises(s, s, r, r);
    bounds::lemma_difference_falls(one, s.mul_spec(s), r.mul_spec(r));
}

proof fn lemma_cube(m: Single, n: Single)
    requires
        bounds::unit(m),
        bounds::unit(n),
        m.rank() <= n.rank(),
    ensures
        bounds::unit(cube(m)),
        bounds::unit(cube(n)),
        cube(m).rank() <= cube(n).rank(),
{
    let (p, q) = (m.mul_spec(m), n.mul_spec(n));
    bounds::lemma_unit_product(m, m);
    bounds::lemma_unit_product(n, n);
    bounds::lemma_unit_product(p, m);
    bounds::lemma_unit_product(q, n);
    float::lemma_worth_monotone(m, n);
    bounds::lemma_product_rises(m, m, n, n);
    float::lemma_worth_monotone(p, q);
    bounds::lemma_product_rises(p, m, q, n);
}

/// The cubic rises, between zero and one.
proof fn lemma_cubic_rises(m: Single, n: Single)
    requires
        bounds::unit(m),
        bounds::unit(n),
        m.rank() <= n.rank(),
    ensures
        bounds::unit(score::cubic(m)),
        bounds::unit(score::cubic(n)),
        score::cubic(m).rank() <= score::cubic(n).rank(),
{
    let (c2, c3) = (score::half_log2_e(), score::fitted());
    lemma_coefficients();
    lemma_gap(m, n);
    lemma_cube(m, n);
    bounds::lemma_part(c2, gap(m));
    bounds::lemma_part(c2, gap(n));
    bounds::lemma_part(c3, cube(m));
    bounds::lemma_part(c3, cube(n));
    let (p, q) = (c2.mul_spec(gap(m)), c2.mul_spec(gap(n)));
    let (r, s) = (c3.mul_spec(cube(m)), c3.mul_spec(cube(n)));
    bounds::lemma_sum_upto_one(p, r);
    bounds::lemma_sum_upto_one(q, s);
    float::lemma_worth_monotone(gap(m), gap(n));
    float::lemma_worth_monotone(cube(m), cube(n));
    bounds::lemma_product_rises(c2, gap(m), c2, gap(n));
    bounds::lemma_product_rises(c3, cube(m), c3, cube(n));
    bounds::lemma_sum_rises(p, r, q, s);
}

/// The fraction of a number.
pub open spec fn fraction(x: Single) -> Single {
    Single { bits: (x.bits % 0x80_0000 + 0x3f80_0000) as u32 }.sub_spec(Single::nearest(1, 1))
}

proof fn lemma_fraction(x: Single, lo: int, hi: int)
    requires
        2048 * lo <= x.bits % 0x80_0000 <= 2048 * hi,
        0 <= lo <= hi <= 4096,
    ensures
        bounds::between(fraction(x), lo, hi),
{
    let mantissa = Single { bits: (x.bits % 0x80_0000 + 0x3f80_0000) as u32 };
    bounds::lemma_mantissa((x.bits % 0x80_0000) as nat, lo, hi);
    bounds::lemma_whole(1);
    bounds::lemma_difference(mantissa, 4096 + lo, 4096 + hi, Single::nearest(1, 1), 4096, 4096);
}

/// The curve keeps within the bounds of the cubic above the exponent.
pub(crate) proof fn lemma_log2(x: Single, lo: int, hi: int)
    requires
        x.positive(),
        2048 * lo <= x.bits % 0x80_0000 <= 2048 * hi,
        0 <= lo <= hi <= 4096,
    ensures
        bounds::between(
            score::log2_spec(x),
            4096 * exponent(x) + cubic_low(lo),
            4096 * exponent(x) + cubic_high(hi),
        ),
        0 <= cubic_low(lo),
        -127 <= exponent(x) <= 128,
{
    let e = exponent(x);
    float::lemma_zero_rank();
    lemma_fraction(x, lo, hi);
    lemma_cubic(fraction(x), lo, hi);
    bounds::lemma_whole(e);
    bounds::lemma_sum(
        Single::integer(e),
        4096 * e,
        4096 * e,
        score::cubic(fraction(x)),
        cubic_low(lo),
        cubic_high(hi),
    );
}

/// The curve lies between the exponent and the next.
pub(crate) proof fn lemma_curve_finite(x: Single)
    requires
        x.positive(),
    ensures
        bounds::between(score::log2_spec(x), -531_000, 531_000),
        bounds::between(score::log2_spec(x), 4096 * exponent(x), 4096 * exponent(x) + 4096),
        -127 <= exponent(x) <= 128,
{
    let e = exponent(x);
    float::lemma_zero_rank();
    lemma_fraction(x, 0, 4096);
    bounds::lemma_unit(fraction(x));
    lemma_cubic_rises(fraction(x), fraction(x));
    bounds::lemma_unit(score::cubic(fraction(x)));
    bounds::lemma_whole(e);
    bounds::lemma_sum(Single::integer(e), 4096 * e, 4096 * e, score::cubic(fraction(x)), 0, 4096);
    bounds::lemma_widen(
        score::log2_spec(x),
        4096 * e,
        4096 * e + 4096,
        -531_000,
        531_000,
    );
}

/// The curve rises.
pub(crate) proof fn lemma_curve_rises(x: Single, y: Single)
    requires
        x.positive(),
        y.positive(),
        x.rank() <= y.rank(),
    ensures
        score::log2_spec(x).rank() <= score::log2_spec(y).rank(),
{
    let (d, e) = (exponent(x), exponent(y));
    float::lemma_zero_rank();
    lemma_curve_finite(x);
    lemma_curve_finite(y);
    assert(d <= e);
    if d < e {
        bounds::lemma_apart(
            score::log2_spec(x),
            4096 * d,
            4096 * d + 4096,
            score::log2_spec(y),
            4096 * e,
            4096 * e + 4096,
        );
    } else {
        let one = Single::nearest(1, 1);
        let (p, q) = (x.bits % 0x80_0000, y.bits % 0x80_0000);
        assert(p <= q);
        let (a, b) = (
            Single { bits: (p + 0x3f80_0000) as u32 },
            Single { bits: (q + 0x3f80_0000) as u32 },
        );
        bounds::lemma_whole(1);
        bounds::lemma_whole(-1);
        bounds::lemma_whole(e);
        bounds::lemma_mantissa(p as nat, 0, 4096);
        bounds::lemma_mantissa(q as nat, 0, 4096);
        float::lemma_plus_monotone(a, b, one.negated());
        lemma_fraction(x, 0, 4096);
        lemma_fraction(y, 0, 4096);
        bounds::lemma_unit(fraction(x));
        bounds::lemma_unit(fraction(y));
        lemma_cubic_rises(fraction(x), fraction(y));
        let (c, f) = (score::cubic(fraction(x)), score::cubic(fraction(y)));
        float::lemma_plus_monotone(c, f, Single::integer(e));
        bounds::lemma_plus_commutes(c, Single::integer(e));
        bounds::lemma_plus_commutes(f, Single::integer(e));
    }
}

/// A number of millions in thousands of them, as the curve takes it.
pub open spec fn size(n: nat) -> Single {
    Single::nearest(n, 1).div_spec(Single::nearest(1000, 1)).max_spec(Single::nearest(5, 100))
}

/// Sizes keep their order, and are above zero.
proof fn lemma_sizes(m: nat, n: nat)
    requires
        m <= n < 0x1_0000_0000,
    ensures
        size(m).positive(),
        size(n).positive(),
        size(m).rank() <= size(n).rank(),
{
    let thousand = Single::nearest(1000, 1);
    float::lemma_count_positive(1000);
    float::lemma_nearest_monotone(m, 1, n, 1);
    float::lemma_over_monotone(Single::nearest(m, 1), Single::nearest(n, 1), thousand);
    bounds::lemma_size_finite(m, 1000);
    bounds::lemma_size_finite(n, 1000);
    bounds::lemma_small_positive(5, 100);
}

/// What a model is capable of before quantization takes its share.
pub open spec fn capability(log: Single, prior: u8, bonus: int) -> Single {
    Single::nearest(35, 1).add_spec(Single::nearest(93, 10).mul_spec(log)).add_spec(
        score::prior_spec(prior),
    ).add_spec(Single::integer(bonus))
}

/// The reputation in grains.
proof fn lemma_prior(prior: u8)
    ensures
        bounds::between(score::prior_spec(prior), -61_440, 61_440),
{
    score::law_reputation_moves_little(prior);
    bounds::lemma_whole(-15);
    bounds::lemma_whole(15);
    bounds::lemma_ranked(
        Single::integer(-15),
        -61_440,
        -61_440,
        score::prior_spec(prior),
        Single::integer(15),
        61_440,
        61_440,
    );
}

/// The slope of the curve in grains.
proof fn lemma_slope(log: Single)
    requires
        bounds::between(log, -531_000, 531_000),
    ensures
        Single::nearest(93, 10).positive(),
        bounds::between(Single::nearest(93, 10).mul_spec(log), -5_000_000, 5_000_000),
{
    let slope = Single::nearest(93, 10);
    bounds::lemma_small_positive(93, 10);
    bounds::lemma_fraction(93, 10, 0, 38_093);
    bounds::lemma_scaled(log, 531_000, slope, 38_093, 5_000_000);
    float::lemma_times_commutes(log, slope);
}

proof fn lemma_capability_finite(log: Single, prior: u8, bonus: int)
    requires
        bounds::between(log, -531_000, 531_000),
        -100 < bonus < 100,
    ensures
        bounds::between(capability(log, prior, bonus), -6_000_000, 6_000_000),
        ({
            let base = Single::nearest(35, 1).add_spec(Single::nearest(93, 10).mul_spec(log));
            &&& base.value() is Finite
            &&& base.add_spec(score::prior_spec(prior)).value() is Finite
        }),
{
    let rise = Single::nearest(93, 10).mul_spec(log);
    let base = Single::nearest(35, 1).add_spec(rise);
    lemma_slope(log);
    lemma_prior(prior);
    bounds::lemma_whole(35);
    bounds::lemma_whole(bonus);
    bounds::lemma_sum(Single::nearest(35, 1), 143_360, 143_360, rise, -5_000_000, 5_000_000);
    bounds::lemma_sum(base, -4_856_640, 5_143_360, score::prior_spec(prior), -61_440, 61_440);
    bounds::lemma_sum(
        base.add_spec(score::prior_spec(prior)),
        -4_918_080,
        5_204_800,
        Single::integer(bonus),
        4096 * bonus,
        4096 * bonus,
    );
    bounds::lemma_widen(
        capability(log, prior, bonus),
        -4_918_080 + 4096 * bonus,
        5_204_800 + 4096 * bonus,
        -6_000_000,
        6_000_000,
    );
}

/// The higher on the curve, the more capable.
proof fn lemma_capability_grows(x: Single, y: Single, prior: u8, bonus: int)
    requires
        bounds::between(x, -531_000, 531_000),
        bounds::between(y, -531_000, 531_000),
        x.rank() <= y.rank(),
        -100 < bonus < 100,
    ensures
        capability(x, prior, bonus).rank() <= capability(y, prior, bonus).rank(),
{
    let (slope, start) = (Single::nearest(93, 10), Single::nearest(35, 1));
    let (p, q) = (slope.mul_spec(x), slope.mul_spec(y));
    lemma_capability_finite(x, prior, bonus);
    lemma_capability_finite(y, prior, bonus);
    lemma_slope(x);
    lemma_slope(y);
    lemma_prior(prior);
    bounds::lemma_whole(35);
    bounds::lemma_whole(bonus);
    float::lemma_scaled_monotone(x, y, slope);
    float::lemma_times_commutes(x, slope);
    float::lemma_times_commutes(y, slope);
    float::lemma_plus_monotone(p, q, start);
    bounds::lemma_plus_commutes(p, start);
    bounds::lemma_plus_commutes(q, start);
    let (v, w) = (start.add_spec(p), start.add_spec(q));
    float::lemma_plus_monotone(v, w, score::prior_spec(prior));
    float::lemma_plus_monotone(
        v.add_spec(score::prior_spec(prior)),
        w.add_spec(score::prior_spec(prior)),
        Single::integer(bonus),
    );
}

/// A model with more parameters than another, alike in the rest, never scores
/// lower on quality.
pub proof fn law_larger_models_score_no_lower(
    a: ModelData,
    b: ModelData,
    fit: Fit,
    requested: UseCase,
)
    requires
        a.params_m() <= b.params_m(),
        a.quality_prior() == b.quality_prior(),
        a.use_case() == b.use_case(),
    ensures
        score::quality_spec(a, fit, requested) <= score::quality_spec(b, fit, requested),
{
    let (m, n) = (a.params_m() as nat, b.params_m() as nat);
    let (x, y) = (score::log2_spec(size(m)), score::log2_spec(size(n)));
    lemma_sizes(m, n);
    lemma_curve_rises(size(m), size(n));
    lemma_curve_finite(size(m));
    lemma_curve_finite(size(n));
    let bonus = score::alignment_spec(a.use_case(), requested);
    lemma_capability_grows(x, y, a.quality_prior(), bonus);
    lemma_capability_finite(x, a.quality_prior(), bonus);
    lemma_capability_finite(y, a.quality_prior(), bonus);
    let (p, q) = (
        capability(x, a.quality_prior(), bonus),
        capability(y, a.quality_prior(), bonus),
    );
    let factor = fit.quant.quality_spec();
    bounds::lemma_small_positive(fit.quant.quality_permille(), 1000);
    float::lemma_scaled_monotone(p, q, factor);
    score::lemma_clamp_monotone(p.mul_spec(factor), q.mul_spec(factor));
}

/// A throughput that the use case is content with scores above eighty-five.
pub(crate) proof fn lemma_target_reached(decode_tps_x10: u32, use_case: UseCase)
    requires
        Single::nearest(1, 1).upto(score::speed_ratio(decode_tps_x10, use_case)),
    ensures
        bounds::between(
            score::past_target(score::speed_ratio(decode_tps_x10, use_case)),
            378_880,
            409_600,
        ),
        ({
            let one = Single::nearest(1, 1);
            let more = score::speed_ratio(decode_tps_x10, use_case).add_spec(one);
            Single::nearest(15, 1).mul_spec(
                one.sub_spec(one.div_spec(one.add_spec(score::log2_spec(more)))),
            ).value() is Finite
        }),
{
    let one = Single::nearest(1, 1);
    let more = score::speed_ratio(decode_tps_x10, use_case).add_spec(one);
    let log = score::log2_spec(more);
    let (target, n) = (score::speed_target_spec(use_case), decode_tps_x10 as nat);
    bounds::lemma_whole(1);
    bounds::lemma_whole(15);
    bounds::lemma_whole(85);
    bounds::lemma_one_more(n, 10, target);
    lemma_curve_finite(more);
    let e = exponent(more);
    assert(e >= 1);
    bounds::lemma_sum(one, 4096, 4096, log, 4096 * e, 4096 * e + 4096);
    let whole = one.add_spec(log);
    bounds::lemma_reciprocal(whole, 4096 + 4096 * e, 8192 + 4096 * e);
    let part = one.div_spec(whole);
    bounds::lemma_difference(one, 4096, 4096, part, 0, 2048);
    let gain = one.sub_spec(part);
    let fifteen = Single::nearest(15, 1);
    bounds::lemma_times(fifteen, 61_440, 61_440, gain, 2048, 4096, 30_720, 61_440);
    bounds::lemma_sum(
        Single::nearest(85, 1),
        348_160,
        348_160,
        fifteen.mul_spec(gain),
        30_720,
        61_440,
    );
}

/// What is gained past the target rises with the curve.
proof fn lemma_gain_rises(k: Single, l: Single)
    requires
        bounds::between(k, 4096, 531_000),
        bounds::between(l, 4096, 531_000),
        k.rank() <= l.rank(),
    ensures
        ({
            let one = Single::nearest(1, 1);
            let (g, h) = (
                one.sub_spec(one.div_spec(one.add_spec(k))),
                one.sub_spec(one.div_spec(one.add_spec(l))),
            );
            &&& g.value() is Finite
            &&& h.value() is Finite
            &&& g.rank() <= h.rank()
        }),
{
    let one = Single::nearest(1, 1);
    let (v, w) = (one.add_spec(k), one.add_spec(l));
    bounds::lemma_whole(1);
    bounds::lemma_sum(one, 4096, 4096, k, 4096, 531_000);
    bounds::lemma_sum(one, 4096, 4096, l, 4096, 531_000);
    float::lemma_plus_monotone(k, l, one);
    bounds::lemma_plus_commutes(k, one);
    bounds::lemma_plus_commutes(l, one);
    float::lemma_worth_monotone(v, w);
    bounds::lemma_above_zero(v, 8192, 535_096);
    bounds::lemma_reciprocal(v, 8192, 535_096);
    bounds::lemma_reciprocal(w, 8192, 535_096);
    bounds::lemma_reciprocal_falls(v, w);
    let (r, s) = (one.div_spec(v), one.div_spec(w));
    bounds::lemma_difference(one, 4096, 4096, r, 0, 2048);
    bounds::lemma_difference(one, 4096, 4096, s, 0, 2048);
    bounds::lemma_difference_falls(one, s, r);
}

/// Past the target, a higher throughput is worth no less.
pub(crate) proof fn lemma_past_target(a: u32, b: u32, use_case: UseCase)
    requires
        Single::nearest(1, 1).upto(score::speed_ratio(a, use_case)),
        score::speed_ratio(a, use_case).upto(score::speed_ratio(b, use_case)),
    ensures
        score::past_target(score::speed_ratio(a, use_case)).upto(
            score::past_target(score::speed_ratio(b, use_case)),
        ),
{
    let one = Single::nearest(1, 1);
    let (p, q) = (score::speed_ratio(a, use_case), score::speed_ratio(b, use_case));
    let (x, y) = (p.add_spec(one), q.add_spec(one));
    let (k, l) = (score::log2_spec(x), score::log2_spec(y));
    let target = score::speed_target_spec(use_case);
    bounds::lemma_one_more(a as nat, 10, target);
    bounds::lemma_one_more(b as nat, 10, target);
    float::lemma_exact_integer(1);
    float::lemma_plus_monotone(p, q, one);
    lemma_curve_rises(x, y);
    lemma_curve_finite(x);
    lemma_curve_finite(y);
    let (d, e) = (exponent(x), exponent(y));
    bounds::lemma_widen(k, 4096 * d, 4096 * d + 4096, 4096, 531_000);
    bounds::lemma_widen(l, 4096 * e, 4096 * e + 4096, 4096, 531_000);
    lemma_gain_rises(k, l);
    let (g, h) = (
        one.sub_spec(one.div_spec(one.add_spec(k))),
        one.sub_spec(one.div_spec(one.add_spec(l))),
    );
    let (fifteen, best) = (Single::nearest(15, 1), Single::nearest(85, 1));
    float::lemma_count_positive(15);
    float::lemma_scaled_monotone(g, h, fifteen);
    float::lemma_times_commutes(g, fifteen);
    float::lemma_times_commutes(h, fifteen);
    let (i, j) = (fifteen.mul_spec(g), fifteen.mul_spec(h));
    lemma_target_reached(a, use_case);
    lemma_target_reached(b, use_case);
    float::lemma_exact_integer(85);
    float::lemma_plus_monotone(i, j, best);
    bounds::lemma_plus_commutes(i, best);
    bounds::lemma_plus_commutes(j, best);
}

} // verus!
