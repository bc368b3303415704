//! Four scores and the composite rank.
//!
//! Each dimension runs from 0 to 100 and answers one question. They stay apart
//! all the way to the output: a model can rank well because it is fast and
//! small, which is not the same as ranking well because it is capable.

use core::cmp::Ordering;

use vstd::prelude::*;

use crate::catalog::{Model, ModelData, UseCase};
use crate::fit::{Fit, Verdict};
use crate::float;
use crate::float::bounds;
use crate::float::Single;
use crate::speed::Speed;

pub mod curve;
pub mod logarithm;
pub mod marks;
pub mod weighing;

verus! {

/// The four dimensions, each from 0 to 100, and the composite.
#[derive(Clone, Copy, PartialEq, Eq, Structural, Debug)]
pub struct Scores {
    /// Capability: parameters, curated prior and the cost of quantization.
    pub quality: u8,
    /// Decode throughput against what the use case needs.
    pub speed: u8,
    /// Memory headroom, best between half and four fifths of the pool.
    pub fit: u8,
    /// Usable context against what the use case needs.
    pub context: u8,
    /// Weighted composite, from 0 to 10000.
    pub composite: u16,
}

impl Default for Scores {
    fn default() -> (r: Scores)
        ensures
            r == (Scores { quality: 0, speed: 0, fit: 0, context: 0, composite: 0 }),
    {
        Scores { quality: 0, speed: 0, fit: 0, context: 0, composite: 0 }
    }
}

// --- what the scores are ----------------------------------------------------

/// Weights of quality, speed, fit and context, in hundredths. Reasoning leans
/// on quality, chat on speed, and coding on context, because a model that
/// cannot hold the file is not in the running.
pub open spec fn weights_percent(use_case: UseCase) -> (nat, nat, nat, nat) {
    match use_case {
        UseCase::General => (40, 25, 20, 15),
        UseCase::Coding => (35, 20, 15, 30),
        UseCase::Reasoning => (55, 15, 15, 15),
        UseCase::Chat => (30, 35, 20, 15),
        UseCase::Multimodal => (45, 20, 20, 15),
        UseCase::Embedding => (35, 40, 20, 5),
    }
}

/// The context below which a use case is constrained.
pub open spec fn context_target_spec(use_case: UseCase) -> nat {
    match use_case {
        UseCase::Coding => 32_768,
        UseCase::Reasoning => 16_384,
        UseCase::General => 8_192,
        UseCase::Chat => 8_192,
        UseCase::Multimodal => 8_192,
        UseCase::Embedding => 512,
    }
}

/// The tokens per second at which a use case stops feeling slow.
pub open spec fn speed_target_spec(use_case: UseCase) -> nat {
    match use_case {
        UseCase::Chat => 30,
        UseCase::General => 20,
        UseCase::Coding => 20,
        UseCase::Multimodal => 15,
        UseCase::Reasoning => 10,
        UseCase::Embedding => 100,
    }
}

/// A number as a score.
pub open spec fn clamp_spec(v: Single) -> u8 {
    if v.upto(Single::nearest(0, 1)) {
        0
    } else if Single::nearest(100, 1).upto(v) {
        100
    } else {
        v.whole(u8::MAX as nat) as u8
    }
}

/// `log2(e)`.
pub open spec fn log2_e() -> Single {
    Single { bits: 0x3fb8_aa3b }
}

/// The base-2 logarithm to within a tenth: the exponent, and a cubic in the
/// fraction.
pub open spec fn log2_spec(x: Single) -> Single {
    if x.upto(Single::nearest(0, 1)) {
        Single::integer(-20)
    } else {
        let exponent = (x.bits as nat / 0x80_0000) % 256 - 127;
        let mantissa = Single { bits: (x.bits % 0x80_0000 + 0x3f80_0000) as u32 };
        Single::integer(exponent).add_spec(cubic(mantissa.sub_spec(Single::nearest(1, 1))))
    }
}

/// The cubic that stands for the logarithm of `1 + m`: the first two terms of
/// its series, `m / ln 2 - m^2 / (2 ln 2)`, and a third that is fitted to meet
/// the next power of two.
///
/// The two first are taken together, as `(1 - (1 - m)^2) / (2 ln 2)`. Both
/// summands rise with `m`, so that rounding cannot make the curve fall.
pub open spec fn cubic(m: Single) -> Single {
    let one = Single::nearest(1, 1);
    let rest = one.sub_spec(m);
    half_log2_e().mul_spec(one.sub_spec(rest.mul_spec(rest))).add_spec(
        fitted().mul_spec(m.mul_spec(m).mul_spec(m)),
    )
}

/// `1 / (2 ln 2)`.
pub open spec fn half_log2_e() -> Single {
    log2_e().div_spec(Single::nearest(2, 1))
}

/// The coefficient of the third term.
pub open spec fn fitted() -> Single {
    Single::nearest(2_786_524, 10_000_000)
}

/// What a model's own specialisation is worth for the job asked of it.
pub open spec fn alignment_spec(own: UseCase, requested: UseCase) -> int {
    let text = requested == UseCase::General || requested == UseCase::Coding || requested
        == UseCase::Reasoning || requested == UseCase::Chat;
    if own == requested {
        8
    } else if own == UseCase::Embedding && text {
        -25
    } else if own == UseCase::Multimodal && text {
        -10
    } else {
        0
    }
}

/// What the reputation of a model is worth.
pub open spec fn prior_spec(prior: u8) -> Single {
    Single::nearest(prior as nat, 1).div_spec(Single::nearest(255, 1)).sub_spec(
        Single::nearest(5, 10),
    ).mul_spec(Single::nearest(30, 1))
}

pub open spec fn quality_spec(model: ModelData, fit: Fit, requested: UseCase) -> u8 {
    let pb = model.params_b().max_spec(Single::nearest(5, 100));
    let base = Single::nearest(35, 1).add_spec(Single::nearest(93, 10).mul_spec(log2_spec(pb)));
    let prior = prior_spec(model.quality_prior());
    let alignment = Single::integer(alignment_spec(model.use_case(), requested));
    clamp_spec(base.add_spec(prior).add_spec(alignment).mul_spec(fit.quant.quality_spec()))
}

/// A throughput against what a use case needs.
pub open spec fn speed_ratio(decode_tps_x10: u32, use_case: UseCase) -> Single {
    Single::nearest(decode_tps_x10 as nat, 1).div_spec(Single::nearest(10, 1)).div_spec(
        Single::nearest(speed_target_spec(use_case), 1),
    )
}

/// What a throughput at or past its target is worth: the more past it, the less
/// there is to gain.
pub open spec fn past_target(ratio: Single) -> Single {
    let one = Single::nearest(1, 1);
    Single::nearest(85, 1).add_spec(
        Single::nearest(15, 1).mul_spec(
            one.sub_spec(one.div_spec(one.add_spec(log2_spec(ratio.add_spec(one))))),
        ),
    )
}

pub open spec fn speed_spec(decode_tps_x10: u32, use_case: UseCase) -> u8 {
    let one = Single::nearest(1, 1);
    let ratio = speed_ratio(decode_tps_x10, use_case);
    if one.upto(ratio) {
        clamp_spec(past_target(ratio))
    } else {
        clamp_spec(Single::nearest(85, 1).mul_spec(ratio))
    }
}

pub open spec fn fit_spec(fit: Fit) -> u8 {
    let u = Single::nearest(fit.utilization_pctx10 as nat, 1).div_spec(Single::nearest(1000, 1));
    if !fit.verdict.runs() {
        0
    } else if u.below(Single::nearest(50, 100)) {
        clamp_spec(Single::nearest(60, 1).add_spec(Single::nearest(80, 1).mul_spec(u)))
    } else if u.upto(Single::nearest(80, 100)) {
        clamp_spec(Single::nearest(100, 1))
    } else {
        clamp_spec(
            Single::nearest(100, 1).sub_spec(
                u.sub_spec(Single::nearest(80, 100)).mul_spec(Single::nearest(350, 1)),
            ),
        )
    }
}

pub open spec fn context_spec(fit: Fit, use_case: UseCase) -> u8 {
    let hundred = Single::nearest(100, 1);
    let target = Single::nearest(context_target_spec(use_case), 1);
    let usable = Single::nearest(fit.usable_context as nat, 1);
    if target.upto(usable) {
        clamp_spec(hundred)
    } else {
        clamp_spec(hundred.mul_spec(usable.div_spec(target)))
    }
}

/// The weighted composite of four scores; a tenth of it for what does not run.
pub open spec fn composite_spec(
    quality: u8,
    speed: u8,
    fit: u8,
    context: u8,
    use_case: UseCase,
    runs: bool,
) -> u16 {
    let w = weights_percent(use_case);
    let sum = Single::nearest(quality as nat, 1).mul_spec(Single::nearest(w.0, 100)).add_spec(
        Single::nearest(speed as nat, 1).mul_spec(Single::nearest(w.1, 100)),
    ).add_spec(
        Single::nearest(fit as nat, 1).mul_spec(Single::nearest(w.2, 100)),
    ).add_spec(Single::nearest(context as nat, 1).mul_spec(Single::nearest(w.3, 100)));
    let composite = if runs {
        sum
    } else {
        sum.mul_spec(Single::nearest(1, 10))
    };
    composite.mul_spec(Single::nearest(100, 1)).min_spec(Single::nearest(10_000, 1)).whole(
        u16::MAX as nat,
    ) as u16
}

pub open spec fn score_spec(model: ModelData, fit: Fit, speed: Speed, use_case: UseCase) -> Scores {
    let quality = quality_spec(model, fit, use_case);
    let spd = speed_spec(speed.decode_tps_x10, use_case);
    let f = fit_spec(fit);
    let ctx = context_spec(fit, use_case);
    Scores {
        quality,
        speed: spd,
        fit: f,
        context: ctx,
        composite: composite_spec(quality, spd, f, ctx, use_case, fit.verdict.runs()),
    }
}

/// Whether one pairing ranks above another: it runs and the other does not, or
/// both do or neither does and its composite is higher.
pub open spec fn above(a: (Fit, Scores), b: (Fit, Scores)) -> bool {
    if a.0.verdict.runs() != b.0.verdict.runs() {
        a.0.verdict.runs()
    } else {
        a.1.composite > b.1.composite
    }
}

// --- the scores -------------------------------------------------------------

/// Weights of quality, speed, fit and context.
fn weights_for(use_case: UseCase) -> (r: (Single, Single, Single, Single))
    ensures
        ({
            let w = weights_percent(use_case);
            r == (
                Single::nearest(w.0, 100),
                Single::nearest(w.1, 100),
                Single::nearest(w.2, 100),
                Single::nearest(w.3, 100),
            )
        }),
{
    let (q, s, f, c): (u32, u32, u32, u32) = match use_case {
        UseCase::General => (40, 25, 20, 15),
        UseCase::Coding => (35, 20, 15, 30),
        UseCase::Reasoning => (55, 15, 15, 15),
        UseCase::Chat => (30, 35, 20, 15),
        UseCase::Multimodal => (45, 20, 20, 15),
        UseCase::Embedding => (35, 40, 20, 5),
    };
    (Single::ratio(q, 100), Single::ratio(s, 100), Single::ratio(f, 100), Single::ratio(c, 100))
}

fn context_target(use_case: UseCase) -> (r: Single)
    ensures
        r == Single::nearest(context_target_spec(use_case), 1),
{
    let n: u32 = match use_case {
        UseCase::Coding => 32_768,
        UseCase::Reasoning => 16_384,
        UseCase::General => 8_192,
        UseCase::Chat => 8_192,
        UseCase::Multimodal => 8_192,
        UseCase::Embedding => 512,
    };
    Single::from_u32(n)
}

fn speed_target(use_case: UseCase) -> (r: Single)
    ensures
        r == Single::nearest(speed_target_spec(use_case), 1),
{
    let n: u32 = match use_case {
        UseCase::Chat => 30,
        UseCase::General => 20,
        UseCase::Coding => 20,
        UseCase::Multimodal => 15,
        UseCase::Reasoning => 10,
        UseCase::Embedding => 100,
    };
    Single::from_u32(n)
}

/// Score a pairing for a use case.
pub fn score(model: &Model, fit: &Fit, speed: &Speed, use_case: UseCase) -> (r: Scores)
    ensures
        r == score_spec(model@, *fit, *speed, use_case),
{
    let quality: u8 = quality_score(model, fit, use_case);
    let spd: u8 = speed_score(speed, use_case);
    let f: u8 = fit_score(fit);
    let ctx: u8 = context_score(fit, use_case);

    let (wq, ws, wf, wc): (Single, Single, Single, Single) = weights_for(use_case);
    let mut composite: Single = Single::from_u32(quality as u32).times(wq).plus(
        Single::from_u32(spd as u32).times(ws),
    ).plus(Single::from_u32(f as u32).times(wf)).plus(Single::from_u32(ctx as u32).times(wc));
    // What does not load has no useful rank, however capable it is.
    if !fit.verdict.runnable() {
        composite = composite.times(Single::ratio(1, 10));
    }
    Scores {
        quality,
        speed: spd,
        fit: f,
        context: ctx,
        composite: composite.times(Single::from_u32(100)).min(Single::from_u32(10_000)).to_u16(),
    }
}

/// Capability. The parameter count carries most of it on a logarithmic curve
/// through 35 at one billion and about 92 at seventy; the prior shifts it by up
/// to fifteen points; quantization takes its share of whatever there was.
fn quality_score(model: &Model, fit: &Fit, requested: UseCase) -> (r: u8)
    ensures
        r == quality_spec(model@, *fit, requested),
{
    let pb: Single = model.params_b().max(Single::ratio(5, 100));
    let base: Single = Single::from_u32(35).plus(Single::ratio(93, 10).times(log2(pb)));
    let prior: Single = Single::from_u32(model.quality_prior() as u32).over(
        Single::from_u32(255),
    ).minus(Single::ratio(5, 10)).times(Single::from_u32(30));
    let alignment: Single = alignment_bonus(model.use_case(), requested);
    clamp_u8(base.plus(prior).plus(alignment).times(fit.quant.quality_factor()))
}

/// A match is a modest edge: a large generalist still beats a small
/// specialist. The penalty matters more, because an embedding model is worse at
/// chat than a general one of its size.
fn alignment_bonus(own: UseCase, requested: UseCase) -> (r: Single)
    ensures
        r == Single::integer(alignment_spec(own, requested)),
{
    let text: bool = matches!(
        requested,
        UseCase::General | UseCase::Coding | UseCase::Reasoning | UseCase::Chat
    );
    let n: i32 = if own == requested {
        8
    } else if own == UseCase::Embedding && text {
        -25
    } else if own == UseCase::Multimodal && text {
        -10
    } else {
        0
    };
    Single::from_i32(n)
}

/// Throughput against what the use case needs, with diminishing returns past
/// the target.
fn speed_score(speed: &Speed, use_case: UseCase) -> (r: u8)
    ensures
        r == speed_spec(speed.decode_tps_x10, use_case),
{
    let one: Single = Single::from_u32(1);
    let tps: Single = Single::from_u32(speed.decode_tps_x10).over(Single::from_u32(10));
    let ratio: Single = tps.over(speed_target(use_case));
    let raw: Single = if one.le(ratio) {
        let gain: Single = one.minus(one.over(one.plus(log2(ratio.plus(one)))));
        Single::from_u32(85).plus(Single::from_u32(15).times(gain))
    } else {
        Single::from_u32(85).times(ratio)
    };
    clamp_u8(raw)
}

/// Memory headroom. Emptier, a better model would have fit; fuller, the fit is
/// fragile.
fn fit_score(fit: &Fit) -> (r: u8)
    ensures
        r == fit_spec(*fit),
{
    if !fit.verdict.runnable() {
        return 0;
    }
    let u: Single = Single::from_u32(fit.utilization_pctx10 as u32).over(Single::from_u32(1000));
    let raw: Single = if u.lt(Single::ratio(50, 100)) {
        Single::from_u32(60).plus(Single::from_u32(80).times(u))
    } else if u.le(Single::ratio(80, 100)) {
        Single::from_u32(100)
    } else {
        Single::from_u32(100).minus(u.minus(Single::ratio(80, 100)).times(Single::from_u32(350)))
    };
    clamp_u8(raw)
}

/// Usable context, not the advertised window, against what the use case needs.
fn context_score(fit: &Fit, use_case: UseCase) -> (r: u8)
    ensures
        r == context_spec(*fit, use_case),
{
    let hundred: Single = Single::from_u32(100);
    let target: Single = context_target(use_case);
    let usable: Single = Single::from_u32(fit.usable_context);
    let raw: Single = if target.le(usable) {
        hundred
    } else {
        hundred.times(usable.over(target))
    };
    clamp_u8(raw)
}

fn clamp_u8(v: Single) -> (r: u8)
    ensures
        r == clamp_spec(v),
{
    if v.le(Single::from_u32(0)) {
        0
    } else if Single::from_u32(100).le(v) {
        100
    } else {
        v.to_u8()
    }
}

/// The base-2 logarithm to within a tenth: the exponent, and a cubic fit over
/// the fraction.
fn log2(x: Single) -> (r: Single)
    ensures
        r == log2_spec(x),
{
    if x.le(Single::from_u32(0)) {
        return Single::from_i32(-20);
    }
    let bits: u32 = x.to_bits();
    let exponent: i32 = ((bits / 0x80_0000) % 256) as i32 - 127;
    let mantissa: Single = Single::from_bits(bits % 0x80_0000 + 0x3f80_0000);
    let one: Single = Single::from_u32(1);
    let m: Single = mantissa.minus(one);
    let rest: Single = one.minus(m);
    let c2: Single = Single::from_bits(0x3fb8_aa3b).over(Single::from_u32(2));
    let c3: Single = Single::ratio(2_786_524, 10_000_000);
    let series: Single = c2.times(one.minus(rest.times(rest)));
    let poly: Single = series.plus(c3.times(m.times(m).times(m)));
    Single::from_i32(exponent).plus(poly)
}

/// Rank order: higher composite first, what does not run always last.
pub fn better(a: (&Fit, &Scores), b: (&Fit, &Scores)) -> (r: Ordering)
    ensures
        r == Ordering::Less <==> above((*a.0, *a.1), (*b.0, *b.1)),
        r == Ordering::Greater <==> above((*b.0, *b.1), (*a.0, *a.1)),
{
    let (ra, rb): (bool, bool) = (a.0.verdict.runnable(), b.0.verdict.runnable());
    if ra != rb {
        if ra {
            Ordering::Less
        } else {
            Ordering::Greater
        }
    } else if a.1.composite > b.1.composite {
        Ordering::Less
    } else if a.1.composite < b.1.composite {
        Ordering::Greater
    } else {
        Ordering::Equal
    }
}

/// Whether a verdict is at least as good as asked.
pub fn at_least(actual: Verdict, minimum: Verdict) -> (r: bool)
    ensures
        r == (actual.rank() >= minimum.rank()),
{
    actual.level() >= minimum.level()
}

// --- laws -------------------------------------------------------------------

/// Every dimension lies within 0 and 100, and the composite within 0 and
/// 10000.
pub proof fn law_scores_are_in_range(model: ModelData, fit: Fit, speed: Speed, use_case: UseCase)
    ensures
        ({
            let s = score_spec(model, fit, speed, use_case);
            &&& s.quality <= 100
            &&& s.speed <= 100
            &&& s.fit <= 100
            &&& s.context <= 100
            &&& s.composite <= 10_000
        }),
{
    let q = quality_spec(model, fit, use_case);
    let s = speed_spec(speed.decode_tps_x10, use_case);
    let f = fit_spec(fit);
    let c = context_spec(fit, use_case);
    lemma_clamped();
    lemma_composite(q, s, f, c, use_case, fit.verdict.runs());
}

/// A clamped number is at most 100.
pub proof fn lemma_clamped()
    ensures
        forall|v: Single| #[trigger] clamp_spec(v) <= 100,
{
    assert forall|v: Single| #[trigger] clamp_spec(v) <= 100 by {
        let hundred = Single::nearest(100, 1);
        if !v.upto(Single::nearest(0, 1)) && !hundred.upto(v) {
            float::lemma_nearest_monotone(0, 1, 100, 1);
            float::lemma_whole_of_integer(100, 255);
            if v.is_nan() {
                reveal(Single::whole);
            } else {
                float::lemma_whole_below(v, hundred, u8::MAX as nat);
            }
        }
    }
}

proof fn lemma_composite(q: u8, s: u8, f: u8, c: u8, use_case: UseCase, runs: bool)
    ensures
        composite_spec(q, s, f, c, use_case, runs) <= 10_000,
{
    let w = weights_percent(use_case);
    let sum = Single::nearest(q as nat, 1).mul_spec(Single::nearest(w.0, 100)).add_spec(
        Single::nearest(s as nat, 1).mul_spec(Single::nearest(w.1, 100)),
    ).add_spec(Single::nearest(f as nat, 1).mul_spec(Single::nearest(w.2, 100))).add_spec(
        Single::nearest(c as nat, 1).mul_spec(Single::nearest(w.3, 100)),
    );
    let composite = if runs {
        sum
    } else {
        sum.mul_spec(Single::nearest(1, 10))
    };
    let top = Single::nearest(10_000, 1);
    let raw = composite.mul_spec(Single::nearest(100, 1));
    let m = raw.min_spec(top);
    float::lemma_nearest_monotone(0, 1, 10_000, 1);
    float::lemma_whole_of_integer(10_000, 65535);
    if m != top {
        float::lemma_whole_below(m, top, u16::MAX as nat);
    }
}

/// The reputation of a model moves its quality by fifteen points at the most,
/// either way: popularity is no measure of quality, and overrides neither size
/// nor a bad fit.
pub proof fn law_reputation_moves_little(prior: u8)
    ensures
        Single::integer(-15).upto(prior_spec(prior)),
        prior_spec(prior).upto(Single::integer(15)),
{
    let half = Single::nearest(5, 10);
    let less = half.negated();
    let (none, one) = (Single::nearest(0, 1), Single::nearest(1, 1));
    let scale = Single::nearest(255, 1);
    let share = Single::nearest(prior as nat, 1).div_spec(scale);
    float::lemma_exact_integer(0);
    float::lemma_exact_integer(1);
    float::lemma_zero_rank();
    float::lemma_centred();
    // The share lies between zero and one,
    float::lemma_count_ratio(prior as nat, 255);
    float::lemma_nearest_monotone(prior as nat, 255, 1, 1);
    float::lemma_between_finite(none, share, one);
    // with a half off between minus a half and a half,
    float::lemma_plus_monotone(none, share, less);
    float::lemma_plus_monotone(share, one, less);
    float::lemma_between_finite(less, share.add_spec(less), half);
    // and thirty times that.
    float::lemma_count_positive(30);
    float::lemma_scaled_monotone(less, share.add_spec(less), Single::nearest(30, 1));
    float::lemma_scaled_monotone(share.add_spec(less), half, Single::nearest(30, 1));
}

/// Clamping keeps the order of numbers.
proof fn lemma_clamp_monotone(a: Single, b: Single)
    requires
        !a.is_nan(),
        !b.is_nan(),
        a.rank() <= b.rank(),
    ensures
        clamp_spec(a) <= clamp_spec(b),
{
    lemma_clamped();
    float::lemma_zero_rank();
    float::lemma_exact_integer(0);
    float::lemma_exact_integer(100);
    if !a.upto(Single::nearest(0, 1)) && !Single::nearest(100, 1).upto(b) {
        float::lemma_whole_below(a, b, u8::MAX as nat);
        float::lemma_nearest_monotone(0, 1, 100, 1);
        float::lemma_whole_of_integer(100, 255);
        float::lemma_whole_below(b, Single::nearest(100, 1), u8::MAX as nat);
    }
}

/// A fraction of a hundred or less, scaled: the larger the fraction, the larger
/// the score.
proof fn lemma_share_monotone(top: nat, n1: nat, n2: nat, d: nat)
    requires
        0 < top < 0x100_0000,
        n1 <= n2 <= d,
        0 < d < 0x100_0000,
    ensures
        ({
            let t = Single::nearest(top, 1);
            clamp_spec(t.mul_spec(Single::nearest(n1, d))) <= clamp_spec(
                t.mul_spec(Single::nearest(n2, d)),
            )
        }),
{
    let t = Single::nearest(top, 1);
    let (x, y) = (Single::nearest(n1, d), Single::nearest(n2, d));
    let (none, one) = (Single::nearest(0, 1), Single::nearest(1, 1));
    float::lemma_zero_rank();
    float::lemma_exact_integer(0);
    float::lemma_exact_integer(1);
    assert(n1 * d <= n2 * d) by (nonlinear_arith)
        requires
            n1 <= n2,
    ;
    float::lemma_nearest_monotone(n1, d, n2, d);
    float::lemma_nearest_monotone(n2, d, 1, 1);
    float::lemma_between_finite(none, x, one);
    float::lemma_between_finite(none, y, one);
    float::lemma_count_positive(top);
    float::lemma_scaled_monotone(x, y, t);
    float::lemma_times_commutes(x, t);
    float::lemma_times_commutes(y, t);
    lemma_clamp_monotone(t.mul_spec(x), t.mul_spec(y));
}

/// More usable context never scores lower.
pub proof fn law_more_context_scores_no_lower(a: Fit, b: Fit, use_case: UseCase)
    requires
        a.usable_context <= b.usable_context,
    ensures
        context_spec(a, use_case) <= context_spec(b, use_case),
{
    let t = context_target_spec(use_case);
    let (n1, n2) = (a.usable_context as nat, b.usable_context as nat);
    lemma_clamped();
    assert(clamp_spec(Single::nearest(100, 1)) == 100) by {
        float::lemma_exact_integer(100);
        float::lemma_zero_rank();
        float::lemma_count_positive(100);
    }
    float::lemma_nearest_monotone(n1, 1, n2, 1);
    float::lemma_nearest_monotone(n2, 1, n2, 1);
    float::lemma_exact_integer(t);
    if !Single::nearest(t, 1).upto(Single::nearest(n2, 1)) {
        if n2 >= t {
            float::lemma_nearest_monotone(t, 1, n2, 1);
        }
        float::lemma_count_ratio(n1, t);
        float::lemma_count_ratio(n2, t);
        lemma_share_monotone(100, n1, n2, t);
    }
}

/// A higher throughput never scores lower.
pub proof fn law_faster_scores_no_lower(a: u32, b: u32, use_case: UseCase)
    requires
        a <= b,
    ensures
        speed_spec(a, use_case) <= speed_spec(b, use_case),
{
    let (none, one) = (Single::nearest(0, 1), Single::nearest(1, 1));
    let ten = Single::nearest(10, 1);
    let target = Single::nearest(speed_target_spec(use_case), 1);
    let best = Single::nearest(85, 1);
    let (x, y) = (Single::nearest(a as nat, 1), Single::nearest(b as nat, 1));
    float::lemma_exact_integer(0);
    float::lemma_exact_integer(1);
    float::lemma_zero_rank();
    float::lemma_count_positive(10);
    float::lemma_count_positive(85);
    float::lemma_count_positive(speed_target_spec(use_case));
    float::lemma_nearest_monotone(a as nat, 1, b as nat, 1);
    float::lemma_over_monotone(x, y, ten);
    float::lemma_over_monotone(x.div_spec(ten), y.div_spec(ten), target);
    let (p, q) = (speed_ratio(a, use_case), speed_ratio(b, use_case));
    if one.upto(p) {
        curve::lemma_past_target(a, b, use_case);
        lemma_clamp_monotone(past_target(p), past_target(q));
    } else if one.upto(q) {
        float::lemma_between_finite(none, p, one);
        bounds::lemma_whole(0);
        bounds::lemma_whole(1);
        bounds::lemma_whole(85);
        bounds::lemma_ranked(none, 0, 0, p, one, 4096, 4096);
        bounds::lemma_times(best, 348_160, 348_160, p, 0, 4096, 0, 348_160);
        curve::lemma_target_reached(b, use_case);
        bounds::lemma_apart(best.mul_spec(p), 0, 348_160, past_target(q), 378_880, 409_600);
        lemma_clamp_monotone(best.mul_spec(p), past_target(q));
    } else {
        float::lemma_between_finite(none, p, one);
        float::lemma_between_finite(none, q, one);
        float::lemma_scaled_monotone(p, q, best);
        float::lemma_times_commutes(p, best);
        float::lemma_times_commutes(q, best);
        lemma_clamp_monotone(best.mul_spec(p), best.mul_spec(q));
    }
}

/// Memory headroom is best where half to four fifths of the pool is taken.
pub proof fn law_headroom_is_best_in_the_band(fit: Fit)
    requires
        fit.verdict.runs(),
        500 <= fit.utilization_pctx10 <= 800,
    ensures
        fit_spec(fit) == 100,
{
    let n = fit.utilization_pctx10 as nat;
    float::lemma_count_ratio(n, 1000);
    float::lemma_nearest_monotone(50, 100, n, 1000);
    float::lemma_nearest_monotone(n, 1000, 80, 100);
    float::lemma_exact_integer(100);
    float::lemma_zero_rank();
    float::lemma_count_positive(100);
}

/// What does not run never ranks above what does.
pub proof fn law_what_runs_ranks_above_what_does_not(a: (Fit, Scores), b: (Fit, Scores))
    requires
        a.0.verdict.runs(),
        !b.0.verdict.runs(),
    ensures
        above(a, b),
        !above(b, a),
{
}

/// Ranking is a strict order, and pairings that neither rank above each other
/// are interchangeable in it.
pub proof fn law_ranking_is_a_weak_order(a: (Fit, Scores), b: (Fit, Scores), c: (Fit, Scores))
    ensures
        !above(a, a),
        above(a, b) ==> !above(b, a),
        above(a, b) && above(b, c) ==> above(a, c),
        above(a, c) ==> above(a, b) || above(b, c),
{
}

} // verus!
