//! The composite as a weighted sum.

use vstd::prelude::*;

use crate::catalog::{ModelData, UseCase};
use crate::fit::{Fit, Verdict};
use crate::float;
use crate::float::about;
use crate::float::Single;
use crate::score;
use crate::score::Scores;
use crate::speed::Speed;

verus! {

/// One score with its weight.
proof fn lemma_weighed(n: u8, w: nat)
    requires
        n <= 100,
        w <= 100,
    ensures
        about::about(
            Single::nearest(n as nat, 1).mul_spec(Single::nearest(w, 100)),
            n * w,
            100,
            4,
        ),
        0 <= n * w <= 10_000,
{
    about::lemma_exact(n as nat);
    about::lemma_ratio(w, 100);
    assert(0 <= n * w <= 10_000) by (nonlinear_arith)
        requires
            n <= 100,
            w <= 100,
    ;
    about::lemma_wide(n * w, 100);
    about::lemma_times(
        Single::nearest(n as nat, 1),
        n as int,
        1,
        0,
        Single::nearest(w, 100),
        w as int,
        100,
        1,
    );
}

/// Four scores with their weights, added up.
proof fn lemma_added(q: u8, s: u8, f: u8, c: u8, w: (nat, nat, nat, nat))
    requires
        q <= 100,
        s <= 100,
        f <= 100,
        c <= 100,
        w.0 <= 100,
        w.1 <= 100,
        w.2 <= 100,
        w.3 <= 100,
    ensures
        about::about(
            Single::nearest(q as nat, 1).mul_spec(Single::nearest(w.0, 100)).add_spec(
                Single::nearest(s as nat, 1).mul_spec(Single::nearest(w.1, 100)),
            ).add_spec(
                Single::nearest(f as nat, 1).mul_spec(Single::nearest(w.2, 100)),
            ).add_spec(Single::nearest(c as nat, 1).mul_spec(Single::nearest(w.3, 100))),
            q * w.0 + s * w.1 + f * w.2 + c * w.3,
            100,
            10,
        ),
{
    let (a, b, x, y) = (
        Single::nearest(q as nat, 1).mul_spec(Single::nearest(w.0, 100)),
        Single::nearest(s as nat, 1).mul_spec(Single::nearest(w.1, 100)),
        Single::nearest(f as nat, 1).mul_spec(Single::nearest(w.2, 100)),
        Single::nearest(c as nat, 1).mul_spec(Single::nearest(w.3, 100)),
    );
    lemma_weighed(q, w.0);
    lemma_weighed(s, w.1);
    lemma_weighed(f, w.2);
    lemma_weighed(c, w.3);
    let (i, j, k, l) = (q * w.0, s * w.1, f * w.2, c * w.3);
    about::lemma_wide(i + j, 100);
    about::lemma_plus(a, i, b, j, 100, 4);
    about::lemma_wider(x, k, 100, 4, 6);
    about::lemma_wide(i + j + k, 100);
    about::lemma_plus(a.add_spec(b), i + j, x, k, 100, 6);
    about::lemma_wider(y, l, 100, 4, 8);
    about::lemma_wide(i + j + k + l, 100);
    about::lemma_plus(a.add_spec(b).add_spec(x), i + j + k, y, l, 100, 8);
}

/// A hundred times a sum, held to ten thousand and cut.
proof fn lemma_scaled(a: Single, n: int, d: int, e: int)
    requires
        about::about(a, n, d, e),
        d == 100 || d == 1000,
        0 <= n <= 10_000,
        0 <= e <= 14,
    ensures
        ({
            let r = a.mul_spec(Single::nearest(100, 1)).min_spec(Single::nearest(10_000, 1)).whole(
                65535,
            );
            let exact = n * 100 / d;
            exact - 1 <= r <= exact
        }),
{
    let (raw, top) = (a.mul_spec(Single::nearest(100, 1)), Single::nearest(10_000, 1));
    about::lemma_exact(100);
    about::lemma_wide(n * 100, d * 1);
    about::lemma_times(a, n, d, e, Single::nearest(100, 1), 100, 1, 0);
    about::lemma_cut(raw, n * 100, d, e + 3, 65535);
    let w = raw.whole(65535) as int;
    float::lemma_exact_integer(10_000);
    float::lemma_whole_of_integer(10_000, 65535);
    assert(w * d == if d == 100 {
        w * 100
    } else {
        w * 1000
    });
    assert((w + 1) * d == if d == 100 {
        (w + 1) * 100
    } else {
        (w + 1) * 1000
    });
    assert((n * 100) * (0x100_0000 + (e + 3)) <= (n * 100) * 0x100_0011) by (nonlinear_arith)
        requires
            n >= 0,
            e <= 14,
    ;
    assert((n * 100) * (0x100_0000 - (e + 3)) >= (n * 100) * 0xff_ffef) by (nonlinear_arith)
        requires
            n >= 0,
            e <= 14,
    ;
    if top.below(raw) {
        float::lemma_whole_below(top, raw, 65535);
    }
}

/// The products with the weights of a use case.
proof fn lemma_literal(q: int, v: int, f: int, c: int, use_case: UseCase)
    ensures
        ({
            let w = score::weights_percent(use_case);
            q * w.0 + v * w.1 + f * w.2 + c * w.3 == match use_case {
                UseCase::General => 40 * q + 25 * v + 20 * f + 15 * c,
                UseCase::Coding => 35 * q + 20 * v + 15 * f + 30 * c,
                UseCase::Reasoning => 55 * q + 15 * v + 15 * f + 15 * c,
                UseCase::Chat => 30 * q + 35 * v + 20 * f + 15 * c,
                UseCase::Multimodal => 45 * q + 20 * v + 20 * f + 15 * c,
                UseCase::Embedding => 35 * q + 40 * v + 20 * f + 5 * c,
            }
        }),
{
    let w = score::weights_percent(use_case);
    let (i, j, k, l) = (w.0 as int, w.1 as int, w.2 as int, w.3 as int);
    match use_case {
        UseCase::General => {
            assert(q * i == 40 * q && v * j == 25 * v && f * k == 20 * f && c * l == 15 * c);
        },
        UseCase::Coding => {
            assert(q * i == 35 * q && v * j == 20 * v && f * k == 15 * f && c * l == 30 * c);
        },
        UseCase::Reasoning => {
            assert(q * i == 55 * q && v * j == 15 * v && f * k == 15 * f && c * l == 15 * c);
        },
        UseCase::Chat => {
            assert(q * i == 30 * q && v * j == 35 * v && f * k == 20 * f && c * l == 15 * c);
        },
        UseCase::Multimodal => {
            assert(q * i == 45 * q && v * j == 20 * v && f * k == 20 * f && c * l == 15 * c);
        },
        UseCase::Embedding => {
            assert(q * i == 35 * q && v * j == 40 * v && f * k == 20 * f && c * l == 5 * c);
        },
    }
}

/// The composite is the sum of the four scores, each with its own weight for the
/// use case; what does not run has a tenth of it. The cut of the rounded sum
/// takes off one at the most.
pub proof fn law_the_composite_is_the_weighted_sum(
    model: ModelData,
    fit: Fit,
    speed: Speed,
    use_case: UseCase,
)
    ensures
        ({
            let s = score::score_spec(model, fit, speed, use_case);
            let (q, v, f, c) = (
                s.quality as int,
                s.speed as int,
                s.fit as int,
                s.context as int,
            );
            let total = match use_case {
                UseCase::General => 40 * q + 25 * v + 20 * f + 15 * c,
                UseCase::Coding => 35 * q + 20 * v + 15 * f + 30 * c,
                UseCase::Reasoning => 55 * q + 15 * v + 15 * f + 15 * c,
                UseCase::Chat => 30 * q + 35 * v + 20 * f + 15 * c,
                UseCase::Multimodal => 45 * q + 20 * v + 20 * f + 15 * c,
                UseCase::Embedding => 35 * q + 40 * v + 20 * f + 5 * c,
            };
            if fit.verdict == Verdict::TooTight {
                total / 10 - 1 <= s.composite <= total / 10
            } else {
                total - 1 <= s.composite <= total
            }
        }),
{
    let s: Scores = score::score_spec(model, fit, speed, use_case);
    score::law_scores_are_in_range(model, fit, speed, use_case);
    let w = score::weights_percent(use_case);
    lemma_added(s.quality, s.speed, s.fit, s.context, w);
    let (q, v, f, c) = (s.quality, s.speed, s.fit, s.context);
    let sum = Single::nearest(q as nat, 1).mul_spec(Single::nearest(w.0, 100)).add_spec(
        Single::nearest(v as nat, 1).mul_spec(Single::nearest(w.1, 100)),
    ).add_spec(Single::nearest(f as nat, 1).mul_spec(Single::nearest(w.2, 100))).add_spec(
        Single::nearest(c as nat, 1).mul_spec(Single::nearest(w.3, 100)),
    );
    let n = q * w.0 + v * w.1 + f * w.2 + c * w.3;
    lemma_literal(q as int, v as int, f as int, c as int, use_case);
    if fit.verdict.runs() {
        lemma_scaled(sum, n, 100, 10);
    } else {
        about::lemma_ratio(1, 10);
        about::lemma_wide(n * 1, 1000);
        about::lemma_times(sum, n, 100, 10, Single::nearest(1, 10), 1, 10, 1);
        lemma_scaled(sum.mul_spec(Single::nearest(1, 10)), n, 1000, 14);
    }
}

} // verus!
