//! How numbers are written.

use vstd::arithmetic::power2::*;
use vstd::prelude::*;

use crate::float::{Single, Value};
use crate::numeral;
use crate::rounding;

verus! {

/// A number without decimal places is the whole number nearest to it, and one with
/// a decimal place the nearest number of tenths, the last of them behind a point;
/// of two that are as near, the even one. A sign stands in front of what is
/// negative. The answer is the whole number and the tenths.
pub proof fn law_the_nearest_is_written(v: Single) -> (r: (nat, nat))
    requires
        v.value() is Finite,
    ensures
        v.value() matches Value::Finite { neg, mag } && {
            let unit = pow2(149) as int;
            let (whole, tenths) = r;
            let minus = if neg {
                seq![45u8]
            } else {
                Seq::<u8>::empty()
            };
            &&& numeral::fixed0(v) == minus + numeral::decimal(whole)
            &&& -unit <= 2 * (mag - whole * unit) <= unit
            &&& 2 * (mag - whole * unit) == unit || 2 * (mag - whole * unit) == -unit ==> whole % 2
                == 0
            &&& numeral::fixed1(v) == minus + numeral::decimal(tenths / 10) + seq![46u8]
                + numeral::decimal(tenths % 10)
            &&& -unit <= 2 * (10 * mag - tenths * unit) <= unit
            &&& 2 * (10 * mag - tenths * unit) == unit || 2 * (10 * mag - tenths * unit) == -unit
                ==> tenths % 2 == 0
        },
{
    match v.value() {
        Value::Finite { neg, mag } => {
            let u = pow2(149);
            lemma_pow2_pos(149);
            lemma_nearest(mag, u);
            lemma_nearest(10 * mag, u);
            (rounding::half_even(mag, u), rounding::half_even(10 * mag, u))
        },
        _ => (0, 0),
    }
}

proof fn lemma_nearest(n: nat, d: nat)
    requires
        d > 0,
    ensures
        ({
            let k = rounding::half_even(n, d) as int;
            let rest = 2 * (n - k * d);
            &&& -d <= rest <= d
            &&& rest == d || rest == -d ==> k % 2 == 0
        }),
{
    rounding::lemma_parts(n, d);
    let q = n / d;
    assert((q + 1) * d == q * d + d) by (nonlinear_arith);
}

} // verus!
