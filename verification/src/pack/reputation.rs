//! What downloads and likes are worth.

use vstd::arithmetic::power2::*;
use vstd::prelude::*;

use crate::float;
use crate::float::{Code, Double};
use crate::pack;
use crate::rounding;

verus! {

/// How often the smallest positive number of the wide format goes into a number
/// that is not negative.
pub open spec fn size(a: Double) -> nat {
    rounding::magnitude(float::double(), a.ord())
}

/// Whether a number is finite and not negative.
pub open spec fn plain(a: Double) -> bool {
    !a.neg() && a.value() is Finite
}

/// Whether two amounts differ by no more than one part in `2^53` of the second.
spec fn near(x: int, y: int) -> bool {
    (x - y) * 0x20_0000_0000_0000 <= y && (y - x) * 0x20_0000_0000_0000 <= y
}

/// What a rounded fraction comes to.
proof fn lemma_rounded(num: nat, den: nat)
    requires
        den > 0,
        num == 0 || pow2(52) * den <= num,
        num <= pow2(1200) * den,
    ensures
        ({
            let a = Double::of(
                Code::Number { neg: false, ord: rounding::rounded(float::double(), num, den) },
            );
            plain(a) && near((size(a) * den) as int, num as int)
        }),
{
    let f = float::double();
    let ord = rounding::rounded(f, num, den);
    rounding::lemma_formats();
    assert(rounding::infinity(f) == 2047 * pow2(52));
    lemma_pow2_pos(1200);
    assert(1 * pow2(1200) == pow2(1200) && den * pow2(52) == pow2(52) * den) by (nonlinear_arith);
    rounding::lemma_held(f, 1, 1200);
    assert(num * 1 <= pow2(1200) * den);
    rounding::lemma_rounded_monotone(f, num, den, pow2(1200), 1);
    let a = Double::of(Code::Number { neg: false, ord });
    assert(a.ord() == ord && !a.neg());
    if num == 0 {
        rounding::lemma_held(f, 0, 0);
        assert(0 * pow2(0) == 0);
        assert(0 * 1 <= 0 * den) by (nonlinear_arith);
        rounding::lemma_rounded_monotone(f, 0, den, 0, 1);
        rounding::lemma_magnitude_monotone(f, ord, rounding::rounded(f, 0, 1));
        assert(0 * den == 0);
    } else {
        rounding::lemma_relative(f, num, den);
    }
}

/// A count, and a count of quarters.
proof fn lemma_constants(n: nat)
    requires
        n <= 255,
    ensures
        plain(Double::nearest(n, 1)),
        size(Double::nearest(n, 1)) == n * pow2(1074),
{
    reveal(Double::nearest);
    let f = float::double();
    rounding::lemma_formats();
    assert(rounding::infinity(f) == 2047 * pow2(52));
    rounding::lemma_held(f, n, 1074);
}

proof fn lemma_quarters(n: nat)
    requires
        n <= 4,
    ensures
        plain(Double::nearest(25 * n, 100)),
        4 * size(Double::nearest(25 * n, 100)) == n * pow2(1074),
{
    reveal(Double::nearest);
    let f = float::double();
    let u = pow2(1074);
    rounding::lemma_formats();
    lemma2_to64();
    lemma_pow2_adds(2, 1072);
    assert(rounding::infinity(f) == 2047 * pow2(52));
    rounding::lemma_held(f, n, 1072);
    assert(((25 * n) * u) * 1 == (n * pow2(1072)) * 100) by (nonlinear_arith)
        requires
            u == 4 * pow2(1072),
    ;
    float::lemma_same_fraction(f, (25 * n) * u, 100, n * pow2(1072), 1);
    assert(4 * (n * pow2(1072)) == n * u) by (nonlinear_arith)
        requires
            u == 4 * pow2(1072),
    ;
}

/// The unit is large against the bits of a number.
proof fn lemma_unit()
    ensures
        pow2(1074) > 0,
        pow2(1074) >= pow2(52) * 0x1_0000,
        pow2(1200) >= pow2(1074) * 0x1_0000,
        pow2(52) == 0x10_0000_0000_0000,
{
    rounding::lemma_formats();
    lemma2_to64();
    lemma_pow2_pos(1074);
    lemma_pow2_adds(52, 16);
    lemma_pow2_strictly_increases(68, 1074);
    lemma_pow2_adds(1074, 16);
    lemma_pow2_strictly_increases(1090, 1200);
}

/// An exact number over a count.
proof fn lemma_over(a: Double, n: nat)
    requires
        plain(a),
        1 <= n <= 255,
        size(a) == 0 || pow2(1074) <= 4 * size(a),
        size(a) <= 32 * pow2(1074),
    ensures
        plain(a.div_spec(Double::nearest(n, 1))),
        near((n * size(a.div_spec(Double::nearest(n, 1)))) as int, size(a) as int),
{
    reveal(Double::div_spec);
    let f = float::double();
    let u = pow2(1074);
    let x = size(a);
    lemma_unit();
    lemma_constants(n);
    assert(n * u > 0) by (nonlinear_arith)
        requires
            n >= 1,
            u > 0,
    ;
    assert((x * u) * n == x * (n * u)) by (nonlinear_arith);
    float::lemma_same_fraction(f, x * u, n * u, x, n);
    if x > 0 {
        assert(pow2(52) * n <= x) by (nonlinear_arith)
            requires
                u <= 4 * x,
                u >= pow2(52) * 0x1_0000,
                n <= 255,
                pow2(52) > 0,
        ;
    }
    assert(x <= pow2(1200) * n) by (nonlinear_arith)
        requires
            x <= 32 * u,
            pow2(1200) >= u * 0x1_0000,
            n >= 1,
            u > 0,
    ;
    lemma_rounded(x, n);
    let q = a.div_spec(Double::nearest(n, 1));
    assert(q == Double::of(Code::Number { neg: false, ord: rounding::rounded(f, x, n) }));
    assert(size(q) * n == n * size(q)) by (nonlinear_arith);
}

/// A number times quarters.
proof fn lemma_times_quarters(a: Double, n: nat)
    requires
        plain(a),
        1 <= n <= 4,
        size(a) == 0 || pow2(1074) <= 64 * size(a),
        size(a) <= 32 * pow2(1074),
    ensures
        plain(a.mul_spec(Double::nearest(25 * n, 100))),
        near((4 * size(a.mul_spec(Double::nearest(25 * n, 100)))) as int, (n * size(a)) as int),
{
    reveal(Double::mul_spec);
    let f = float::double();
    let u = pow2(1074);
    let x = size(a);
    let b = Double::nearest(25 * n, 100);
    lemma_unit();
    lemma_quarters(n);
    let y = size(b);
    assert((x * y) * 4 == (n * x) * u) by (nonlinear_arith)
        requires
            4 * y == n * u,
    ;
    float::lemma_same_fraction(f, x * y, u, n * x, 4);
    if x > 0 {
        assert(pow2(52) * 4 <= n * x && n * x > 0) by (nonlinear_arith)
            requires
                u <= 64 * x,
                u >= pow2(52) * 0x1_0000,
                n >= 1,
                pow2(52) > 0,
        ;
    } else {
        assert(n * x == 0) by (nonlinear_arith)
            requires
                x == 0,
        ;
    }
    assert(n * x <= pow2(1200) * 4) by (nonlinear_arith)
        requires
            x <= 32 * u,
            pow2(1200) >= u * 0x1_0000,
            n <= 4,
            u > 0,
    ;
    lemma_rounded(n * x, 4);
}

/// A number times a count.
proof fn lemma_times(a: Double, n: nat)
    requires
        plain(a),
        1 <= n <= 255,
        size(a) == 0 || pow2(1074) <= 256 * size(a),
        size(a) <= 32 * pow2(1074),
    ensures
        plain(a.mul_spec(Double::nearest(n, 1))),
        near(size(a.mul_spec(Double::nearest(n, 1))) as int, (n * size(a)) as int),
{
    reveal(Double::mul_spec);
    let f = float::double();
    let u = pow2(1074);
    let x = size(a);
    lemma_unit();
    lemma_constants(n);
    assert((x * (n * u)) * 1 == (n * x) * u) by (nonlinear_arith);
    float::lemma_same_fraction(f, x * (n * u), u, n * x, 1);
    if x > 0 {
        assert(pow2(52) * 1 <= n * x && n * x > 0) by (nonlinear_arith)
            requires
                u <= 256 * x,
                u >= pow2(52) * 0x1_0000,
                n >= 1,
                pow2(52) > 0,
        ;
    } else {
        assert(n * x == 0) by (nonlinear_arith)
            requires
                x == 0,
        ;
    }
    assert(n * x <= pow2(1200) * 1) by (nonlinear_arith)
        requires
            x <= 32 * u,
            pow2(1200) >= u * 0x1_0000,
            n <= 255,
            u > 0,
    ;
    lemma_rounded(n * x, 1);
    assert(size(a.mul_spec(Double::nearest(n, 1))) * 1 == size(a.mul_spec(Double::nearest(n, 1))));
}

/// A sum.
proof fn lemma_plus(a: Double, b: Double)
    requires
        plain(a),
        plain(b),
        size(a) == 0 || pow2(1074) <= 128 * size(a),
        size(b) == 0 || pow2(1074) <= 128 * size(b),
        size(a) <= 32 * pow2(1074),
        size(b) <= 32 * pow2(1074),
    ensures
        plain(a.add_spec(b)),
        near(size(a.add_spec(b)) as int, (size(a) + size(b)) as int),
{
    reveal(Double::add_spec);
    let f = float::double();
    let s = size(a) + size(b);
    lemma_unit();
    rounding::lemma_formats();
    assert(rounding::infinity(f) == 2047 * pow2(52));
    if s == 0 {
        let z = Double::of(Code::Number { neg: false, ord: 0 });
        assert(z.ord() == 0 && !z.neg());
        assert(0nat / pow2(52) == 0);
    } else {
        lemma_rounded(s, 1);
        assert(size(a.add_spec(b)) * 1 == size(a.add_spec(b)));
    }
}

/// The smaller of a number and one.
proof fn lemma_upto_one(a: Double)
    requires
        plain(a),
    ensures
        ({
            let (r, u) = (a.min_spec(Double::nearest(1, 1)), pow2(1074));
            &&& plain(r)
            &&& size(a) <= u ==> size(r) == size(a)
            &&& size(a) >= u ==> size(r) == u
        }),
{
    let f = float::double();
    let one = Double::nearest(1, 1);
    lemma_constants(1);
    rounding::lemma_formats();
    assert(rounding::infinity(f) == 2047 * pow2(52));
    if one.ord() <= a.ord() {
        rounding::lemma_magnitude_monotone(f, one.ord(), a.ord());
    } else {
        rounding::lemma_magnitude_monotone(f, a.ord(), one.ord());
    }
}

/// The prior is 255 times three quarters of what the downloads are worth and one
/// quarter of what the likes are, cut to a whole number: downloads count as the
/// share of eight that their logarithm to base ten is, likes as the share of four,
/// and neither for more than all of it. It is exact but for one part in `2^48`.
/// (The logarithm of a count and one is zero, or above a quarter and below 20.)
pub proof fn law_what_a_reputation_is_worth(downloads_log: Double, likes_log: Double)
    requires
        plain(downloads_log),
        plain(likes_log),
        size(downloads_log) == 0 || pow2(1074) <= 4 * size(downloads_log),
        size(likes_log) == 0 || pow2(1074) <= 4 * size(likes_log),
        size(downloads_log) <= 20 * pow2(1074),
        size(likes_log) <= 20 * pow2(1074),
    ensures
        ({
            let one = pow2(1074) as int;
            let d = if size(downloads_log) < 8 * one {
                size(downloads_log) as int
            } else {
                8 * one
            };
            let l = if size(likes_log) < 4 * one {
                size(likes_log) as int
            } else {
                4 * one
            };
            let full = 255 * (3 * d + 2 * l);
            let w = pack::prior_spec(downloads_log, likes_log) as int;
            &&& (w * (32 * one)) * 0x1_0000_0000_0000 <= full * 0x1_0000_0000_0001
            &&& w < 255 ==> ((w + 1) * (32 * one)) * 0x1_0000_0000_0000 > full * 0xffff_ffff_ffff
        }),
{
    reveal(Double::whole);
    let u = pow2(1074) as int;
    let one = Double::nearest(1, 1);
    lemma_unit();
    let (a, b) = (
        downloads_log.div_spec(Double::nearest(8, 1)),
        likes_log.div_spec(Double::nearest(4, 1)),
    );
    lemma_over(downloads_log, 8);
    lemma_over(likes_log, 4);
    lemma_upto_one(a);
    lemma_upto_one(b);
    let (d, l) = (a.min_spec(one), b.min_spec(one));
    lemma_times_quarters(d, 3);
    lemma_times_quarters(l, 1);
    let (x, y) = (
        d.mul_spec(Double::nearest(75, 100)),
        l.mul_spec(Double::nearest(25, 100)),
    );
    lemma_plus(x, y);
    let s = x.add_spec(y);
    lemma_times(s, 255);
    let t = s.mul_spec(Double::nearest(255, 1));
    let w = pack::prior_spec(downloads_log, likes_log) as int;
    rounding::lemma_parts(size(t), pow2(1074));
    let q = size(t) / pow2(1074);
    assert((q + 1) * u == q * u + u) by (nonlinear_arith);
    assert(w * u <= size(t) && (w < 255 ==> size(t) < (w + 1) * u)) by {
        assert(255 <= q ==> 255 * u <= q * u) by (nonlinear_arith)
            requires
                u > 0,
        ;
    }
    assert(w * (32 * u) == 32 * (w * u) && (w + 1) * (32 * u) == 32 * ((w + 1) * u))
        by (nonlinear_arith);
}

} // verus!
