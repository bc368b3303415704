//! Rounding of exact rationals to a binary floating format.
//!
//! A magnitude is counted in units of the smallest positive number of the
//! format, so every finite number of the format is an integer here: `k * 2^j`
//! with `k` below `2^prec`.

use vstd::arithmetic::power2::*;
use vstd::prelude::*;

verus! {

/// A binary interchange format.
#[derive(Clone, Copy)]
pub struct Format {
    /// Bits of the significand, the hidden one counted.
    pub prec: u32,
    /// The smallest positive number is `2^-unit`.
    pub unit: u32,
    /// The largest power of two that scales a finite significand, in units.
    pub top: u32,
}

impl Format {
    /// The two formats the engine computes in.
    pub open spec fn known(self) -> bool {
        ||| self == (Format { prec: 24, unit: 149, top: 253 })
        ||| self == (Format { prec: 53, unit: 1074, top: 2045 })
    }
}

/// `num / den` to the nearest integer, a tie to the even one.
pub open spec fn half_even(num: nat, den: nat) -> nat {
    let floor = num / den;
    let rest = num % den;
    if 2 * rest > den || (2 * rest == den && floor % 2 == 1) {
        floor + 1
    } else {
        floor
    }
}

/// How many low bits of `q` lie beyond the first `prec`.
pub open spec fn excess(q: nat, prec: nat) -> nat
    decreases q,
{
    if q < pow2(prec) || q == 0 {
        0
    } else {
        1 + excess(q / 2, prec)
    }
}

/// The magnitude nearest to `num / den` among the multiples of the unit in the
/// last place, a tie going to the even multiple.
pub open spec fn nearest(f: Format, num: nat, den: nat) -> nat {
    let j = excess(num / den, f.prec as nat);
    half_even(num, den * pow2(j)) * pow2(j)
}

/// The position of a magnitude in the increasing sequence of the format's
/// magnitudes, which is also its encoding without the sign.
pub open spec fn ordinal(f: Format, mag: nat) -> nat {
    let j = excess(mag, f.prec as nat);
    j * pow2((f.prec - 1) as nat) + mag / pow2(j)
}

/// The ordinal of infinity.
pub open spec fn infinity(f: Format) -> nat {
    (f.top + 2) as nat * pow2((f.prec - 1) as nat)
}

/// The ordinal that `num / den` rounds to, infinity when it is too large.
pub open spec fn rounded(f: Format, num: nat, den: nat) -> nat {
    let mag = nearest(f, num, den);
    if mag >= pow2((f.prec + f.top) as nat) {
        infinity(f)
    } else {
        ordinal(f, mag)
    }
}

/// The magnitude at a finite ordinal.
pub open spec fn magnitude(f: Format, ord: nat) -> nat {
    let hidden = pow2((f.prec - 1) as nat);
    let exponent = ord / hidden;
    if exponent == 0 {
        ord
    } else {
        (ord % hidden + hidden) * pow2((exponent - 1) as nat)
    }
}

pub proof fn lemma_excess(q: nat, prec: nat)
    ensures
        excess(q, prec) == 0 ==> q < pow2(prec),
        excess(q, prec) > 0 ==> pow2((prec + excess(q, prec) - 1) as nat) <= q < pow2(
            prec + excess(q, prec),
        ),
    decreases q,
{
    lemma_pow2_pos(prec);
    if !(q < pow2(prec)) {
        lemma_excess(q / 2, prec);
        let j = excess(q / 2, prec);
        assert(excess(q, prec) == 1 + j);
        lemma_pow2_unfold(prec + 1 + j);
        assert((prec + 1 + j - 1) as nat == prec + j);
        if j > 0 {
            lemma_pow2_unfold(prec + j);
        }
    }
}

pub proof fn lemma_excess_unique(q: nat, prec: nat, j: nat)
    requires
        q < pow2(prec + j),
        j > 0 ==> pow2((prec + j - 1) as nat) <= q,
    ensures
        excess(q, prec) == j,
{
    lemma_excess(q, prec);
    let i = excess(q, prec);
    if i < j {
        if prec + i < prec + j - 1 {
            lemma_pow2_strictly_increases(prec + i, (prec + j - 1) as nat);
        }
    }
    if j < i {
        if prec + j < prec + i - 1 {
            lemma_pow2_strictly_increases(prec + j, (prec + i - 1) as nat);
        }
    }
}

/// A quotient and remainder found by any means are the quotient and remainder.
pub proof fn lemma_quotient(num: nat, den: nat, q: nat, r: nat)
    requires
        num == q * den + r,
        r < den,
    ensures
        num / den == q,
        num % den == r,
{
    vstd::arithmetic::div_mod::lemma_fundamental_div_mod_converse(
        num as int,
        den as int,
        q as int,
        r as int,
    );
}

pub proof fn lemma_parts(num: nat, den: nat)
    requires
        den > 0,
    ensures
        num == (num / den) * den + num % den,
        num % den < den,
{
    vstd::arithmetic::div_mod::lemma_fundamental_div_mod(num as int, den as int);
    assert(den * (num / den) == (num / den) * den) by (nonlinear_arith);
}

pub proof fn lemma_half_even_scales(num: nat, den: nat, c: nat)
    requires
        den > 0,
        c > 0,
    ensures
        half_even(num * c, den * c) == half_even(num, den),
{
    let q = num / den;
    let r = num % den;
    lemma_parts(num, den);
    assert(num * c == q * (den * c) + r * c && r * c < den * c && den * c > 0) by (nonlinear_arith)
        requires
            num == q * den + r,
            r < den,
            c > 0,
    ;
    lemma_quotient(num * c, den * c, q, r * c);
    assert((2 * (r * c) > den * c) == (2 * r > den)) by (nonlinear_arith)
        requires
            c > 0,
    ;
    assert((2 * (r * c) == den * c) == (2 * r == den)) by (nonlinear_arith)
        requires
            c > 0,
    ;
}

/// Rounding `num / (den * p)`, `p` even, from the integer part `m` of
/// `num / den` and the knowledge of whether anything was cut off.
pub proof fn lemma_half_even_sticky(num: nat, den: nat, m: nat, sticky: bool, h: nat)
    requires
        den > 0,
        h > 0,
        m * den <= num < (m + 1) * den,
        sticky <==> m * den != num,
    ensures
        ({
            let p = 2 * h;
            let k = m / p;
            let r = m % p;
            half_even(num, den * p) == if r > h || (r == h && (sticky || k % 2 == 1)) {
                k + 1
            } else {
                k
            }
        }),
{
    let p = 2 * h;
    let k = m / p;
    let r = m % p;
    let s = (num - m * den) as nat;
    assert(s < den) by (nonlinear_arith)
        requires
            num < (m + 1) * den,
            s == num - m * den,
    ;
    lemma_parts(m, p);
    let rest = r * den + s;
    assert(num == k * (den * p) + rest) by (nonlinear_arith)
        requires
            m == k * p + r,
            num == m * den + s,
            rest == r * den + s,
    ;
    assert(rest < den * p) by (nonlinear_arith)
        requires
            r + 1 <= p,
            s < den,
            rest == r * den + s,
    ;
    lemma_quotient(num, den * p, k, rest);
    if r > h {
        assert(2 * rest > den * p) by (nonlinear_arith)
            requires
                r >= h + 1,
                p == 2 * h,
                rest == r * den + s,
                den > 0,
        ;
    } else if r == h {
        assert(2 * rest == den * p + 2 * s) by (nonlinear_arith)
            requires
                r == h,
                p == 2 * h,
                rest == r * den + s,
        ;
    } else {
        assert(2 * rest < den * p) by (nonlinear_arith)
            requires
                r + 1 <= h,
                p == 2 * h,
                rest == r * den + s,
                s < den,
        ;
    }
}

/// The ordinal of `k * 2^j` for a significand in range.
pub proof fn lemma_ordinal(f: Format, k: nat, j: nat)
    requires
        f.known(),
        k <= pow2(f.prec as nat),
        j > 0 ==> k >= pow2((f.prec - 1) as nat),
    ensures
        ordinal(f, k * pow2(j)) == j * pow2((f.prec - 1) as nat) + k,
{
    let p = f.prec as nat;
    let hidden = pow2((p - 1) as nat);
    lemma_pow2_unfold(p);
    lemma_pow2_pos((p - 1) as nat);
    lemma_pow2_pos(j);
    lemma_pow2_adds(p, j);
    let mag = k * pow2(j);
    if k < pow2(p) {
        assert(mag < pow2(p + j)) by (nonlinear_arith)
            requires
                mag == k * pow2(j),
                k < pow2(p),
                pow2(p) * pow2(j) == pow2(p + j),
                pow2(j) > 0,
        ;
        if j > 0 {
            lemma_pow2_adds((p - 1) as nat, j);
            assert((p - 1) as nat + j == (p + j - 1) as nat);
            assert(mag >= pow2((p + j - 1) as nat)) by (nonlinear_arith)
                requires
                    mag == k * pow2(j),
                    k >= hidden,
                    hidden * pow2(j) == pow2((p + j - 1) as nat),
            ;
        }
        lemma_excess_unique(mag, p, j);
        lemma_quotient(mag, pow2(j), k, 0);
    } else {
        lemma_pow2_unfold(j + 1);
        lemma_pow2_adds(p, j + 1);
        lemma_pow2_unfold(p + j + 1);
        assert(mag == pow2(p + j));
        lemma_pow2_pos(p + j);
        assert((p + (j + 1)) == p + j + 1);
        assert((p + (j + 1) - 1) as nat == p + j);
        lemma_excess_unique(mag, p, j + 1);
        assert(mag == hidden * pow2(j + 1)) by (nonlinear_arith)
            requires
                mag == k * pow2(j),
                k == 2 * hidden,
                pow2(j + 1) == 2 * pow2(j),
        ;
        lemma_quotient(mag, pow2(j + 1), hidden, 0);
        assert((j + 1) * hidden + hidden == j * hidden + 2 * hidden) by (nonlinear_arith);
    }
}

/// The facts about a truncated quotient that rounding it needs.
pub open spec fn truncated(num: nat, den: nat, m: nat, e: int, sticky: bool) -> bool {
    let n = if e < 0 {
        num * pow2((-e) as nat)
    } else {
        num
    };
    let d = if e < 0 {
        den
    } else {
        den * pow2(e as nat)
    };
    &&& m * d <= n < (m + 1) * d
    &&& sticky <==> m * d != n
}

/// What the rounding of `num / den` comes to, given its first `len` bits `m`.
pub proof fn lemma_rounded(
    f: Format,
    num: nat,
    den: nat,
    m: nat,
    e: int,
    sticky: bool,
    len: nat,
    j: nat,
    drop: nat,
)
    requires
        f.known(),
        den > 0,
        truncated(num, den, m, e, sticky),
        len > f.prec,
        pow2((len - 1) as nat) <= m < pow2(len),
        j == if len + e > f.prec {
            len + e - f.prec
        } else {
            0
        },
        drop == j - e,
    ensures
        drop >= 1,
        ({
            let h = pow2((drop - 1) as nat);
            let k = m / pow2(drop);
            let r = m % pow2(drop);
            let up = r > h || (r == h && (sticky || k % 2 == 1));
            let ord = j * pow2((f.prec - 1) as nat) + k + if up {
                1nat
            } else {
                0nat
            };
            &&& k < pow2(f.prec as nat)
            &&& j > 0 ==> k >= pow2((f.prec - 1) as nat)
            &&& rounded(f, num, den) == if ord < infinity(f) {
                ord
            } else {
                infinity(f)
            }
        }),
{
    let p = f.prec as nat;
    let n = if e < 0 {
        num * pow2((-e) as nat)
    } else {
        num
    };
    let d = if e < 0 {
        den
    } else {
        den * pow2(e as nat)
    };
    let h = pow2((drop - 1) as nat);
    let k = m / pow2(drop);
    let r = m % pow2(drop);
    let up = r > h || (r == h && (sticky || k % 2 == 1));
    let kk = k + if up {
        1nat
    } else {
        0nat
    };
    lemma_pow2_unfold(drop);
    lemma_pow2_pos((drop - 1) as nat);
    lemma_pow2_pos(drop);
    lemma_pow2_pos(j);
    assert(d > 0) by {
        if e >= 0 {
            lemma_pow2_pos(e as nat);
            assert(den * pow2(e as nat) > 0) by (nonlinear_arith)
                requires
                    den > 0,
                    pow2(e as nat) > 0,
            ;
        }
    }
    lemma_half_even_sticky(n, d, m, sticky, h);
    lemma_scale(num, den, e, j, drop);
    assert(half_even(num, den * pow2(j)) == kk);
    lemma_unit_bits(num, den, m, e, sticky, len, p);
    lemma_excess_unique(num / den, p, j);
    // The significand is in range.
    assert(k < pow2(p) && (j > 0 ==> k >= pow2((p - 1) as nat))) by {
        lemma_parts(m, pow2(drop));
        lemma_pow2_adds(p, drop);
        if p + drop > len {
            lemma_pow2_strictly_increases(len, p + drop);
        }
        assert(k < pow2(p)) by (nonlinear_arith)
            requires
                m == k * pow2(drop) + r,
                m < pow2(p) * pow2(drop),
        ;
        if j > 0 {
            lemma_pow2_adds((p - 1) as nat, drop);
            assert((p - 1) as nat + drop == (len - 1) as nat);
            assert(k >= pow2((p - 1) as nat)) by (nonlinear_arith)
                requires
                    m == k * pow2(drop) + r,
                    r < pow2(drop),
                    m >= pow2((p - 1) as nat) * pow2(drop),
            ;
        }
    }
    lemma_ordinal(f, kk, j);
    lemma_overflow(f, kk, j);
}

/// Multiplying out the power of two between the two forms of a quotient.
proof fn lemma_scale(num: nat, den: nat, e: int, j: nat, drop: nat)
    requires
        den > 0,
        drop == j - e,
    ensures
        e < 0 ==> half_even(num * pow2((-e) as nat), den * pow2(drop)) == half_even(
            num,
            den * pow2(j),
        ),
        e >= 0 ==> half_even(num, (den * pow2(e as nat)) * pow2(drop)) == half_even(
            num,
            den * pow2(j),
        ),
{
    lemma_pow2_pos(j);
    if e < 0 {
        let c = pow2((-e) as nat);
        lemma_pow2_pos((-e) as nat);
        lemma_pow2_adds(j, (-e) as nat);
        assert(den * pow2(j) > 0) by (nonlinear_arith)
            requires
                den > 0,
                pow2(j) > 0,
        ;
        lemma_half_even_scales(num, den * pow2(j), c);
        assert((den * pow2(j)) * c == den * pow2(drop)) by (nonlinear_arith)
            requires
                pow2(j) * c == pow2(drop),
        ;
    } else {
        lemma_pow2_adds(e as nat, drop);
        assert((den * pow2(e as nat)) * pow2(drop) == den * pow2(j)) by (nonlinear_arith)
            requires
                pow2(e as nat) * pow2(drop) == pow2(j),
        ;
    }
}

/// How long the integer part of a quotient is, from the length of `m`.
proof fn lemma_unit_bits(num: nat, den: nat, m: nat, e: int, sticky: bool, len: nat, p: nat)
    requires
        den > 0,
        truncated(num, den, m, e, sticky),
        len > p,
        pow2((len - 1) as nat) <= m < pow2(len),
    ensures
        len + e > p ==> pow2((len + e - 1) as nat) <= num / den < pow2((len + e) as nat),
        len + e <= p ==> num / den < pow2(p),
{
    let q = num / den;
    let r = num % den;
    lemma_parts(num, den);
    if e < 0 {
        let c = pow2((-e) as nat);
        lemma_pow2_pos((-e) as nat);
        let top = if len + e > p {
            (len + e) as nat
        } else {
            p
        };
        lemma_pow2_adds(top, (-e) as nat);
        if top + (-e) as nat > len {
            lemma_pow2_strictly_increases(len, top + (-e) as nat);
        }
        assert(q < pow2(top)) by (nonlinear_arith)
            requires
                num == q * den + r,
                num * c < (m + 1) * den,
                m + 1 <= pow2(top) * c,
                c > 0,
        ;
        if len + e > p {
            let low = (len + e - 1) as nat;
            lemma_pow2_adds(low, (-e) as nat);
            assert(low + (-e) as nat == (len - 1) as nat);
            assert(q >= pow2(low)) by (nonlinear_arith)
                requires
                    num == q * den + r,
                    r < den,
                    m * den <= num * c,
                    pow2(low) * c <= m,
                    c > 0,
            ;
        }
    } else {
        let c = pow2(e as nat);
        lemma_pow2_adds(len, e as nat);
        lemma_pow2_adds((len - 1) as nat, e as nat);
        assert((len - 1) as nat + e as nat == (len + e - 1) as nat);
        let a = pow2((len - 1) as nat);
        let b = pow2(len);
        assert(q < b * c) by (nonlinear_arith)
            requires
                num == q * den + r,
                num < (m + 1) * (den * c),
                m + 1 <= b,
        ;
        assert(q >= a * c) by (nonlinear_arith)
            requires
                num == q * den + r,
                r < den,
                m * (den * c) <= num,
                a <= m,
        ;
    }
}

/// A rounded significand overflows exactly when its ordinal reaches infinity.
pub proof fn lemma_overflow(f: Format, k: nat, j: nat)
    requires
        f.known(),
        k <= pow2(f.prec as nat),
        j > 0 ==> k >= pow2((f.prec - 1) as nat),
    ensures
        k * pow2(j) >= pow2((f.prec + f.top) as nat) <==> j * pow2((f.prec - 1) as nat) + k
            >= infinity(f),
{
    let p = f.prec as nat;
    let t = f.top as nat;
    let hidden = pow2((p - 1) as nat);
    lemma_pow2_unfold(p);
    lemma_pow2_pos((p - 1) as nat);
    lemma_pow2_pos(j);
    if j > t {
        lemma_pow2_adds((p - 1) as nat, j);
        if (p - 1) as nat + j > p + t {
            lemma_pow2_strictly_increases(p + t, (p - 1) as nat + j);
        }
        assert(k * pow2(j) >= hidden * pow2(j)) by (nonlinear_arith)
            requires
                k >= hidden,
        ;
        assert(j * hidden + k >= (t + 2) * hidden) by (nonlinear_arith)
            requires
                j >= t + 1,
                k >= hidden,
        ;
    } else if j == t {
        lemma_pow2_adds(p, t);
        assert(k * pow2(j) >= pow2(p) * pow2(t) <==> k >= pow2(p)) by (nonlinear_arith)
            requires
                j == t,
                pow2(j) > 0,
        ;
        assert(t * hidden + k >= (t + 2) * hidden <==> k >= 2 * hidden) by (nonlinear_arith);
    } else {
        lemma_pow2_adds(p, j);
        lemma_pow2_strictly_increases(p + j, p + t);
        assert(k * pow2(j) <= pow2(p) * pow2(j)) by (nonlinear_arith)
            requires
                k <= pow2(p),
        ;
        assert(j * hidden + k < (t + 2) * hidden) by (nonlinear_arith)
            requires
                j + 1 <= t,
                k <= 2 * hidden,
                hidden > 0,
        ;
    }
}

/// The significand of a nearest magnitude is in range.
pub proof fn lemma_nearest(f: Format, num: nat, den: nat)
    requires
        f.known(),
        den > 0,
    ensures
        ({
            let j = excess(num / den, f.prec as nat);
            let k = half_even(num, den * pow2(j));
            &&& k <= pow2(f.prec as nat)
            &&& j > 0 ==> k >= pow2((f.prec - 1) as nat)
        }),
{
    let p = f.prec as nat;
    let q = num / den;
    let j = excess(q, p);
    lemma_excess(q, p);
    lemma_parts(num, den);
    lemma_pow2_pos(j);
    let d = den * pow2(j);
    assert(d > 0) by (nonlinear_arith)
        requires
            d == den * pow2(j),
            den > 0,
            pow2(j) > 0,
    ;
    lemma_parts(num, d);
    lemma_pow2_adds(p, j);
    let r = num % den;
    let k = num / d;
    assert(k < pow2(p)) by (nonlinear_arith)
        requires
            num == q * den + r,
            r < den,
            q < pow2(p) * pow2(j),
            num == k * d + num % d,
            d == den * pow2(j),
            den > 0,
    ;
    if j > 0 {
        lemma_pow2_adds((p - 1) as nat, j);
        assert((p - 1) as nat + j == (p + j - 1) as nat);
        let h = pow2((p - 1) as nat);
        assert(num >= h * d) by (nonlinear_arith)
            requires
                num == q * den + r,
                q >= h * pow2(j),
                d == den * pow2(j),
        ;
        let rest = num % d;
        assert(k >= h) by (nonlinear_arith)
            requires
                num >= h * d,
                num == k * d + rest,
                rest < d,
        ;
    }
}

/// The larger of two fractions has the larger nearest integer.
pub proof fn lemma_half_even_monotone(n1: nat, d1: nat, n2: nat, d2: nat)
    requires
        d1 > 0,
        d2 > 0,
        n1 * d2 <= n2 * d1,
    ensures
        half_even(n1, d1) <= half_even(n2, d2),
        n1 / d1 <= n2 / d2,
{
    let (a, r) = (n1 / d1, n1 % d1);
    let (b, t) = (n2 / d2, n2 % d2);
    lemma_parts(n1, d1);
    lemma_parts(n2, d2);
    assert(a <= b) by (nonlinear_arith)
        requires
            n1 == a * d1 + r,
            n2 == b * d2 + t,
            t < d2,
            n1 * d2 <= n2 * d1,
            d1 > 0,
            d2 > 0,
    ;
    if a == b {
        assert(r * d2 <= t * d1) by (nonlinear_arith)
            requires
                n1 == a * d1 + r,
                n2 == a * d2 + t,
                n1 * d2 <= n2 * d1,
        ;
        if 2 * r >= d1 {
            assert(2 * t >= d2) by (nonlinear_arith)
                requires
                    r * d2 <= t * d1,
                    2 * r >= d1,
                    d1 > 0,
            ;
        }
        if 2 * r > d1 {
            assert(2 * t > d2) by (nonlinear_arith)
                requires
                    r * d2 <= t * d1,
                    2 * r > d1,
                    d1 > 0,
                    d2 > 0,
            ;
        }
    }
}

pub proof fn lemma_excess_monotone(a: nat, b: nat, prec: nat)
    requires
        a <= b,
    ensures
        excess(a, prec) <= excess(b, prec),
{
    lemma_excess(a, prec);
    lemma_excess(b, prec);
    let i = excess(a, prec);
    let j = excess(b, prec);
    if j < i && prec + j < prec + i - 1 {
        lemma_pow2_strictly_increases(prec + j, (prec + i - 1) as nat);
    }
}

/// Rounding keeps the order of fractions.
pub proof fn lemma_rounded_monotone(f: Format, n1: nat, d1: nat, n2: nat, d2: nat)
    requires
        f.known(),
        d1 > 0,
        d2 > 0,
        n1 * d2 <= n2 * d1,
    ensures
        rounded(f, n1, d1) <= rounded(f, n2, d2),
{
    let p = f.prec as nat;
    let hidden = pow2((p - 1) as nat);
    lemma_half_even_monotone(n1, d1, n2, d2);
    lemma_excess_monotone(n1 / d1, n2 / d2, p);
    let i = excess(n1 / d1, p);
    let j = excess(n2 / d2, p);
    let k = half_even(n1, d1 * pow2(i));
    let l = half_even(n2, d2 * pow2(j));
    lemma_nearest(f, n1, d1);
    lemma_nearest(f, n2, d2);
    lemma_ordinal(f, k, i);
    lemma_ordinal(f, l, j);
    lemma_overflow(f, k, i);
    lemma_overflow(f, l, j);
    lemma_pow2_unfold(p);
    lemma_pow2_pos(i);
    if i == j {
        let c = pow2(i);
        assert(n1 * (d2 * c) <= n2 * (d1 * c) && d1 * c > 0 && d2 * c > 0) by (nonlinear_arith)
            requires
                n1 * d2 <= n2 * d1,
                c > 0,
                d1 > 0,
                d2 > 0,
        ;
        lemma_half_even_monotone(n1, d1 * c, n2, d2 * c);
    } else {
        assert(i * hidden + k <= j * hidden + l) by (nonlinear_arith)
            requires
                i + 1 <= j,
                k <= 2 * hidden,
                l >= hidden,
        ;
    }
}

/// A number with few enough bits is held exactly: rounding it and taking its
/// magnitude gives it back.
pub proof fn lemma_held(f: Format, n: nat, e: nat)
    requires
        f.known(),
        n < pow2(f.prec as nat),
        e <= f.top,
    ensures
        rounded(f, n * pow2(e), 1) < infinity(f),
        magnitude(f, rounded(f, n * pow2(e), 1)) == n * pow2(e),
{
    let p = f.prec as nat;
    let hidden = pow2((p - 1) as nat);
    let mag = n * pow2(e);
    lemma_pow2_pos(e);
    lemma_pow2_pos((p - 1) as nat);
    lemma_pow2_unfold(p);
    lemma_quotient(mag, 1, mag, 0);
    let j = excess(mag, p);
    lemma_excess(mag, p);
    // The excess is no more than the power of two, so nothing is cut off.
    assert(j <= e) by {
        if j > e {
            lemma_pow2_adds(p, e);
            if p + e < p + j - 1 {
                lemma_pow2_strictly_increases(p + e, (p + j - 1) as nat);
            }
            assert(mag < pow2(p) * pow2(e)) by (nonlinear_arith)
                requires
                    mag == n * pow2(e),
                    n < pow2(p),
                    pow2(e) > 0,
            ;
        }
    }
    let k = n * pow2((e - j) as nat);
    lemma_pow2_adds((e - j) as nat, j);
    lemma_pow2_pos(j);
    assert(mag == k * pow2(j)) by (nonlinear_arith)
        requires
            mag == n * pow2(e),
            k == n * pow2((e - j) as nat),
            pow2((e - j) as nat) * pow2(j) == pow2(e),
    ;
    lemma_quotient(mag, 1 * pow2(j), k, 0);
    assert(half_even(mag, 1 * pow2(j)) == k);
    lemma_nearest(f, mag, 1);
    lemma_ordinal(f, k, j);
    lemma_overflow(f, k, j);
    let ord = j * hidden + k;
    assert(k < pow2(p)) by {
        lemma_pow2_adds(p, j);
        assert(k < pow2(p)) by (nonlinear_arith)
            requires
                k * pow2(j) < pow2(p) * pow2(j),
        ;
    }
    assert(ord < infinity(f)) by (nonlinear_arith)
        requires
            ord == j * hidden + k,
            k < 2 * hidden,
            j <= f.top,
            infinity(f) == (f.top + 2) as nat * hidden,
    ;
    if j == 0 {
        assert(pow2(0) == 1) by {
            lemma2_to64();
        }
        assert(ord == k && mag == k) by (nonlinear_arith)
            requires
                ord == j * hidden + k,
                mag == k * pow2(j),
                j == 0,
                pow2(j) == 1,
        ;
        assert(0 * hidden == 0 && 1 * hidden == hidden);
        if ord < hidden {
            lemma_quotient(ord, hidden, 0, ord);
        } else {
            lemma_quotient(ord, hidden, 1, (ord - hidden) as nat);
        }
    } else {
        assert(ord == (j + 1) * hidden + (k - hidden)) by (nonlinear_arith)
            requires
                ord == j * hidden + k,
        ;
        lemma_quotient(ord, hidden, j + 1, (k - hidden) as nat);
    }
}

/// Magnitudes stand in the order of their ordinals.
pub proof fn lemma_magnitude_monotone(f: Format, a: nat, b: nat)
    requires
        f.known(),
        a <= b,
    ensures
        magnitude(f, a) <= magnitude(f, b),
{
    let hidden = pow2((f.prec - 1) as nat);
    lemma_pow2_pos((f.prec - 1) as nat);
    lemma_parts(a, hidden);
    lemma_parts(b, hidden);
    let (x, r) = (a / hidden, a % hidden);
    let (y, t) = (b / hidden, b % hidden);
    assert(x <= y) by (nonlinear_arith)
        requires
            a == x * hidden + r,
            b == y * hidden + t,
            t < hidden,
            a <= b,
    ;
    if x == 0 && y > 0 {
        lemma_pow2_pos((y - 1) as nat);
        assert(a <= (t + hidden) * pow2((y - 1) as nat)) by (nonlinear_arith)
            requires
                a == x * hidden + r,
                x == 0,
                r < hidden,
                pow2((y - 1) as nat) > 0,
        ;
    } else if x > 0 && x == y {
        assert((r + hidden) * pow2((x - 1) as nat) <= (t + hidden) * pow2((x - 1) as nat))
            by (nonlinear_arith)
            requires
                r <= t,
        ;
    } else if x > 0 {
        let c = pow2((x - 1) as nat);
        lemma_pow2_unfold(x);
        if x < y - 1 {
            lemma_pow2_strictly_increases(x, (y - 1) as nat);
        }
        lemma_pow2_pos((x - 1) as nat);
        assert((r + hidden) * c <= (t + hidden) * pow2((y - 1) as nat)) by (nonlinear_arith)
            requires
                r < hidden,
                pow2((y - 1) as nat) >= 2 * c,
        ;
    }
}

/// A magnitude of the format is its own rounding.
pub proof fn lemma_magnitude_held(f: Format, ord: nat)
    requires
        f.known(),
        ord < infinity(f),
    ensures
        rounded(f, magnitude(f, ord), 1) == ord,
{
    let p = f.prec as nat;
    let hidden = pow2((p - 1) as nat);
    let mag = magnitude(f, ord);
    lemma_pow2_pos((p - 1) as nat);
    lemma_pow2_unfold(p);
    lemma_parts(ord, hidden);
    let (x, r) = (ord / hidden, ord % hidden);
    let (k, j) = if x == 0 {
        (ord, 0nat)
    } else {
        (r + hidden, (x - 1) as nat)
    };
    assert(ord == j * hidden + k && k < 2 * hidden) by (nonlinear_arith)
        requires
            ord == x * hidden + r,
            r < hidden,
            (x == 0 && k == ord && j == 0) || (x > 0 && k == r + hidden && j == x - 1),
    ;
    assert(pow2(0) == 1) by {
        lemma2_to64();
    }
    assert(mag == k * pow2(j)) by {
        assert(ord * 1 == ord);
    }
    lemma_ordinal(f, k, j);
    lemma_overflow(f, k, j);
    lemma_nearest_held(f, k, j);
}

/// A significand in range, a carry included, is found at its ordinal.
pub proof fn lemma_magnitude_at(f: Format, k: nat, j: nat)
    requires
        f.known(),
        pow2((f.prec - 1) as nat) <= k <= pow2(f.prec as nat),
    ensures
        magnitude(f, j * pow2((f.prec - 1) as nat) + k) == k * pow2(j),
{
    let hidden = pow2((f.prec - 1) as nat);
    let ord = j * hidden + k;
    lemma_pow2_unfold(f.prec as nat);
    lemma_pow2_pos((f.prec - 1) as nat);
    if k < 2 * hidden {
        assert(ord == (j + 1) * hidden + (k - hidden)) by (nonlinear_arith)
            requires
                ord == j * hidden + k,
        ;
        lemma_quotient(ord, hidden, j + 1, (k - hidden) as nat);
    } else {
        assert(ord == (j + 2) * hidden + 0) by (nonlinear_arith)
            requires
                ord == j * hidden + k,
                k == 2 * hidden,
        ;
        lemma_quotient(ord, hidden, j + 2, 0);
        lemma_pow2_unfold(j + 1);
        assert(hidden * (2 * pow2(j)) == (2 * hidden) * pow2(j)) by (nonlinear_arith);
    }
}

/// Rounding a fraction of ordinary size moves it by no more than one part in
/// twice the largest significand.
pub proof fn lemma_relative(f: Format, num: nat, den: nat)
    requires
        f.known(),
        den > 0,
        num >= den * pow2((f.prec - 1) as nat),
        rounded(f, num, den) < infinity(f),
    ensures
        ({
            let mag = magnitude(f, rounded(f, num, den));
            let p = pow2(f.prec as nat);
            &&& (mag * den - num) * p <= num
            &&& (num - mag * den) * p <= num
        }),
{
    let p = f.prec as nat;
    let hidden = pow2((p - 1) as nat);
    let q = num / den;
    let j = excess(q, p);
    let d = den * pow2(j);
    let k = half_even(num, d);
    lemma_pow2_unfold(p);
    lemma_pow2_pos((p - 1) as nat);
    lemma_pow2_pos(j);
    lemma_parts(num, den);
    let r = num % den;
    assert(q >= hidden) by (nonlinear_arith)
        requires
            num == q * den + r,
            r < den,
            num >= den * hidden,
    ;
    assert(d > 0) by (nonlinear_arith)
        requires
            d == den * pow2(j),
            den > 0,
            pow2(j) > 0,
    ;
    lemma_excess(q, p);
    if j > 0 {
        lemma_pow2_adds((p - 1) as nat, j);
        assert((p - 1) as nat + j == (p + j - 1) as nat);
    } else {
        lemma2_to64();
        assert(hidden * 1 == hidden);
    }
    assert(num >= hidden * d) by (nonlinear_arith)
        requires
            num == q * den + r,
            q >= hidden * pow2(j),
            d == den * pow2(j),
    ;
    lemma_parts(num, d);
    let (w, rest) = (num / d, num % d);
    assert(w >= hidden) by (nonlinear_arith)
        requires
            num >= hidden * d,
            num == w * d + rest,
            rest < d,
    ;
    lemma_nearest(f, num, den);
    lemma_ordinal(f, k, j);
    lemma_overflow(f, k, j);
    lemma_magnitude_at(f, k, j);
    let mag = k * pow2(j);
    assert(mag * den == k * d) by (nonlinear_arith)
        requires
            mag == k * pow2(j),
            d == den * pow2(j),
    ;
    assert((w + 1) * d == w * d + d) by (nonlinear_arith);
    assert(2 * (k * d - num) <= d && 2 * (num - k * d) <= d);
    assert((k * d - num) * (2 * hidden) <= num && (num - k * d) * (2 * hidden) <= num)
        by (nonlinear_arith)
        requires
            2 * (k * d - num) <= d,
            2 * (num - k * d) <= d,
            num >= hidden * d,
            hidden > 0,
    ;
}

/// A number with few enough bits is its own nearest magnitude.
proof fn lemma_nearest_held(f: Format, k: nat, j: nat)
    requires
        f.known(),
        k < pow2(f.prec as nat),
        j > 0 ==> k >= pow2((f.prec - 1) as nat),
    ensures
        nearest(f, k * pow2(j), 1) == k * pow2(j),
{
    let p = f.prec as nat;
    let mag = k * pow2(j);
    lemma_pow2_pos(j);
    lemma_pow2_adds(p, j);
    lemma_quotient(mag, 1, mag, 0);
    assert(mag < pow2(p) * pow2(j)) by (nonlinear_arith)
        requires
            mag == k * pow2(j),
            k < pow2(p),
            pow2(j) > 0,
    ;
    if j > 0 {
        lemma_pow2_adds((p - 1) as nat, j);
        assert((p - 1) as nat + j == (p + j - 1) as nat);
        assert(mag >= pow2((p - 1) as nat) * pow2(j)) by (nonlinear_arith)
            requires
                mag == k * pow2(j),
                k >= pow2((p - 1) as nat),
        ;
    }
    lemma_excess_unique(mag, p, j);
    lemma_quotient(mag, 1 * pow2(j), k, 0);
}

/// `2^n`.
pub fn power(n: u32) -> (r: u128)
    requires
        n < 128,
    ensures
        r == pow2(n as nat),
{
    let mut r: u128 = 1;
    let mut i: u32 = 0;
    proof {
        lemma2_to64();
    }
    while i < n
        invariant
            i <= n < 128,
            r == pow2(i as nat),
        decreases n - i,
    {
        proof {
            lemma_pow2_unfold((i + 1) as nat);
            lemma_pow2_127();
            if i + 1 < 127 {
                lemma_pow2_strictly_increases((i + 1) as nat, 127);
            }
        }
        r = r * 2;
        i = i + 1;
    }
    r
}

pub proof fn lemma_pow2_127()
    ensures
        pow2(127) == 0x8000_0000_0000_0000_0000_0000_0000_0000,
{
    lemma2_to64_rest();
    lemma_pow2_adds(64, 63);
}

/// The powers of two that the two formats are laid out by.
pub proof fn lemma_formats()
    ensures
        pow2(23) == 0x80_0000,
        pow2(24) == 0x100_0000,
        pow2(52) == 0x10_0000_0000_0000,
        pow2(53) == 0x20_0000_0000_0000,
        pow2(0) == 1,
{
    lemma2_to64_rest();
    lemma2_to64();
}

/// The number of bits of `m`.
pub fn bit_length(m: u128) -> (len: u32)
    requires
        m > 0,
    ensures
        1 <= len <= 128,
        pow2((len - 1) as nat) <= m < pow2(len as nat),
{
    let mut len: u32 = 0;
    let mut rest: u128 = m;
    let ghost mut unit: nat = 1;
    proof {
        lemma2_to64();
    }
    while rest > 0
        invariant
            unit == pow2(len as nat),
            rest * unit <= m < (rest + 1) * unit,
            m > 0,
            len > 0 || rest > 0,
            len > 0 ==> pow2((len - 1) as nat) <= m,
            len <= 128,
        decreases rest,
    {
        proof {
            lemma_pow2_unfold((len + 1) as nat);
            assert(rest * unit >= unit) by (nonlinear_arith)
                requires
                    rest > 0,
            ;
            lemma_pow2_127();
            if len == 128 {
                lemma_pow2_unfold(128);
            }
            let half = rest / 2;
            assert(half * (2 * unit) <= m < (half + 1) * (2 * unit)) by (nonlinear_arith)
                requires
                    rest * unit <= m < (rest + 1) * unit,
                    2 * half <= rest <= 2 * half + 1,
            ;
            unit = 2 * unit;
        }
        rest = rest / 2;
        len = len + 1;
    }
    assert((rest + 1) * unit == unit) by (nonlinear_arith)
        requires
            rest == 0,
    ;
    len
}

/// The ordinal of `num / den` rounded to the format, from its truncation `m`.
pub(crate) fn round_truncated(
    f: Format,
    m: u128,
    e: i32,
    sticky: bool,
    Ghost(num): Ghost<nat>,
    Ghost(den): Ghost<nat>,
) -> (ord: u64)
    requires
        f.known(),
        den > 0,
        truncated(num, den, m as nat, e as int, sticky),
        pow2(70) <= m < pow2(127),
        -10000 <= e <= 10000,
    ensures
        ord == rounded(f, num, den),
{
    proof {
        lemma_formats();
        lemma_pow2_pos(70);
    }
    let len: u32 = bit_length(m);
    proof {
        if len <= 70 {
            if len < 70 {
                lemma_pow2_strictly_increases(len as nat, 70);
            }
        }
    }
    let reach: i32 = len as i32 + e;
    let j: u32 = if reach > f.prec as i32 {
        (reach - f.prec as i32) as u32
    } else {
        0
    };
    let drop: u32 = (j as i32 - e) as u32;
    proof {
        lemma_rounded(f, num, den, m as nat, e as int, sticky, len as nat, j as nat, drop as nat);
    }
    let hidden: u64 = power(f.prec - 1) as u64;
    assert((f.top + 2) * hidden <= 0x7ff0_0000_0000_0000 && j * hidden <= j
        * 0x10_0000_0000_0000) by (nonlinear_arith)
        requires
            f.top <= 2045,
            hidden <= 0x10_0000_0000_0000,
    ;
    let limit: u64 = (f.top as u64 + 2) * hidden;
    if j > f.top {
        proof {
            let k = m as nat / pow2(drop as nat);
            assert(j * hidden + k >= (f.top + 2) * hidden) by (nonlinear_arith)
                requires
                    j >= f.top + 1,
                    k >= hidden,
            ;
        }
        return limit;
    }
    let (k, up): (u64, bool) = if drop > 127 {
        proof {
            let h = pow2((drop - 1) as nat);
            if drop - 1 > 127 {
                lemma_pow2_strictly_increases(127, (drop - 1) as nat);
            }
            lemma_pow2_unfold(drop as nat);
            lemma_quotient(m as nat, pow2(drop as nat), 0, m as nat);
        }
        (0, false)
    } else {
        proof {
            lemma_pow2_pos(drop as nat);
        }
        let p: u128 = power(drop);
        let h: u128 = power(drop - 1);
        let k: u128 = m / p;
        let r: u128 = m % p;
        (k as u64, r > h || (r == h && (sticky || k % 2 == 1)))
    };
    let ord: u64 = j as u64 * hidden + k + if up {
        1
    } else {
        0
    };
    if ord < limit {
        ord
    } else {
        limit
    }
}

} // verus!
