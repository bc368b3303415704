//! Binary floating-point numbers as plain integers.
//!
//! [`Single`] and [`Double`] hold the two IEEE interchange encodings. Every
//! operation is the correctly rounded one, ties to even, so a machine without
//! a floating-point unit computes the same figures as one that has it. All not-
//! a-numbers are alike: an operation that gives one gives the quiet one.

use vstd::arithmetic::power2::*;
use vstd::prelude::*;

use crate::rounding;
use crate::rounding::Format;

pub mod about;
pub mod bounds;
pub mod nearness;

verus! {

/// What an encoding stands for. A finite magnitude counts units of the
/// smallest positive number of the format.
pub enum Value {
    Nan,
    Infinite { neg: bool },
    Finite { neg: bool, mag: nat },
}

/// The outcome of an operation: a sign and the ordinal of a magnitude.
pub enum Code {
    Nan,
    Number { neg: bool, ord: nat },
}

/// The value at a sign and an ordinal.
pub open spec fn value_of(f: Format, neg: bool, ord: nat) -> Value {
    if ord < rounding::infinity(f) {
        Value::Finite { neg, mag: rounding::magnitude(f, ord) }
    } else if ord == rounding::infinity(f) {
        Value::Infinite { neg }
    } else {
        Value::Nan
    }
}

/// `a * b`.
pub open spec fn product(f: Format, a: Value, b: Value) -> Code {
    match (a, b) {
        (Value::Finite { neg: n, mag: x }, Value::Finite { neg: m, mag: y }) => Code::Number {
            neg: n != m,
            ord: rounding::rounded(f, x * y, pow2(f.unit as nat)),
        },
        (Value::Infinite { neg: n }, Value::Infinite { neg: m }) => Code::Number {
            neg: n != m,
            ord: rounding::infinity(f),
        },
        (Value::Infinite { neg: n }, Value::Finite { neg: m, mag: x })
        | (Value::Finite { neg: n, mag: x }, Value::Infinite { neg: m }) => if x == 0 {
            Code::Nan
        } else {
            Code::Number { neg: n != m, ord: rounding::infinity(f) }
        },
        _ => Code::Nan,
    }
}

/// `a / b`.
pub open spec fn quotient(f: Format, a: Value, b: Value) -> Code {
    match (a, b) {
        (Value::Finite { neg: n, mag: x }, Value::Finite { neg: m, mag: y }) => if y == 0 {
            if x == 0 {
                Code::Nan
            } else {
                Code::Number { neg: n != m, ord: rounding::infinity(f) }
            }
        } else {
            Code::Number { neg: n != m, ord: rounding::rounded(f, x * pow2(f.unit as nat), y) }
        },
        (Value::Infinite { neg: n }, Value::Finite { neg: m, mag: _ }) => Code::Number {
            neg: n != m,
            ord: rounding::infinity(f),
        },
        (Value::Finite { neg: n, mag: _ }, Value::Infinite { neg: m }) => Code::Number {
            neg: n != m,
            ord: 0,
        },
        _ => Code::Nan,
    }
}

/// `a + b`. Opposite finite numbers give a positive zero.
pub open spec fn sum(f: Format, a: Value, b: Value) -> Code {
    match (a, b) {
        (Value::Finite { neg: n, mag: x }, Value::Finite { neg: m, mag: y }) => {
            let s = signed(n, x) + signed(m, y);
            if s == 0 {
                Code::Number { neg: n && m, ord: 0 }
            } else {
                Code::Number { neg: s < 0, ord: rounding::rounded(f, magnitude_of(s), 1) }
            }
        },
        (Value::Infinite { neg: n }, Value::Infinite { neg: m }) => if n == m {
            Code::Number { neg: n, ord: rounding::infinity(f) }
        } else {
            Code::Nan
        },
        (Value::Infinite { neg: n }, Value::Finite { .. }) => Code::Number {
            neg: n,
            ord: rounding::infinity(f),
        },
        (Value::Finite { .. }, Value::Infinite { neg: m }) => Code::Number {
            neg: m,
            ord: rounding::infinity(f),
        },
        _ => Code::Nan,
    }
}

pub open spec fn signed(neg: bool, mag: nat) -> int {
    if neg {
        -(mag as int)
    } else {
        mag as int
    }
}

pub open spec fn magnitude_of(s: int) -> nat {
    if s < 0 {
        (-s) as nat
    } else {
        s as nat
    }
}

/// The whole part of a value, held between zero and `limit`; zero for what is
/// not a number.
pub open spec fn whole_part(f: Format, a: Value, limit: nat) -> nat {
    match a {
        Value::Nan => 0,
        Value::Infinite { neg } => if neg {
            0
        } else {
            limit
        },
        Value::Finite { neg, mag } => if neg {
            0
        } else if mag / pow2(f.unit as nat) < limit {
            mag / pow2(f.unit as nat)
        } else {
            limit
        },
    }
}

/// A finite magnitude as a significand and a power of two.
#[derive(Clone, Copy)]
pub struct Parts {
    pub man: u64,
    pub exp: u32,
}

impl Parts {
    pub open spec fn of(self, f: Format, mag: nat) -> bool {
        &&& mag == self.man * pow2(self.exp as nat)
        &&& self.man < pow2(f.prec as nat)
        &&& self.exp <= f.top
        &&& self.exp > 0 ==> self.man >= pow2((f.prec - 1) as nat)
    }
}

fn hidden_bit(f: Format) -> (h: u64)
    requires
        f.known(),
    ensures
        h == pow2((f.prec - 1) as nat),
        pow2(f.prec as nat) == 2 * h,
        0x80_0000 <= h <= 0x10_0000_0000_0000,
        rounding::infinity(f) == (f.top + 2) * h,
        rounding::infinity(f) <= 0x7ff0_0000_0000_0000,
{
    proof {
        rounding::lemma_formats();
        assert((253 + 2) * 0x80_0000 <= 0x7ff0_0000_0000_0000);
        assert((2045 + 2) * 0x10_0000_0000_0000 <= 0x7ff0_0000_0000_0000);
    }
    rounding::power(f.prec - 1) as u64
}

/// Take the magnitude at a finite ordinal apart.
fn split(f: Format, ord: u64) -> (r: Parts)
    requires
        f.known(),
        ord < rounding::infinity(f),
    ensures
        r.of(f, rounding::magnitude(f, ord as nat)),
{
    let hidden: u64 = hidden_bit(f);
    let exponent: u64 = ord / hidden;
    proof {
        lemma2_to64();
        rounding::lemma_parts(ord as nat, hidden as nat);
        assert(exponent < f.top + 2) by (nonlinear_arith)
            requires
                ord == exponent * hidden + ord % hidden,
                ord < (f.top + 2) * hidden,
        ;
    }
    if exponent == 0 {
        assert(ord < hidden) by (nonlinear_arith)
            requires
                ord == exponent * hidden + ord % hidden,
                exponent == 0,
                ord % hidden < hidden,
        ;
        assert(ord * pow2(0) == ord) by (nonlinear_arith)
            requires
                pow2(0) == 1,
        ;
        Parts { man: ord, exp: 0 }
    } else {
        let r: Parts = Parts { man: ord % hidden + hidden, exp: (exponent - 1) as u32 };
        assert(r.man as nat * pow2(r.exp as nat) == rounding::magnitude(f, ord as nat));
        r
    }
}

/// A truncation that lost nothing can be made longer by a bit.
proof fn lemma_lengthen(num: nat, den: nat, m: nat, e: int)
    requires
        rounding::truncated(num, den, m, e, false),
        den > 0,
    ensures
        rounding::truncated(num, den, 2 * m, e - 1, false),
{
    if e <= 0 {
        lemma_pow2_unfold((1 - e) as nat);
        assert((1 - e - 1) as nat == (-e) as nat);
        let c = pow2((-e) as nat);
        if e == 0 {
            lemma2_to64();
            assert(den * pow2(0) == den && num * c == num) by (nonlinear_arith)
                requires
                    pow2(0) == 1,
                    c == 1,
            ;
        }
        assert(pow2((-(e - 1)) as nat) == 2 * c);
        assert(num * (2 * c) == (2 * m) * den) by (nonlinear_arith)
            requires
                num * c == m * den,
        ;
        assert((2 * m + 1) * den == (2 * m) * den + den) by (nonlinear_arith);
    } else {
        lemma_pow2_unfold(e as nat);
        let c = pow2((e - 1) as nat);
        lemma_pow2_pos((e - 1) as nat);
        assert((2 * m) * (den * c) == m * (den * (2 * c))) by (nonlinear_arith);
        assert((2 * m + 1) * (den * c) > (2 * m) * (den * c)) by (nonlinear_arith)
            requires
                den > 0,
                c > 0,
        ;
    }
}

/// Round an exact `m * 2^e`.
fn round_exact(f: Format, m: u128, e: i32, Ghost(num): Ghost<nat>, Ghost(den): Ghost<nat>) -> (ord:
    u64)
    requires
        f.known(),
        den > 0,
        rounding::truncated(num, den, m as nat, e as int, false),
        m < pow2(127),
        -9000 <= e <= 9000,
    ensures
        ord == rounding::rounded(f, num, den),
{
    if m == 0 {
        proof {
            lemma_rounded_zero(f, num, den, e as int);
        }
        return 0;
    }
    let mut x: u128 = m;
    let mut d: i32 = e;
    proof {
        lemma2_to64_rest();
        lemma_pow2_adds(64, 6);
        lemma2_to64();
        rounding::lemma_pow2_127();
        lemma_pow2_strictly_increases(70, 127);
    }
    let floor: u128 = rounding::power(70);
    let ghost mut left: nat = 71;
    proof {
        lemma_pow2_strictly_increases(70, 71);
    }
    assert(floor <= x * pow2(71)) by (nonlinear_arith)
        requires
            x >= 1,
            floor <= pow2(71),
    ;
    while x < floor
        invariant
            floor == pow2(70),
            pow2(70) == 0x40_0000_0000_0000_0000,
            pow2(127) == 0x8000_0000_0000_0000_0000_0000_0000_0000,
            0 < x < pow2(127),
            rounding::truncated(num, den, x as nat, d as int, false),
            den > 0,
            left <= 71,
            d == e + left - 71,
            floor <= x * pow2(left),
            -9000 <= e <= 9000,
        decreases left,
    {
        proof {
            lemma_lengthen(num, den, x as nat, d as int);
            if left == 0 {
                lemma2_to64();
            } else {
                lemma_pow2_unfold(left);
                assert((2 * x) * pow2((left - 1) as nat) == x * (2 * pow2((left - 1) as nat)))
                    by (nonlinear_arith);
                left = (left - 1) as nat;
            }
        }
        x = x * 2;
        d = d - 1;
    }
    rounding::round_truncated(f, x, d, false, Ghost(num), Ghost(den))
}

/// Nothing rounds to nothing.
proof fn lemma_rounded_zero(f: Format, num: nat, den: nat, e: int)
    requires
        f.known(),
        den > 0,
        rounding::truncated(num, den, 0, e, false),
    ensures
        num == 0,
        rounding::rounded(f, num, den) == 0,
{
    if e < 0 {
        lemma_pow2_pos((-e) as nat);
        assert(num == 0) by (nonlinear_arith)
            requires
                num * pow2((-e) as nat) == 0,
                pow2((-e) as nat) > 0,
        ;
    }
    rounding::lemma_quotient(0, den, 0, 0);
    lemma_pow2_pos(f.prec as nat);
    lemma2_to64();
    assert(rounding::excess(0, f.prec as nat) == 0);
    assert(rounding::half_even(0, den * 1) == 0);
    lemma_pow2_pos((f.prec + f.top) as nat);
    rounding::lemma_quotient(0, 1, 0, 0);
}

/// The ordinal of the product of two magnitudes.
fn multiply(f: Format, a: Parts, b: Parts, Ghost(x): Ghost<nat>, Ghost(y): Ghost<nat>) -> (ord: u64)
    requires
        f.known(),
        a.of(f, x),
        b.of(f, y),
    ensures
        ord == rounding::rounded(f, x * y, pow2(f.unit as nat)),
{
    proof {
        rounding::lemma_formats();
        rounding::lemma_pow2_127();
        assert(a.man * b.man <= 0x20_0000_0000_0000 * 0x20_0000_0000_0000) by (nonlinear_arith)
            requires
                a.man < 0x20_0000_0000_0000,
                b.man < 0x20_0000_0000_0000,
        ;
    }
    let m: u128 = a.man as u128 * b.man as u128;
    let e: i32 = a.exp as i32 + b.exp as i32 - f.unit as i32;
    proof {
        let u = f.unit as nat;
        let i = a.exp as nat;
        let j = b.exp as nat;
        lemma_pow2_adds(i, j);
        lemma_pow2_pos(u);
        let p = pow2(i + j);
        assert(x * y == m * p) by (nonlinear_arith)
            requires
                x == a.man * pow2(i),
                y == b.man * pow2(j),
                m == a.man * b.man,
                p == pow2(i) * pow2(j),
        ;
        if e < 0 {
            lemma_pow2_adds(i + j, (-e) as nat);
            assert((x * y) * pow2((-e) as nat) == m * pow2(u)) by (nonlinear_arith)
                requires
                    x * y == m * p,
                    pow2(u) == p * pow2((-e) as nat),
            ;
            assert((m + 1) * pow2(u) > m * pow2(u)) by (nonlinear_arith)
                requires
                    pow2(u) > 0,
            ;
        } else {
            lemma_pow2_adds(u, e as nat);
            lemma_pow2_pos(i + j);
            assert((m + 1) * p > m * p) by (nonlinear_arith)
                requires
                    p > 0,
            ;
        }
    }
    round_exact(f, m, e, Ghost(x * y), Ghost(pow2(f.unit as nat)))
}

/// Shift a significand up until its top bit stands at `2^52`.
fn align(man: u64) -> (r: (u64, u32))
    requires
        0 < man < 0x20_0000_0000_0000,
    ensures
        r.0 == man * pow2(r.1 as nat),
        0x10_0000_0000_0000 <= r.0 < 0x20_0000_0000_0000,
        r.1 <= 53,
{
    let mut x: u64 = man;
    let mut s: u32 = 0;
    proof {
        lemma2_to64();
        lemma2_to64_rest();
    }
    while x < 0x10_0000_0000_0000
        invariant
            x == man * pow2(s as nat),
            man > 0,
            0 < x < 0x20_0000_0000_0000,
            s <= 53,
            pow2(53) == 0x20_0000_0000_0000,
        decreases 0x20_0000_0000_0000 - x,
    {
        proof {
            lemma_pow2_unfold((s + 1) as nat);
            assert(man * (2 * pow2(s as nat)) == 2 * (man * pow2(s as nat))) by (nonlinear_arith);
            if s == 53 {
                assert(man * pow2(53) >= pow2(53)) by (nonlinear_arith)
                    requires
                        man >= 1,
                ;
            }
        }
        x = x * 2;
        s = s + 1;
    }
    (x, s)
}

/// A quotient is the same however far both of its terms are scaled.
proof fn lemma_same_ratio(n: nat, d: nat, a: nat, b: nat, q: nat)
    requires
        n * b == a * d,
        b > 0,
        d > 0,
        q * b <= a < (q + 1) * b,
    ensures
        q * d <= n < (q + 1) * d,
        q * d == n <==> q * b == a,
{
    assert(q * d <= n) by (nonlinear_arith)
        requires
            n * b == a * d,
            q * b <= a,
            b > 0,
    ;
    assert(n < (q + 1) * d) by (nonlinear_arith)
        requires
            n * b == a * d,
            a < (q + 1) * b,
            b > 0,
            d > 0,
    ;
    if q * d == n {
        assert(q * b == a) by (nonlinear_arith)
            requires
                n * b == a * d,
                q * d == n,
                d > 0,
        ;
    }
    if q * b == a {
        assert(q * d == n) by (nonlinear_arith)
            requires
                n * b == a * d,
                q * b == a,
                b > 0,
        ;
    }
}

/// `x * 2^i * 2^j == x * 2^(i+j)`.
proof fn lemma_shift_twice(x: nat, i: nat, j: nat)
    ensures
        (x * pow2(i)) * pow2(j) == x * pow2(i + j),
{
    lemma_pow2_adds(i, j);
    assert((x * pow2(i)) * pow2(j) == x * (pow2(i) * pow2(j))) by (nonlinear_arith);
}

/// `(x * 2^i) * (y * 2^j) == (x * y) * 2^(i+j)`.
proof fn lemma_shift_product(x: nat, i: nat, y: nat, j: nat)
    ensures
        (x * pow2(i)) * (y * pow2(j)) == (x * y) * pow2(i + j),
{
    lemma_pow2_adds(i, j);
    assert((x * pow2(i)) * (y * pow2(j)) == (x * y) * (pow2(i) * pow2(j))) by (nonlinear_arith);
}

/// The ordinal of `(a * 2^i * 2^unit) / (b * 2^j)`.
fn divide(f: Format, a: u64, i: u32, b: u64, j: u32) -> (ord: u64)
    requires
        f.known(),
        0 < a < 0x20_0000_0000_0000,
        0 < b < 0x20_0000_0000_0000,
        i <= 2045,
        j <= 2045,
    ensures
        ord == rounding::rounded(
            f,
            (a * pow2(i as nat)) as nat * pow2(f.unit as nat),
            (b * pow2(j as nat)) as nat,
        ),
{
    let (x, s): (u64, u32) = align(a);
    let (y, t): (u64, u32) = align(b);
    proof {
        lemma2_to64_rest();
        lemma_pow2_adds(64, 11);
        lemma_pow2_adds(64, 6);
        lemma2_to64();
        rounding::lemma_pow2_127();
        rounding::lemma_formats();
    }
    let scale: u128 = rounding::power(75);
    assert(x * scale < 0x20_0000_0000_0000 * 0x800_0000_0000_0000_0000) by (nonlinear_arith)
        requires
            x < 0x20_0000_0000_0000,
            scale == 0x800_0000_0000_0000_0000,
    ;
    let n: u128 = x as u128 * scale;
    let q: u128 = n / y as u128;
    let r: u128 = n % y as u128;
    let e: i32 = i as i32 - s as i32 + f.unit as i32 - 75 - j as i32 + t as i32;
    let ghost num: nat = (a * pow2(i as nat)) as nat * pow2(f.unit as nat);
    let ghost den: nat = (b * pow2(j as nat)) as nat;
    proof {
        rounding::lemma_parts(n as nat, y as nat);
        assert(q * y <= n < (q + 1) * y) by (nonlinear_arith)
            requires
                n == q * y + r,
                0 <= r < y,
        ;
        assert(pow2(70) <= q) by (nonlinear_arith)
            requires
                pow2(70) == 0x40_0000_0000_0000_0000,
                n == x * 0x800_0000_0000_0000_0000,
                x >= 0x10_0000_0000_0000,
                y < 0x20_0000_0000_0000,
                n < (q + 1) * y,
        ;
        assert(q < 0x4000_0000_0000_0000_0000) by (nonlinear_arith)
            requires
                n < 0x20_0000_0000_0000 * 0x800_0000_0000_0000_0000,
                y >= 0x10_0000_0000_0000,
                q * y <= n,
        ;
        lemma_pow2_pos(j as nat);
        assert(den > 0) by (nonlinear_arith)
            requires
                den == b * pow2(j as nat),
                b > 0,
                pow2(j as nat) > 0,
        ;
        let u = f.unit as nat;
        lemma_shift_twice(a as nat, i as nat, u);
        assert(n == (a * pow2(s as nat)) as nat * pow2(75));
        lemma_shift_twice(a as nat, s as nat, 75);
        let (nn, dd, k, l) = if e < 0 {
            (num * pow2((-e) as nat), den, (-e) as nat, 0nat)
        } else {
            (num, den * pow2(e as nat), 0nat, e as nat)
        };
        lemma_shift_twice(a as nat, i as nat + u, k);
        lemma_shift_twice(b as nat, j as nat, l);
        assert(nn == a as nat * pow2(i as nat + u + k)) by (nonlinear_arith)
            requires
                nn == num * pow2(k) || (k == 0 && nn == num),
                (a as nat * pow2(i as nat + u)) * pow2(k) == a as nat * pow2(i as nat + u + k),
                num == a as nat * pow2(i as nat + u),
        ;
        assert(dd == b as nat * pow2(j as nat + l)) by (nonlinear_arith)
            requires
                dd == den * pow2(l) || (l == 0 && dd == den),
                (b as nat * pow2(j as nat)) * pow2(l) == b as nat * pow2(j as nat + l),
                den == b as nat * pow2(j as nat),
        ;
        lemma_shift_product(a as nat, i as nat + u + k, b as nat, t as nat);
        lemma_shift_product(a as nat, s as nat + 75, b as nat, j as nat + l);
        assert(i as nat + u + k + t as nat == s as nat + 75 + (j as nat + l));
        assert(nn * y as nat == n as nat * dd);
        lemma_pow2_pos(j as nat + l);
        assert(dd > 0) by (nonlinear_arith)
            requires
                dd == b as nat * pow2(j as nat + l),
                b > 0,
                pow2(j as nat + l) > 0,
        ;
        lemma_same_ratio(nn, dd, n as nat, y as nat, q as nat);
        assert(q * y == n <==> r == 0);
    }
    rounding::round_truncated(f, q, e, r != 0, Ghost(num), Ghost(den))
}

/// The single-precision format.
pub open spec fn single() -> Format {
    Format { prec: 24, unit: 149, top: 253 }
}

/// The double-precision format.
pub open spec fn double() -> Format {
    Format { prec: 53, unit: 1074, top: 2045 }
}

fn single_format() -> (f: Format)
    ensures
        f == single(),
        f.known(),
{
    Format { prec: 24, unit: 149, top: 253 }
}

fn double_format() -> (f: Format)
    ensures
        f == double(),
        f.known(),
{
    Format { prec: 53, unit: 1074, top: 2045 }
}

/// Add two magnitudes with their signs, the exponent of the
/// first being the larger one.
fn add_ordered(
    f: Format,
    h: Parts,
    nh: bool,
    l: Parts,
    nl: bool,
    Ghost(x): Ghost<nat>,
    Ghost(y): Ghost<nat>,
) -> (r: (bool, u64))
    requires
        f.known(),
        h.of(f, x),
        l.of(f, y),
        h.exp >= l.exp,
    ensures
        sum(
            f,
            Value::Finite { neg: nh, mag: x },
            Value::Finite { neg: nl, mag: y },
        ) == (Code::Number { neg: r.0, ord: r.1 as nat }),
{
    let d: u32 = h.exp - l.exp;
    let ghost s: int = signed(nh, x) + signed(nl, y);
    let ghost e: nat = l.exp as nat;
    proof {
        rounding::lemma_formats();
        rounding::lemma_pow2_127();
        lemma_pow2_pos(e);
    }
    if d <= 73 {
        proof {
            lemma2_to64_rest();
            lemma_pow2_adds(64, 9);
            lemma2_to64();
            if d < 73 {
                lemma_pow2_strictly_increases(d as nat, 73);
            }
            assert(h.man * pow2(d as nat) < 0x20_0000_0000_0000 * 0x200_0000_0000_0000_0000)
                by (nonlinear_arith)
                requires
                    h.man < 0x20_0000_0000_0000,
                    pow2(d as nat) <= 0x200_0000_0000_0000_0000,
            ;
            lemma_shift_twice(h.man as nat, d as nat, e);
        }
        let big: u128 = h.man as u128 * rounding::power(d);
        let small: u128 = l.man as u128;
        let (neg, m): (bool, u128) = if nh == nl {
            (nh, big + small)
        } else if big >= small {
            (nh, big - small)
        } else {
            (nl, small - big)
        };
        proof {
            assert(x == big * pow2(e) && y == small * pow2(e));
            assert(s == signed(neg, m as nat) * pow2(e)) by (nonlinear_arith)
                requires
                    x == big * pow2(e),
                    y == small * pow2(e),
                    s == signed(nh, x) + signed(nl, y),
                    signed(neg, m as nat) == signed(nh, big as nat) + signed(nl, small as nat),
            ;
            if m > 0 {
                assert(s != 0 && (s < 0 <==> neg) && magnitude_of(s) == m * pow2(e))
                    by (nonlinear_arith)
                    requires
                        s == signed(neg, m as nat) * pow2(e),
                        m > 0,
                        pow2(e) > 0,
                ;
                assert((m + 1) * (1 * pow2(e)) > m * (1 * pow2(e))) by (nonlinear_arith)
                    requires
                        pow2(e) > 0,
                ;
            } else {
                assert(s == 0) by (nonlinear_arith)
                    requires
                        s == signed(neg, m as nat) * pow2(e),
                        m == 0,
                ;
            }
        }
        if m == 0 {
            return (nh && nl, 0);
        }
        return (neg, round_exact(f, m, l.exp as i32, Ghost(magnitude_of(s)), Ghost(1)));
    }
    proof {
        lemma_pow2_pos(h.exp as nat);
        assert(x > 0) by (nonlinear_arith)
            requires
                x == h.man * pow2(h.exp as nat),
                h.man > 0,
                pow2(h.exp as nat) > 0,
        ;
    }
    if l.man == 0 {
        proof {
            assert(y == 0) by (nonlinear_arith)
                requires
                    y == l.man * pow2(e),
                    l.man == 0,
            ;
            assert((h.man + 1) * (1 * pow2(h.exp as nat)) > h.man * (1 * pow2(h.exp as nat)))
                by (nonlinear_arith)
                requires
                    pow2(h.exp as nat) > 0,
            ;
        }
        return (nh, round_exact(f, h.man as u128, h.exp as i32, Ghost(x), Ghost(1)));
    }
    let p: u32 = f.prec;
    let extra: u32 = 74 - p;
    let guard: u128 = rounding::power(extra);
    let ghost hidden: nat = pow2((p - 1) as nat);
    proof {
        lemma2_to64_rest();
        lemma2_to64();
        lemma_pow2_adds(64, 6);
        lemma_pow2_adds(64, 9);
        lemma_pow2_adds(64, 10);
        lemma_pow2_adds((p - 1) as nat, extra as nat);
        lemma_pow2_adds(p as nat, extra as nat);
        assert((p - 1) as nat + extra as nat == 73);
        assert(p as nat + extra as nat == 74);
        lemma_pow2_pos(extra as nat);
        assert(0x200_0000_0000_0000_0000 <= h.man * guard < 0x400_0000_0000_0000_0000)
            by (nonlinear_arith)
            requires
                hidden <= h.man < pow2(p as nat),
                hidden * guard == 0x200_0000_0000_0000_0000,
                pow2(p as nat) * guard == 0x400_0000_0000_0000_0000,
                guard > 0,
        ;
    }
    let near: u128 = h.man as u128 * guard;
    let m: u128 = if nh == nl {
        near
    } else {
        near - 1
    };
    let cut: u32 = h.exp - extra;
    proof {
        let c = pow2(cut as nat);
        lemma_shift_twice(h.man as nat, extra as nat, cut as nat);
        assert(x == near * c);
        lemma_pow2_adds(p as nat, e);
        if p as nat + e < cut {
            lemma_pow2_strictly_increases(p as nat + e, cut as nat);
        }
        assert(0 < y < c) by (nonlinear_arith)
            requires
                y == l.man * pow2(e),
                0 < l.man < pow2(p as nat),
                pow2(e) > 0,
                pow2(p as nat) * pow2(e) <= c,
        ;
        assert(near * c > y) by (nonlinear_arith)
            requires
                near >= 1,
                y < c,
        ;
        assert(s != 0 && (s < 0 <==> nh));
        let n = magnitude_of(s);
        assert(m * (1 * c) < n < (m + 1) * (1 * c)) by (nonlinear_arith)
            requires
                (m == near && n == near * c + y) || (m + 1 == near && n == near * c - y),
                0 < y < c,
        ;
    }
    (
        nh,
        rounding::round_truncated(f, m, cut as i32, true, Ghost(magnitude_of(s)), Ghost(1)),
    )
}

/// The numbers of single precision.
#[derive(Clone, Copy, PartialEq, Eq, Structural, Debug)]
pub struct Single {
    pub bits: u32,
}

/// The numbers of double precision.
#[derive(Clone, Copy, PartialEq, Eq, Structural, Debug)]
pub struct Double {
    pub bits: u64,
}

/// What an ordinal is, with the parts of a finite one.
enum Kind {
    Nan,
    Infinite,
    Finite(Parts),
}

fn kind_of(f: Format, ord: u64) -> (k: Kind)
    requires
        f.known(),
    ensures
        k is Nan <==> ord > rounding::infinity(f),
        k is Infinite <==> ord == rounding::infinity(f),
        k is Finite ==> ord < rounding::infinity(f) && k->0.of(
            f,
            rounding::magnitude(f, ord as nat),
        ),
{
    let limit: u64 = (f.top as u64 + 2) * hidden_bit(f);
    if ord > limit {
        Kind::Nan
    } else if ord == limit {
        Kind::Infinite
    } else {
        Kind::Finite(split(f, ord))
    }
}

/// The outcome an executable operation reports: `None` is not a number.
pub open spec fn code_of(r: Option<(bool, u64)>) -> Code {
    match r {
        None => Code::Nan,
        Some((neg, ord)) => Code::Number { neg, ord: ord as nat },
    }
}

fn product_code(f: Format, n: bool, a: u64, m: bool, b: u64) -> (r: Option<(bool, u64)>)
    requires
        f.known(),
    ensures
        code_of(r) == product(f, value_of(f, n, a as nat), value_of(f, m, b as nat)),
{
    let limit: u64 = (f.top as u64 + 2) * hidden_bit(f);
    match (kind_of(f, a), kind_of(f, b)) {
        (Kind::Finite(x), Kind::Finite(y)) => {
            let ord: u64 = multiply(
                f,
                x,
                y,
                Ghost(rounding::magnitude(f, a as nat)),
                Ghost(rounding::magnitude(f, b as nat)),
            );
            Some((n != m, ord))
        },
        (Kind::Infinite, Kind::Infinite) => Some((n != m, limit)),
        (Kind::Infinite, Kind::Finite(x)) => {
            proof {
                lemma_zero_parts(f, x, rounding::magnitude(f, b as nat));
            }
            if x.man == 0 {
                None
            } else {
                Some((n != m, limit))
            }
        },
        (Kind::Finite(x), Kind::Infinite) => {
            proof {
                lemma_zero_parts(f, x, rounding::magnitude(f, a as nat));
            }
            if x.man == 0 {
                None
            } else {
                Some((n != m, limit))
            }
        },
        _ => None,
    }
}

proof fn lemma_zero_parts(f: Format, p: Parts, mag: nat)
    requires
        p.of(f, mag),
    ensures
        p.man == 0 <==> mag == 0,
{
    lemma_pow2_pos(p.exp as nat);
    assert(p.man == 0 <==> mag == 0) by (nonlinear_arith)
        requires
            mag == p.man * pow2(p.exp as nat),
            pow2(p.exp as nat) > 0,
    ;
}

fn quotient_code(f: Format, n: bool, a: u64, m: bool, b: u64) -> (r: Option<(bool, u64)>)
    requires
        f.known(),
    ensures
        code_of(r) == quotient(f, value_of(f, n, a as nat), value_of(f, m, b as nat)),
{
    let limit: u64 = (f.top as u64 + 2) * hidden_bit(f);
    match (kind_of(f, a), kind_of(f, b)) {
        (Kind::Finite(x), Kind::Finite(y)) => {
            proof {
                lemma_zero_parts(f, x, rounding::magnitude(f, a as nat));
                lemma_zero_parts(f, y, rounding::magnitude(f, b as nat));
                rounding::lemma_formats();
            }
            if y.man == 0 {
                if x.man == 0 {
                    None
                } else {
                    Some((n != m, limit))
                }
            } else if x.man == 0 {
                proof {
                    let den = rounding::magnitude(f, b as nat);
                    assert(0 * pow2(f.unit as nat) == 0);
                    lemma2_to64();
                    assert(0 * (den * pow2(0)) == 0 && (0 + 1) * (den * pow2(0)) == den)
                        by (nonlinear_arith)
                        requires
                            pow2(0) == 1,
                    ;
                    lemma_rounded_zero(f, 0, den, 0);
                }
                Some((n != m, 0))
            } else {
                Some((n != m, divide(f, x.man, x.exp, y.man, y.exp)))
            }
        },
        (Kind::Infinite, Kind::Finite(_)) => Some((n != m, limit)),
        (Kind::Finite(_), Kind::Infinite) => Some((n != m, 0)),
        _ => None,
    }
}

fn sum_code(f: Format, n: bool, a: u64, m: bool, b: u64) -> (r: Option<(bool, u64)>)
    requires
        f.known(),
    ensures
        code_of(r) == sum(f, value_of(f, n, a as nat), value_of(f, m, b as nat)),
{
    let limit: u64 = (f.top as u64 + 2) * hidden_bit(f);
    let ghost x: nat = rounding::magnitude(f, a as nat);
    let ghost y: nat = rounding::magnitude(f, b as nat);
    match (kind_of(f, a), kind_of(f, b)) {
        (Kind::Finite(p), Kind::Finite(q)) => if p.exp >= q.exp {
            Some(add_ordered(f, p, n, q, m, Ghost(x), Ghost(y)))
        } else {
            Some(add_ordered(f, q, m, p, n, Ghost(y), Ghost(x)))
        },
        (Kind::Infinite, Kind::Infinite) => if n == m {
            Some((n, limit))
        } else {
            None
        },
        (Kind::Infinite, Kind::Finite(_)) => Some((n, limit)),
        (Kind::Finite(_), Kind::Infinite) => Some((m, limit)),
        _ => None,
    }
}

/// `floor(man * 2^exp / 2^unit)`, held to `limit`.
fn whole(f: Format, p: Parts, limit: u32, Ghost(mag): Ghost<nat>) -> (r: u32)
    requires
        f.known(),
        mag == p.man * pow2(p.exp as nat),
        p.man < pow2(f.prec as nat),
    ensures
        r == if mag / pow2(f.unit as nat) < limit {
            mag / pow2(f.unit as nat)
        } else {
            limit as nat
        },
{
    proof {
        rounding::lemma_formats();
        rounding::lemma_pow2_127();
        lemma_pow2_pos(f.unit as nat);
        lemma2_to64_rest();
        lemma2_to64();
    }
    let ghost u: nat = f.unit as nat;
    let ghost x: nat = p.exp as nat;
    if p.exp >= f.unit {
        let d: u32 = p.exp - f.unit;
        proof {
            lemma_shift_twice(p.man as nat, d as nat, u);
            rounding::lemma_quotient(mag, pow2(u), (p.man * pow2(d as nat)) as nat, 0);
        }
        if p.man == 0 {
            assert(p.man * pow2(d as nat) == 0) by (nonlinear_arith)
                requires
                    p.man == 0,
            ;
            return 0;
        }
        if d >= 32 {
            proof {
                if d > 32 {
                    lemma_pow2_strictly_increases(32, d as nat);
                }
                assert(p.man * pow2(d as nat) >= pow2(d as nat)) by (nonlinear_arith)
                    requires
                        p.man >= 1,
                ;
            }
            return limit;
        }
        assert(p.man * pow2(d as nat) <= 0x20_0000_0000_0000 * 0x1_0000_0000) by (nonlinear_arith)
            requires
                p.man < 0x20_0000_0000_0000,
                pow2(d as nat) <= 0x1_0000_0000,
        {
        }
        let w: u128 = p.man as u128 * rounding::power(d);
        if w < limit as u128 {
            w as u32
        } else {
            limit
        }
    } else {
        let d: u32 = f.unit - p.exp;
        proof {
            lemma_pow2_adds(x, d as nat);
            lemma_pow2_pos(x);
            lemma_pow2_pos(d as nat);
            let q = p.man as nat / pow2(d as nat);
            let r = p.man as nat % pow2(d as nat);
            rounding::lemma_parts(p.man as nat, pow2(d as nat));
            assert(mag == q * pow2(u) + r * pow2(x) && r * pow2(x) < pow2(u)) by (nonlinear_arith)
                requires
                    mag == p.man * pow2(x),
                    p.man == q * pow2(d as nat) + r,
                    r < pow2(d as nat),
                    pow2(u) == pow2(x) * pow2(d as nat),
                    pow2(x) > 0,
            ;
            rounding::lemma_quotient(mag, pow2(u), q, r * pow2(x));
        }
        if d >= 64 {
            proof {
                if d > 64 {
                    lemma_pow2_strictly_increases(64, d as nat);
                }
                rounding::lemma_quotient(p.man as nat, pow2(d as nat), 0, p.man as nat);
            }
            return 0;
        }
        let w: u128 = p.man as u128 / rounding::power(d);
        if w < limit as u128 {
            w as u32
        } else {
            limit
        }
    }
}

fn whole_code(f: Format, n: bool, a: u64, limit: u32) -> (r: u32)
    requires
        f.known(),
    ensures
        r == whole_part(f, value_of(f, n, a as nat), limit as nat),
{
    match kind_of(f, a) {
        Kind::Nan => 0,
        Kind::Infinite => if n {
            0
        } else {
            limit
        },
        Kind::Finite(x) => if n {
            0
        } else {
            whole(f, x, limit, Ghost(rounding::magnitude(f, a as nat)))
        },
    }
}

/// The ordinal of a whole number.
fn integer_ordinal(f: Format, n: u64) -> (ord: u64)
    requires
        f.known(),
    ensures
        ord == rounding::rounded(f, n as nat * pow2(f.unit as nat), 1),
{
    proof {
        rounding::lemma_pow2_127();
        lemma_pow2_pos(f.unit as nat);
        assert((n + 1) * (1 * pow2(f.unit as nat)) > n * (1 * pow2(f.unit as nat)))
            by (nonlinear_arith)
            requires
                pow2(f.unit as nat) > 0,
        ;
    }
    round_exact(
        f,
        n as u128,
        f.unit as i32,
        Ghost(n as nat * pow2(f.unit as nat)),
        Ghost(1),
    )
}

/// The ordinal of a fraction.
fn fraction_ordinal(f: Format, n: u32, d: u32) -> (ord: u64)
    requires
        f.known(),
        d > 0,
    ensures
        ord == rounding::rounded(f, n as nat * pow2(f.unit as nat), d as nat),
{
    proof {
        lemma2_to64();
        assert(n * pow2(0) == n && d * pow2(0) == d) by (nonlinear_arith)
            requires
                pow2(0) == 1,
        ;
    }
    if n == 0 {
        proof {
            assert(0 * pow2(f.unit as nat) == 0);
            assert(0 * (d * pow2(0)) == 0 && (0 + 1) * (d * pow2(0)) == d) by (nonlinear_arith)
                requires
                    pow2(0) == 1,
            ;
            lemma_rounded_zero(f, 0, d as nat, 0);
        }
        return 0;
    }
    divide(f, n as u64, 0, d as u64, 0)
}

/// Every rounded ordinal is at most infinity.
pub proof fn lemma_rounded_bound(f: Format, num: nat, den: nat)
    requires
        f.known(),
        den > 0,
    ensures
        rounding::rounded(f, num, den) <= rounding::infinity(f),
{
    let p = f.prec as nat;
    let j = rounding::excess(num / den, p);
    let k = rounding::half_even(num, den * pow2(j));
    rounding::lemma_nearest(f, num, den);
    rounding::lemma_ordinal(f, k, j);
    rounding::lemma_overflow(f, k, j);
}

/// A value to the nearest whole number, a half going up, held between zero and
/// `limit`.
pub open spec fn nearest_whole(f: Format, a: Value, limit: nat) -> nat {
    match a {
        Value::Nan => 0,
        Value::Infinite { neg } => if neg {
            0
        } else {
            limit
        },
        Value::Finite { neg, mag } => if neg {
            0
        } else if ((2 * mag) / pow2(f.unit as nat) + 1) / 2 < limit {
            ((2 * mag) / pow2(f.unit as nat) + 1) / 2
        } else {
            limit
        },
    }
}

fn nearest_code(f: Format, n: bool, a: u64, limit: u16) -> (r: u16)
    requires
        f.known(),
    ensures
        r == nearest_whole(f, value_of(f, n, a as nat), limit as nat),
{
    match kind_of(f, a) {
        Kind::Nan => 0,
        Kind::Infinite => if n {
            0
        } else {
            limit
        },
        Kind::Finite(x) => if n {
            0
        } else {
            let twice: Parts = Parts { man: x.man, exp: x.exp + 1 };
            let ghost mag: nat = rounding::magnitude(f, a as nat);
            proof {
                lemma_pow2_unfold((x.exp + 1) as nat);
                assert(x.man * (2 * pow2(x.exp as nat)) == 2 * (x.man * pow2(x.exp as nat)))
                    by (nonlinear_arith);
            }
            let w: u32 = whole(f, twice, 2 * limit as u32 + 1, Ghost(2 * mag));
            let h: u32 = (w + 1) / 2;
            if h < limit as u32 {
                h as u16
            } else {
                limit
            }
        },
    }
}

/// A number as it is written out: its sign, its whole part, and what is left of
/// it in tenths or not at all.
pub enum Shown {
    Nan,
    Infinite(bool),
    Finite { neg: bool, whole: u128, rest: u32 },
}

/// `tens * man * 2^exp / 2^149` to the nearest integer, parted by `tens`.
fn tenths(p: Parts, tens: u32, Ghost(mag): Ghost<nat>) -> (r: (u128, u32))
    requires
        tens == 1 || tens == 10,
        p.of(single(), mag),
    ensures
        r.1 < tens,
        r.0 * tens + r.1 == rounding::half_even(tens as nat * mag, pow2(149)),
{
    proof {
        rounding::lemma_formats();
        lemma2_to64_rest();
        lemma2_to64();
        lemma_pow2_pos(149);
        rounding::lemma_pow2_127();
    }
    let ghost x: nat = p.exp as nat;
    if p.exp >= 149 {
        let d: u32 = p.exp - 149;
        proof {
            lemma_pow2_adds(64, 40);
            if d < 104 {
                lemma_pow2_strictly_increases(d as nat, 104);
            }
            assert(p.man * pow2(d as nat) <= 0xff_ffff * 0x100_0000_0000_0000_0000_0000_0000)
                by (nonlinear_arith)
                requires
                    p.man < 0x100_0000,
                    pow2(d as nat) <= 0x100_0000_0000_0000_0000_0000_0000,
            ;
        }
        let whole: u128 = p.man as u128 * rounding::power(d);
        proof {
            lemma_shift_twice(p.man as nat, d as nat, 149);
            let n = tens as nat * mag;
            assert(n == (whole * tens) as nat * pow2(149)) by (nonlinear_arith)
                requires
                    n == tens * mag,
                    mag == whole * pow2(149),
            ;
            rounding::lemma_quotient(n, pow2(149), (whole * tens) as nat, 0);
        }
        (whole, 0)
    } else {
        let d: u32 = 149 - p.exp;
        let n: u128 = p.man as u128 * tens as u128;
        proof {
            lemma_pow2_adds(d as nat, x);
            lemma_pow2_pos(d as nat);
            lemma_pow2_pos(x);
            assert(tens as nat * mag == n as nat * pow2(x)) by (nonlinear_arith)
                requires
                    mag == p.man * pow2(x),
                    n == p.man * tens,
            ;
            rounding::lemma_half_even_scales(n as nat, pow2(d as nat), pow2(x));
        }
        if d > 64 {
            proof {
                lemma_pow2_strictly_increases(64, d as nat);
                rounding::lemma_quotient(n as nat, pow2(d as nat), 0, n as nat);
            }
            return (0, 0);
        }
        let q: u128 = rounding::power(d);
        let k: u128 = n / q;
        let r: u128 = n % q;
        let near: u128 = if 2 * r > q || (2 * r == q && k % 2 == 1) {
            k + 1
        } else {
            k
        };
        (near / tens as u128, (near % tens as u128) as u32)
    }
}

impl Single {
    pub open spec fn neg(self) -> bool {
        self.bits >= 0x8000_0000
    }

    pub open spec fn ord(self) -> nat {
        self.bits as nat % 0x8000_0000
    }

    pub open spec fn value(self) -> Value {
        value_of(single(), self.neg(), self.ord())
    }

    /// The number an operation's outcome is encoded as.
    pub open spec fn of(c: Code) -> Single {
        match c {
            Code::Nan => Single { bits: 0x7fc0_0000 },
            Code::Number { neg, ord } => Single {
                bits: (ord + if neg {
                    0x8000_0000nat
                } else {
                    0nat
                }) as u32,
            },
        }
    }

    /// The number nearest to `n / d`.
    #[verifier::opaque]
    pub open spec fn nearest(n: nat, d: nat) -> Single {
        Single::of(
            Code::Number { neg: false, ord: rounding::rounded(single(), n * pow2(149), d) },
        )
    }

    /// A whole number, either sign.
    pub open spec fn integer(n: int) -> Single {
        if n < 0 {
            Single::nearest((-n) as nat, 1).negated()
        } else {
            Single::nearest(n as nat, 1)
        }
    }

    pub open spec fn is_nan(self) -> bool {
        self.value() is Nan
    }

    /// Where the number stands in increasing order; both zeros stand at 0.
    pub open spec fn rank(self) -> int {
        signed(self.neg(), self.ord())
    }

    pub open spec fn below(self, other: Single) -> bool {
        !self.is_nan() && !other.is_nan() && self.rank() < other.rank()
    }

    pub open spec fn upto(self, other: Single) -> bool {
        !self.is_nan() && !other.is_nan() && self.rank() <= other.rank()
    }

    #[verifier::opaque]
    pub open spec fn add_spec(self, other: Single) -> Single {
        Single::of(sum(single(), self.value(), other.value()))
    }

    pub open spec fn negated(self) -> Single {
        Single {
            bits: if self.neg() {
                (self.bits - 0x8000_0000) as u32
            } else {
                (self.bits + 0x8000_0000) as u32
            },
        }
    }

    pub open spec fn sub_spec(self, other: Single) -> Single {
        self.add_spec(other.negated())
    }

    #[verifier::opaque]
    pub open spec fn mul_spec(self, other: Single) -> Single {
        Single::of(product(single(), self.value(), other.value()))
    }

    #[verifier::opaque]
    pub open spec fn div_spec(self, other: Single) -> Single {
        Single::of(quotient(single(), self.value(), other.value()))
    }

    pub open spec fn min_spec(self, other: Single) -> Single {
        if self.is_nan() || other.below(self) {
            other
        } else {
            self
        }
    }

    pub open spec fn max_spec(self, other: Single) -> Single {
        if self.is_nan() || self.below(other) {
            other
        } else {
            self
        }
    }

    /// The whole part, held between zero and `limit`.
    #[verifier::opaque]
    pub open spec fn whole(self, limit: nat) -> nat {
        whole_part(single(), self.value(), limit)
    }

    /// The number with this encoding.
    pub fn from_bits(bits: u32) -> (r: Single)
        ensures
            r.bits == bits,
    {
        Single { bits }
    }

    /// The encoding of the number.
    pub fn to_bits(self) -> (r: u32)
        ensures
            r == self.bits,
    {
        self.bits
    }

    fn parts(self) -> (r: (bool, u64))
        ensures
            r.0 == self.neg(),
            r.1 == self.ord(),
    {
        (self.bits >= 0x8000_0000, (self.bits % 0x8000_0000) as u64)
    }

    fn pack(r: Option<(bool, u64)>) -> (s: Single)
        requires
            r matches Some((_, ord)) ==> ord < 0x8000_0000,
        ensures
            s == Single::of(code_of(r)),
    {
        match r {
            None => Single { bits: 0x7fc0_0000 },
            Some((neg, ord)) => Single {
                bits: if neg {
                    ord as u32 + 0x8000_0000
                } else {
                    ord as u32
                },
            },
        }
    }

    /// Positive infinity.
    pub fn infinity() -> (r: Single)
        ensures
            r.bits == 0x7f80_0000,
    {
        Single { bits: 0x7f80_0000 }
    }

    /// A whole number, to the nearest single.
    pub fn from_u32(n: u32) -> (r: Single)
        ensures
            r == Single::nearest(n as nat, 1),
    {
        proof {
            reveal(Single::nearest);
        }
        let f: Format = single_format();
        proof {
            lemma_single_bound(n as nat * pow2(149), 1);
        }
        Single::pack(Some((false, integer_ordinal(f, n as u64))))
    }

    /// A whole number of either sign, to the nearest single.
    pub fn from_i32(n: i32) -> (r: Single)
        requires
            n > i32::MIN,
        ensures
            r == Single::integer(n as int),
    {
        if n < 0 {
            Single::from_u32((-n) as u32).negate()
        } else {
            Single::from_u32(n as u32)
        }
    }

    /// A large whole number, to the nearest single.
    pub fn from_u64(n: u64) -> (r: Single)
        ensures
            r == Single::nearest(n as nat, 1),
    {
        proof {
            reveal(Single::nearest);
        }
        let f: Format = single_format();
        proof {
            lemma_single_bound(n as nat * pow2(149), 1);
        }
        Single::pack(Some((false, integer_ordinal(f, n))))
    }

    /// A fraction, to the nearest single. `ratio(3, 5)` is what `0.6` denotes.
    pub fn ratio(n: u32, d: u32) -> (r: Single)
        requires
            d > 0,
        ensures
            r == Single::nearest(n as nat, d as nat),
    {
        proof {
            reveal(Single::nearest);
        }
        let f: Format = single_format();
        proof {
            lemma_single_bound(n as nat * pow2(149), d as nat);
        }
        Single::pack(Some((false, fraction_ordinal(f, n, d))))
    }

    /// The number with the other sign.
    pub fn negate(self) -> (r: Single)
        ensures
            r == self.negated(),
    {
        if self.bits >= 0x8000_0000 {
            Single { bits: self.bits - 0x8000_0000 }
        } else {
            Single { bits: self.bits + 0x8000_0000 }
        }
    }

    /// The sum.
    pub fn plus(self, other: Single) -> (r: Single)
        ensures
            r == self.add_spec(other),
    {
        proof {
            reveal(Single::add_spec);
        }
        let f: Format = single_format();
        let (n, a): (bool, u64) = self.parts();
        let (m, b): (bool, u64) = other.parts();
        proof {
            rounding::lemma_formats();
            let (x, y) = (rounding::magnitude(f, a as nat), rounding::magnitude(f, b as nat));
            lemma_single_bound(magnitude_of(signed(n, x) + signed(m, y)), 1);
        }
        Single::pack(sum_code(f, n, a, m, b))
    }

    /// The difference.
    pub fn minus(self, other: Single) -> (r: Single)
        ensures
            r == self.sub_spec(other),
    {
        self.plus(other.negate())
    }

    /// The product.
    pub fn times(self, other: Single) -> (r: Single)
        ensures
            r == self.mul_spec(other),
    {
        proof {
            reveal(Single::mul_spec);
        }
        let f: Format = single_format();
        let (n, a): (bool, u64) = self.parts();
        let (m, b): (bool, u64) = other.parts();
        proof {
            rounding::lemma_formats();
            lemma_pow2_pos(149);
            lemma_single_bound(
                rounding::magnitude(f, a as nat) * rounding::magnitude(f, b as nat),
                pow2(149),
            );
        }
        Single::pack(product_code(f, n, a, m, b))
    }

    /// The quotient.
    pub fn over(self, other: Single) -> (r: Single)
        ensures
            r == self.div_spec(other),
    {
        proof {
            reveal(Single::div_spec);
        }
        let f: Format = single_format();
        let (n, a): (bool, u64) = self.parts();
        let (m, b): (bool, u64) = other.parts();
        proof {
            rounding::lemma_formats();
            if rounding::magnitude(f, b as nat) > 0 {
                lemma_single_bound(
                    rounding::magnitude(f, a as nat) * pow2(149),
                    rounding::magnitude(f, b as nat),
                );
            }
        }
        Single::pack(quotient_code(f, n, a, m, b))
    }

    /// The number in tenths, or in whole ones, to the nearest, ties to even.
    pub fn show(self, tens: u32) -> (r: Shown)
        requires
            tens == 1 || tens == 10,
        ensures
            match r {
                Shown::Nan => self.value() is Nan,
                Shown::Infinite(neg) => self.value() == (Value::Infinite { neg }),
                Shown::Finite { neg, whole, rest } => {
                    &&& self.value() matches Value::Finite { neg: n, mag }
                    &&& n == neg
                    &&& rest < tens
                    &&& whole * tens + rest == rounding::half_even(tens as nat * mag, pow2(149))
                },
            },
    {
        let f: Format = single_format();
        let (neg, a): (bool, u64) = self.parts();
        match kind_of(f, a) {
            Kind::Nan => Shown::Nan,
            Kind::Infinite => Shown::Infinite(neg),
            Kind::Finite(p) => {
                let ghost mag: nat = rounding::magnitude(f, a as nat);
                let (whole, rest): (u128, u32) = tenths(p, tens, Ghost(mag));
                Shown::Finite { neg, whole, rest }
            },
        }
    }

    fn signed_rank(self) -> (r: Option<i64>)
        ensures
            r is None <==> self.is_nan(),
            r matches Some(v) ==> v == self.rank(),
    {
        proof {
            rounding::lemma_formats();
        }
        let (n, a): (bool, u64) = self.parts();
        if a > 0x7f80_0000 {
            None
        } else if n {
            Some(-(a as i64))
        } else {
            Some(a as i64)
        }
    }

    /// Whether the number is smaller; never so of what is not a number.
    pub fn lt(self, other: Single) -> (r: bool)
        ensures
            r == self.below(other),
    {
        match (self.signed_rank(), other.signed_rank()) {
            (Some(a), Some(b)) => a < b,
            _ => false,
        }
    }

    /// Whether the number is no larger; never so of what is not a number.
    pub fn le(self, other: Single) -> (r: bool)
        ensures
            r == self.upto(other),
    {
        match (self.signed_rank(), other.signed_rank()) {
            (Some(a), Some(b)) => a <= b,
            _ => false,
        }
    }

    /// The smaller of the two; the other one when one is not a number.
    pub fn min(self, other: Single) -> (r: Single)
        ensures
            r == self.min_spec(other),
    {
        if self.signed_rank().is_none() || other.lt(self) {
            other
        } else {
            self
        }
    }

    /// The larger of the two; the other one when one is not a number.
    pub fn max(self, other: Single) -> (r: Single)
        ensures
            r == self.max_spec(other),
    {
        if self.signed_rank().is_none() || self.lt(other) {
            other
        } else {
            self
        }
    }

    /// The whole part, held to the range of `u32`.
    pub fn to_u32(self) -> (r: u32)
        ensures
            r == self.whole(u32::MAX as nat),
    {
        proof {
            reveal(Single::whole);
        }
        let (n, a): (bool, u64) = self.parts();
        whole_code(single_format(), n, a, u32::MAX)
    }

    /// The whole part, held to the range of `u16`.
    pub fn to_u16(self) -> (r: u16)
        ensures
            r == self.whole(u16::MAX as nat),
    {
        proof {
            reveal(Single::whole);
        }
        let (n, a): (bool, u64) = self.parts();
        whole_code(single_format(), n, a, 0xffff) as u16
    }

    /// The whole part, held to the range of `u8`.
    pub fn to_u8(self) -> (r: u8)
        ensures
            r == self.whole(u8::MAX as nat),
    {
        proof {
            reveal(Single::whole);
        }
        let (n, a): (bool, u64) = self.parts();
        whole_code(single_format(), n, a, 0xff) as u8
    }
}

proof fn lemma_single_bound(num: nat, den: nat)
    requires
        den > 0,
    ensures
        rounding::rounded(single(), num, den) <= 0x7f80_0000,
{
    rounding::lemma_formats();
    lemma_rounded_bound(single(), num, den);
    assert(rounding::infinity(single()) == 255 * pow2(23));
}

proof fn lemma_double_bound(num: nat, den: nat)
    requires
        den > 0,
    ensures
        rounding::rounded(double(), num, den) <= 0x7ff0_0000_0000_0000,
{
    rounding::lemma_formats();
    lemma_rounded_bound(double(), num, den);
    assert(rounding::infinity(double()) == 2047 * pow2(52));
}

impl Double {
    pub open spec fn neg(self) -> bool {
        self.bits >= 0x8000_0000_0000_0000
    }

    pub open spec fn ord(self) -> nat {
        self.bits as nat % 0x8000_0000_0000_0000
    }

    pub open spec fn value(self) -> Value {
        value_of(double(), self.neg(), self.ord())
    }

    /// The number an operation's outcome is encoded as.
    pub open spec fn of(c: Code) -> Double {
        match c {
            Code::Nan => Double { bits: 0x7ff8_0000_0000_0000 },
            Code::Number { neg, ord } => Double {
                bits: (ord + if neg {
                    0x8000_0000_0000_0000nat
                } else {
                    0nat
                }) as u64,
            },
        }
    }

    /// The number nearest to `n / d`.
    #[verifier::opaque]
    pub open spec fn nearest(n: nat, d: nat) -> Double {
        Double::of(
            Code::Number { neg: false, ord: rounding::rounded(double(), n * pow2(1074), d) },
        )
    }

    pub open spec fn is_nan(self) -> bool {
        self.value() is Nan
    }

    /// Where the number stands in increasing order; both zeros stand at 0.
    pub open spec fn rank(self) -> int {
        signed(self.neg(), self.ord())
    }

    pub open spec fn below(self, other: Double) -> bool {
        !self.is_nan() && !other.is_nan() && self.rank() < other.rank()
    }

    pub open spec fn upto(self, other: Double) -> bool {
        !self.is_nan() && !other.is_nan() && self.rank() <= other.rank()
    }

    #[verifier::opaque]
    pub open spec fn add_spec(self, other: Double) -> Double {
        Double::of(sum(double(), self.value(), other.value()))
    }

    pub open spec fn min_spec(self, other: Double) -> Double {
        if self.is_nan() || other.below(self) {
            other
        } else {
            self
        }
    }

    #[verifier::opaque]
    pub open spec fn mul_spec(self, other: Double) -> Double {
        Double::of(product(double(), self.value(), other.value()))
    }

    #[verifier::opaque]
    pub open spec fn div_spec(self, other: Double) -> Double {
        Double::of(quotient(double(), self.value(), other.value()))
    }

    /// The whole part, held between zero and `limit`.
    #[verifier::opaque]
    pub open spec fn whole(self, limit: nat) -> nat {
        whole_part(double(), self.value(), limit)
    }

    /// The nearest whole number, a half going up, held between zero and `limit`.
    #[verifier::opaque]
    pub open spec fn round_spec(self, limit: nat) -> nat {
        nearest_whole(double(), self.value(), limit)
    }

    /// The number with this encoding.
    pub fn from_bits(bits: u64) -> (r: Double)
        ensures
            r.bits == bits,
    {
        Double { bits }
    }

    /// The encoding of the number.
    pub fn to_bits(self) -> (r: u64)
        ensures
            r == self.bits,
    {
        self.bits
    }

    fn parts(self) -> (r: (bool, u64))
        ensures
            r.0 == self.neg(),
            r.1 == self.ord(),
    {
        (self.bits >= 0x8000_0000_0000_0000, self.bits % 0x8000_0000_0000_0000)
    }

    fn pack(r: Option<(bool, u64)>) -> (s: Double)
        requires
            r matches Some((_, ord)) ==> ord < 0x8000_0000_0000_0000,
        ensures
            s == Double::of(code_of(r)),
    {
        match r {
            None => Double { bits: 0x7ff8_0000_0000_0000 },
            Some((neg, ord)) => Double {
                bits: if neg {
                    ord + 0x8000_0000_0000_0000
                } else {
                    ord
                },
            },
        }
    }

    /// A fraction, to the nearest double.
    pub fn ratio(n: u32, d: u32) -> (r: Double)
        requires
            d > 0,
        ensures
            r == Double::nearest(n as nat, d as nat),
    {
        proof {
            reveal(Double::nearest);
        }
        let f: Format = double_format();
        proof {
            lemma_double_bound(n as nat * pow2(1074), d as nat);
        }
        Double::pack(Some((false, fraction_ordinal(f, n, d))))
    }

    /// The sum.
    pub fn plus(self, other: Double) -> (r: Double)
        ensures
            r == self.add_spec(other),
    {
        proof {
            reveal(Double::add_spec);
        }
        let f: Format = double_format();
        let (n, a): (bool, u64) = self.parts();
        let (m, b): (bool, u64) = other.parts();
        proof {
            rounding::lemma_formats();
            let (x, y) = (rounding::magnitude(f, a as nat), rounding::magnitude(f, b as nat));
            lemma_double_bound(magnitude_of(signed(n, x) + signed(m, y)), 1);
        }
        Double::pack(sum_code(f, n, a, m, b))
    }

    /// The smaller of the two; the other one when one is not a number.
    pub fn min(self, other: Double) -> (r: Double)
        ensures
            r == self.min_spec(other),
    {
        if self.signed_rank().is_none() || other.lt(self) {
            other
        } else {
            self
        }
    }

    /// The product.
    pub fn times(self, other: Double) -> (r: Double)
        ensures
            r == self.mul_spec(other),
    {
        proof {
            reveal(Double::mul_spec);
        }
        let f: Format = double_format();
        let (n, a): (bool, u64) = self.parts();
        let (m, b): (bool, u64) = other.parts();
        proof {
            rounding::lemma_formats();
            lemma_pow2_pos(1074);
            lemma_double_bound(
                rounding::magnitude(f, a as nat) * rounding::magnitude(f, b as nat),
                pow2(1074),
            );
        }
        Double::pack(product_code(f, n, a, m, b))
    }

    /// The quotient.
    pub fn over(self, other: Double) -> (r: Double)
        ensures
            r == self.div_spec(other),
    {
        proof {
            reveal(Double::div_spec);
        }
        let f: Format = double_format();
        let (n, a): (bool, u64) = self.parts();
        let (m, b): (bool, u64) = other.parts();
        proof {
            rounding::lemma_formats();
            if rounding::magnitude(f, b as nat) > 0 {
                lemma_double_bound(
                    rounding::magnitude(f, a as nat) * pow2(1074),
                    rounding::magnitude(f, b as nat),
                );
            }
        }
        Double::pack(quotient_code(f, n, a, m, b))
    }

    fn signed_rank(self) -> (r: Option<i128>)
        ensures
            r is None <==> self.is_nan(),
            r matches Some(v) ==> v == self.rank(),
    {
        proof {
            rounding::lemma_formats();
        }
        let (n, a): (bool, u64) = self.parts();
        if a > 0x7ff0_0000_0000_0000 {
            None
        } else if n {
            Some(-(a as i128))
        } else {
            Some(a as i128)
        }
    }

    /// Whether the number stands before another in increasing order.
    pub fn ranks_below(self, other: Double) -> (r: bool)
        ensures
            r == (self.rank() < other.rank()),
    {
        let (n, a): (bool, u64) = self.parts();
        let (m, b): (bool, u64) = other.parts();
        if n {
            if m {
                a > b
            } else {
                a > 0 || b > 0
            }
        } else {
            !m && a < b
        }
    }

    /// Whether the number is smaller; never so of what is not a number.
    pub fn lt(self, other: Double) -> (r: bool)
        ensures
            r == self.below(other),
    {
        match (self.signed_rank(), other.signed_rank()) {
            (Some(a), Some(b)) => a < b,
            _ => false,
        }
    }

    /// Whether the number is no larger; never so of what is not a number.
    pub fn le(self, other: Double) -> (r: bool)
        ensures
            r == self.upto(other),
    {
        match (self.signed_rank(), other.signed_rank()) {
            (Some(a), Some(b)) => a <= b,
            _ => false,
        }
    }

    /// The whole part, held to the range of `u32`.
    pub fn to_u32(self) -> (r: u32)
        ensures
            r == self.whole(u32::MAX as nat),
    {
        proof {
            reveal(Double::whole);
        }
        let (n, a): (bool, u64) = self.parts();
        whole_code(double_format(), n, a, u32::MAX)
    }

    /// The whole part, held to the range of `u8`.
    pub fn to_u8(self) -> (r: u8)
        ensures
            r == self.whole(u8::MAX as nat),
    {
        proof {
            reveal(Double::whole);
        }
        let (n, a): (bool, u64) = self.parts();
        whole_code(double_format(), n, a, 0xff) as u8
    }

    /// The nearest whole number, a half going up, held to the range of `u16`.
    pub fn round_u16(self) -> (r: u16)
        ensures
            r == self.round_spec(u16::MAX as nat),
    {
        proof {
            reveal(Double::round_spec);
        }
        let (n, a): (bool, u64) = self.parts();
        nearest_code(double_format(), n, a, 0xffff)
    }
}

// --- order ------------------------------------------------------------------

impl Single {
    /// A number that is not below zero, infinity among them.
    pub open spec fn nonneg(self) -> bool {
        !self.neg() && !self.is_nan()
    }

    /// A number above zero that is not infinite.
    pub open spec fn positive(self) -> bool {
        !self.neg() && self.value() is Finite && self.ord() > 0
    }
}

proof fn lemma_of_ordinal(ord: nat)
    requires
        ord <= 0x7f80_0000,
    ensures
        ({
            let s = Single::of(Code::Number { neg: false, ord });
            s.nonneg() && s.ord() == ord && s.rank() == ord
        }),
{
    rounding::lemma_formats();
    assert(rounding::infinity(single()) == 255 * pow2(23));
}

/// The larger of two fractions is the larger number.
pub proof fn lemma_nearest_monotone(n1: nat, d1: nat, n2: nat, d2: nat)
    requires
        d1 > 0,
        d2 > 0,
        n1 * d2 <= n2 * d1,
    ensures
        Single::nearest(n1, d1).nonneg(),
        Single::nearest(n2, d2).nonneg(),
        Single::nearest(n1, d1).rank() <= Single::nearest(n2, d2).rank(),
{
    reveal(Single::nearest);
    let u = pow2(149);
    assert((n1 * u) * d2 <= (n2 * u) * d1) by (nonlinear_arith)
        requires
            n1 * d2 <= n2 * d1,
    ;
    rounding::lemma_rounded_monotone(single(), n1 * u, d1, n2 * u, d2);
    lemma_single_bound(n1 * u, d1);
    lemma_single_bound(n2 * u, d2);
    lemma_of_ordinal(rounding::rounded(single(), n1 * u, d1));
    lemma_of_ordinal(rounding::rounded(single(), n2 * u, d2));
}

/// A fraction of ordinary size is a finite number above zero.
pub proof fn lemma_nearest_positive(n: nat, d: nat)
    requires
        0 < n,
        0 < d,
        d <= n * pow2(149),
        n <= d * pow2(100),
    ensures
        Single::nearest(n, d).positive(),
        Single::nearest(n, d).nonneg(),
{
    reveal(Single::nearest);
    let f = single();
    let u = pow2(149);
    let num = n * u;
    rounding::lemma_formats();
    lemma_single_bound(num, d);
    lemma_of_ordinal(rounding::rounded(f, num, d));
    // At least one unit.
    rounding::lemma_rounded_monotone(f, 1, 1, num, d);
    assert(rounding::rounded(f, 1, 1) == 1) by {
        rounding::lemma_quotient(1, 1, 1, 0);
        assert(rounding::excess(1, 24) == 0);
        assert(rounding::half_even(1, 1) == 1);
        lemma_pow2_strictly_increases(0, 277);
        rounding::lemma_ordinal(f, 1, 0);
    }
    // Below infinity.
    let top = pow2(249);
    lemma_pow2_adds(149, 100);
    assert(num * 1 <= top * d) by (nonlinear_arith)
        requires
            num == n * u,
            n <= d * pow2(100),
            top == u * pow2(100),
    ;
    rounding::lemma_rounded_monotone(f, num, d, top, 1);
    assert(rounding::rounded(f, top, 1) == 227 * pow2(23)) by {
        let k = pow2(23);
        lemma_pow2_adds(23, 226);
        lemma_pow2_strictly_increases(249, 250);
        rounding::lemma_quotient(top, 1, top, 0);
        assert(top / 1 == top);
        rounding::lemma_excess_unique(top, 24, 226);
        lemma_pow2_pos(226);
        rounding::lemma_quotient(top, 1 * pow2(226), k, 0);
        assert(rounding::half_even(top, 1 * pow2(226)) == k);
        rounding::lemma_ordinal(f, k, 226);
        lemma_pow2_strictly_increases(249, 277);
    }
    assert(rounding::infinity(f) == 255 * pow2(23));
}

/// Products keep the order of their factors.
pub proof fn lemma_times_monotone(a1: Single, a2: Single, b1: Single, b2: Single)
    requires
        a1.nonneg(),
        a2.nonneg(),
        b1.positive(),
        b2.positive(),
        a1.rank() <= a2.rank(),
        b1.rank() <= b2.rank(),
    ensures
        a1.mul_spec(b1).nonneg(),
        a2.mul_spec(b2).nonneg(),
        a1.mul_spec(b1).rank() <= a2.mul_spec(b2).rank(),
{
    reveal(Single::mul_spec);
    let f = single();
    rounding::lemma_formats();
    assert(rounding::infinity(f) == 255 * pow2(23));
    lemma_pow2_pos(149);
    lemma_of_ordinal(0x7f80_0000);
    lemma_positive_magnitude(b1);
    lemma_positive_magnitude(b2);
    let x = rounding::magnitude(f, b1.ord());
    let y = rounding::magnitude(f, b2.ord());
    rounding::lemma_magnitude_monotone(f, b1.ord(), b2.ord());
    if a1.value() is Finite {
        let p = rounding::magnitude(f, a1.ord()) * x;
        lemma_single_bound(p, pow2(149));
        lemma_of_ordinal(rounding::rounded(f, p, pow2(149)));
        if a2.value() is Finite {
            let q = rounding::magnitude(f, a2.ord()) * y;
            lemma_single_bound(q, pow2(149));
            lemma_of_ordinal(rounding::rounded(f, q, pow2(149)));
            rounding::lemma_magnitude_monotone(f, a1.ord(), a2.ord());
            let (v, w) = (rounding::magnitude(f, a1.ord()), rounding::magnitude(f, a2.ord()));
            assert((v * x) * pow2(149) <= (w * y) * pow2(149)) by (nonlinear_arith)
                requires
                    v <= w,
                    x <= y,
            ;
            rounding::lemma_rounded_monotone(f, p, pow2(149), q, pow2(149));
        }
    }
}

proof fn lemma_positive_magnitude(a: Single)
    requires
        a.positive(),
    ensures
        rounding::magnitude(single(), a.ord()) > 0,
{
    rounding::lemma_formats();
    rounding::lemma_magnitude_monotone(single(), 1, a.ord());
    rounding::lemma_quotient(1, pow2(23), 0, 1);
}

/// Quotients keep the order of their dividends.
pub proof fn lemma_over_monotone(a1: Single, a2: Single, c: Single)
    requires
        a1.nonneg(),
        a2.nonneg(),
        c.positive(),
        a1.rank() <= a2.rank(),
    ensures
        a1.div_spec(c).nonneg(),
        a2.div_spec(c).nonneg(),
        a1.div_spec(c).rank() <= a2.div_spec(c).rank(),
{
    reveal(Single::div_spec);
    let f = single();
    rounding::lemma_formats();
    assert(rounding::infinity(f) == 255 * pow2(23));
    lemma_of_ordinal(0x7f80_0000);
    lemma_positive_magnitude(c);
    let y = rounding::magnitude(f, c.ord());
    if a1.value() is Finite {
        let p = rounding::magnitude(f, a1.ord()) * pow2(149);
        lemma_single_bound(p, y);
        lemma_of_ordinal(rounding::rounded(f, p, y));
        if a2.value() is Finite {
            let q = rounding::magnitude(f, a2.ord()) * pow2(149);
            lemma_single_bound(q, y);
            lemma_of_ordinal(rounding::rounded(f, q, y));
            rounding::lemma_magnitude_monotone(f, a1.ord(), a2.ord());
            let (v, w) = (rounding::magnitude(f, a1.ord()), rounding::magnitude(f, a2.ord()));
            assert((v * pow2(149)) * y <= (w * pow2(149)) * y) by (nonlinear_arith)
                requires
                    v <= w,
            ;
            rounding::lemma_rounded_monotone(f, p, y, q, y);
        }
    }
}

/// Whole parts keep the order of their numbers.
pub proof fn lemma_whole_monotone(a: Single, b: Single, limit: nat)
    requires
        a.nonneg(),
        b.nonneg(),
        a.rank() <= b.rank(),
    ensures
        a.whole(limit) <= b.whole(limit) <= limit,
{
    reveal(Single::whole);
    let f = single();
    lemma_pow2_pos(149);
    if b.value() is Finite {
        rounding::lemma_magnitude_monotone(f, a.ord(), b.ord());
        assert(rounding::magnitude(f, a.ord()) * pow2(149) <= rounding::magnitude(f, b.ord())
            * pow2(149)) by (nonlinear_arith)
            requires
                rounding::magnitude(f, a.ord()) <= rounding::magnitude(f, b.ord()),
        ;
        rounding::lemma_half_even_monotone(
            rounding::magnitude(f, a.ord()),
            pow2(149),
            rounding::magnitude(f, b.ord()),
            pow2(149),
        );
    }
}

/// A whole number that a single holds exactly is its own whole part.
pub proof fn lemma_whole_of_integer(n: nat, limit: nat)
    requires
        n < 0x100_0000,
        n <= limit,
    ensures
        Single::nearest(n, 1).whole(limit) == n,
        Single::nearest(n, 1).nonneg(),
{
    lemma_exact_integer(n);
    reveal(Single::whole);
    let u = pow2(149);
    lemma_pow2_pos(149);
    rounding::lemma_quotient(n * u, u, n, 0);
}

/// A whole number below `2^24` is held exactly.
pub proof fn lemma_exact_integer(n: nat)
    requires
        n < 0x100_0000,
    ensures
        Single::nearest(n, 1).value() == (Value::Finite { neg: false, mag: n * pow2(149) }),
        Single::nearest(n, 1).nonneg(),
{
    reveal(Single::nearest);
    let f = single();
    let num = n * pow2(149);
    rounding::lemma_formats();
    assert(rounding::infinity(f) == 255 * pow2(23));
    lemma_single_bound(num, 1);
    lemma_of_ordinal(rounding::rounded(f, num, 1));
    rounding::lemma_held(f, n, 149);
}

/// The whole part of a smaller number is no larger.
pub proof fn lemma_whole_below(a: Single, b: Single, limit: nat)
    requires
        !a.is_nan(),
        b.nonneg(),
        a.rank() <= b.rank(),
    ensures
        a.whole(limit) <= b.whole(limit),
{
    if a.neg() {
        reveal(Single::whole);
    } else {
        lemma_whole_monotone(a, b, limit);
    }
}

/// Equal fractions are the same number.
pub proof fn lemma_same_fraction(f: Format, n1: nat, d1: nat, n2: nat, d2: nat)
    requires
        f.known(),
        d1 > 0,
        d2 > 0,
        n1 * d2 == n2 * d1,
    ensures
        rounding::rounded(f, n1, d1) == rounding::rounded(f, n2, d2),
{
    rounding::lemma_rounded_monotone(f, n1, d1, n2, d2);
    rounding::lemma_rounded_monotone(f, n2, d2, n1, d1);
}

/// The number that a finite outcome of either sign is encoded as.
proof fn lemma_of_signed(neg: bool, ord: nat)
    requires
        ord <= 0x7f80_0000,
    ensures
        ({
            let s = Single::of(Code::Number { neg, ord });
            s.neg() == neg && s.ord() == ord && !s.is_nan() && s.rank() == signed(neg, ord)
        }),
{
    rounding::lemma_formats();
    assert(rounding::infinity(single()) == 255 * pow2(23));
}

/// The value of a finite number, with its sign.
pub open spec fn worth(a: Single) -> int {
    signed(a.neg(), rounding::magnitude(single(), a.ord()))
}

/// Values stand in the order of their numbers.
pub proof fn lemma_worth_monotone(a: Single, b: Single)
    requires
        a.rank() <= b.rank(),
    ensures
        worth(a) <= worth(b),
{
    rounding::lemma_formats();
    if a.ord() <= b.ord() {
        rounding::lemma_magnitude_monotone(single(), a.ord(), b.ord());
    } else {
        rounding::lemma_magnitude_monotone(single(), b.ord(), a.ord());
    }
}

/// Rounding keeps the order of values of either sign.
proof fn lemma_signed_rounding(s1: int, s2: int, den: nat)
    requires
        den > 0,
        s1 <= s2,
    ensures
        signed(s1 < 0, rounding::rounded(single(), magnitude_of(s1), den)) <= signed(
            s2 < 0,
            rounding::rounded(single(), magnitude_of(s2), den),
        ),
{
    rounding::lemma_formats();
    let (x, y) = (magnitude_of(s1), magnitude_of(s2));
    if x <= y {
        assert(x * den <= y * den) by (nonlinear_arith)
            requires
                x <= y,
        ;
        rounding::lemma_rounded_monotone(single(), x, den, y, den);
    } else {
        assert(y * den <= x * den) by (nonlinear_arith)
            requires
                y <= x,
        ;
        rounding::lemma_rounded_monotone(single(), y, den, x, den);
    }
}

/// Nothing rounds to nothing.
proof fn lemma_zero_rounds(den: nat)
    requires
        den > 0,
    ensures
        rounding::rounded(single(), 0, den) == 0,
{
    rounding::lemma_formats();
    lemma_same_fraction(single(), 0, den, 0, 1);
    rounding::lemma_held(single(), 0, 0);
    lemma2_to64();
    let ord = rounding::rounded(single(), 0, 1);
    if ord > 0 {
        rounding::lemma_magnitude_monotone(single(), 1, ord);
        rounding::lemma_quotient(1, pow2(23), 0, 1);
    }
}

/// Sums keep the order of their parts.
pub proof fn lemma_plus_monotone(a1: Single, a2: Single, b: Single)
    requires
        a1.value() is Finite,
        a2.value() is Finite,
        b.value() is Finite,
        a1.rank() <= a2.rank(),
    ensures
        !a1.add_spec(b).is_nan(),
        !a2.add_spec(b).is_nan(),
        a1.add_spec(b).rank() <= a2.add_spec(b).rank(),
{
    reveal(Single::add_spec);
    lemma_worth_monotone(a1, a2);
    let (s1, s2) = (worth(a1) + worth(b), worth(a2) + worth(b));
    lemma_signed_rounding(s1, s2, 1);
    lemma_zero_rounds(1);
    lemma_single_bound(magnitude_of(s1), 1);
    lemma_single_bound(magnitude_of(s2), 1);
    lemma_of_signed(s1 < 0, rounding::rounded(single(), magnitude_of(s1), 1));
    lemma_of_signed(s2 < 0, rounding::rounded(single(), magnitude_of(s2), 1));
    lemma_of_signed(a1.neg() && b.neg(), 0);
    lemma_of_signed(a2.neg() && b.neg(), 0);
}

/// Products with a number above zero keep the order of the other factor,
/// whatever its sign.
pub proof fn lemma_scaled_monotone(a1: Single, a2: Single, b: Single)
    requires
        a1.value() is Finite,
        a2.value() is Finite,
        b.positive(),
        a1.rank() <= a2.rank(),
    ensures
        !a1.mul_spec(b).is_nan(),
        !a2.mul_spec(b).is_nan(),
        a1.mul_spec(b).rank() <= a2.mul_spec(b).rank(),
{
    reveal(Single::mul_spec);
    let f = single();
    let u = pow2(149);
    lemma_pow2_pos(149);
    lemma_worth_monotone(a1, a2);
    let y = rounding::magnitude(f, b.ord());
    let (x1, x2) = (rounding::magnitude(f, a1.ord()), rounding::magnitude(f, a2.ord()));
    let (s1, s2) = (worth(a1) * y, worth(a2) * y);
    assert(s1 <= s2) by (nonlinear_arith)
        requires
            s1 == worth(a1) * y,
            s2 == worth(a2) * y,
            worth(a1) <= worth(a2),
    ;
    assert(magnitude_of(s1) == x1 * y && (s1 < 0 ==> a1.neg()) && (s1 > 0 ==> !a1.neg()))
        by (nonlinear_arith)
        requires
            s1 == signed(a1.neg(), x1) * y,
    ;
    assert(magnitude_of(s2) == x2 * y && (s2 < 0 ==> a2.neg()) && (s2 > 0 ==> !a2.neg()))
        by (nonlinear_arith)
        requires
            s2 == signed(a2.neg(), x2) * y,
    ;
    lemma_signed_rounding(s1, s2, u);
    lemma_zero_rounds(u);
    lemma_single_bound(x1 * y, u);
    lemma_single_bound(x2 * y, u);
    lemma_of_signed(a1.neg(), rounding::rounded(f, x1 * y, u));
    lemma_of_signed(a2.neg(), rounding::rounded(f, x2 * y, u));
}

/// What lies between finite numbers is finite.
pub proof fn lemma_between_finite(a: Single, x: Single, b: Single)
    requires
        a.value() is Finite,
        b.value() is Finite,
        a.rank() <= x.rank() <= b.rank(),
    ensures
        x.value() is Finite,
{
    rounding::lemma_formats();
    assert(rounding::infinity(single()) == 255 * pow2(23));
}

/// Nothing stands at zero.
pub proof fn lemma_zero_rank()
    ensures
        Single::nearest(0, 1).rank() == 0,
{
    reveal(Single::nearest);
    lemma_zero_rounds(1);
    lemma_of_signed(false, 0);
}

/// A whole number that is held exactly is finite, and above zero where it is.
pub proof fn lemma_count_positive(n: nat)
    requires
        0 < n < 0x100_0000,
    ensures
        Single::nearest(n, 1).positive(),
{
    lemma_exact_integer(n);
    lemma_pow2_pos(149);
    if Single::nearest(n, 1).ord() == 0 {
        lemma_pow2_pos(23);
        rounding::lemma_formats();
        rounding::lemma_quotient(0, pow2(23), 0, 0);
        assert(n * pow2(149) > 0) by (nonlinear_arith)
            requires
                n > 0,
                pow2(149) > 0,
        ;
    }
}

/// One whole number over another is their fraction.
pub proof fn lemma_count_ratio(n: nat, d: nat)
    requires
        n < 0x100_0000,
        0 < d < 0x100_0000,
    ensures
        Single::nearest(n, 1).div_spec(Single::nearest(d, 1)) == Single::nearest(n, d),
{
    reveal(Single::div_spec);
    let u = pow2(149);
    rounding::lemma_formats();
    lemma_pow2_pos(149);
    lemma_exact_integer(n);
    lemma_exact_integer(d);
    assert(d * u > 0 && ((n * u) * u) * d == (n * u) * (d * u)) by (nonlinear_arith)
        requires
            d > 0,
            u > 0,
    ;
    lemma_same_fraction(single(), (n * u) * u, d * u, n * u, d);
    assert(Single::nearest(n, d) == Single::of(
        Code::Number { neg: false, ord: rounding::rounded(single(), n * u, d) },
    )) by {
        reveal(Single::nearest);
    }
}

/// A power of two is held exactly.
pub proof fn lemma_exact_power(p: nat)
    requires
        p <= 100,
    ensures
        Single::nearest(pow2(p), 1).value() == (Value::Finite { neg: false, mag: pow2(149 + p) }),
        Single::nearest(pow2(p), 1).positive(),
        Single::nearest(pow2(p), 1).nonneg(),
{
    reveal(Single::nearest);
    let f = single();
    rounding::lemma_formats();
    assert(rounding::infinity(f) == 255 * pow2(23));
    lemma_pow2_adds(p, 149);
    lemma2_to64();
    rounding::lemma_held(f, 1, 149 + p);
    lemma_single_bound(pow2(p) * pow2(149), 1);
    let ord = rounding::rounded(f, pow2(149 + p), 1);
    lemma_of_ordinal(ord);
    lemma_pow2_pos(149 + p);
    if ord == 0 {
        lemma_pow2_pos(23);
        rounding::lemma_quotient(0, pow2(23), 0, 0);
    }
}

/// Powers of two multiply.
proof fn lemma_power_product(p: nat, q: nat)
    requires
        p + q <= 100,
    ensures
        Single::nearest(pow2(p), 1).mul_spec(Single::nearest(pow2(q), 1)) == Single::nearest(
            pow2(p + q),
            1,
        ),
{
    reveal(Single::mul_spec);
    let f = single();
    lemma_exact_power(p);
    lemma_exact_power(q);
    rounding::lemma_formats();
    lemma_pow2_pos(149);
    lemma_pow2_adds(149 + p, 149 + q);
    lemma_pow2_adds(149 + p + q, 149);
    lemma_pow2_adds(p + q, 149);
    let (x, y, u) = (pow2(149 + p), pow2(149 + q), pow2(149));
    assert((x * y) * 1 == (pow2(p + q) * u) * u) by (nonlinear_arith)
        requires
            x * y == pow2(p + q) * u * u,
    ;
    lemma_same_fraction(f, x * y, u, pow2(p + q) * u, 1);
    assert(Single::nearest(pow2(p + q), 1) == Single::of(
        Code::Number { neg: false, ord: rounding::rounded(f, pow2(p + q) * u, 1) },
    )) by {
        reveal(Single::nearest);
    }
}

/// Whether a number lies between one and a power of two.
pub open spec fn within_power(a: Single, p: nat) -> bool {
    &&& a.positive()
    &&& Single::nearest(1, 1).rank() <= a.rank() <= Single::nearest(pow2(p), 1).rank()
}

pub proof fn lemma_within_power(n: nat, p: nat)
    requires
        1 <= n <= pow2(p),
        n < 0x100_0000,
        p <= 100,
    ensures
        within_power(Single::nearest(n, 1), p),
{
    lemma_count_positive(n);
    lemma_nearest_monotone(1, 1, n, 1);
    lemma_nearest_monotone(n, 1, pow2(p), 1);
}

/// Products of numbers between one and powers of two lie between one and the
/// product of the powers.
pub proof fn lemma_within_product(a: Single, p: nat, b: Single, q: nat)
    requires
        within_power(a, p),
        within_power(b, q),
        p + q <= 100,
    ensures
        within_power(a.mul_spec(b), p + q),
{
    let one = Single::nearest(1, 1);
    lemma2_to64();
    lemma_exact_power(p);
    lemma_exact_power(q);
    lemma_exact_power(p + q);
    lemma_count_positive(1);
    lemma_exact_integer(1);
    lemma_power_product(0, 0);
    lemma_power_product(p, q);
    lemma_times_monotone(one, a, one, b);
    lemma_times_monotone(a, Single::nearest(pow2(p), 1), b, Single::nearest(pow2(q), 1));
    lemma_between_finite(one, a.mul_spec(b), Single::nearest(pow2(p + q), 1));
}

/// A number of halves is above zero, and stays so when it is taken once.
pub proof fn lemma_half_positive(n: nat)
    requires
        1 <= n <= 4,
    ensures
        Single::nearest(n, 2).positive(),
        Single::nearest(0, 1).rank() < Single::nearest(1, 1).mul_spec(
            Single::nearest(n, 2),
        ).rank(),
{
    reveal(Single::mul_spec);
    reveal(Single::nearest);
    let f = single();
    let (u, h) = (pow2(149), pow2(148));
    let ord = rounding::rounded(f, n * u, 2);
    rounding::lemma_formats();
    assert(rounding::infinity(f) == 255 * pow2(23));
    lemma_pow2_pos(148);
    lemma_pow2_pos(23);
    lemma_pow2_unfold(149);
    lemma2_to64();
    rounding::lemma_held(f, n, 148);
    assert((n * u) * 1 == (n * h) * 2) by (nonlinear_arith)
        requires
            u == 2 * h,
    ;
    lemma_same_fraction(f, n * u, 2, n * h, 1);
    lemma_of_ordinal(ord);
    assert(n * h > 0) by (nonlinear_arith)
        requires
            n >= 1,
            h > 0,
    ;
    if ord == 0 {
        rounding::lemma_quotient(0, pow2(23), 0, 0);
    }
    lemma_exact_integer(1);
    lemma_zero_rank();
    assert((u * (n * h)) * 1 == (n * h) * u) by (nonlinear_arith);
    lemma_same_fraction(f, u * (n * h), u, n * h, 1);
}

/// Factors can change places.
pub proof fn lemma_times_commutes(a: Single, b: Single)
    ensures
        a.mul_spec(b) == b.mul_spec(a),
{
    reveal(Single::mul_spec);
    let (x, y) = (
        rounding::magnitude(single(), a.ord()),
        rounding::magnitude(single(), b.ord()),
    );
    assert(x * y == y * x) by (nonlinear_arith);
}

/// The halves that scores are centred with are exact.
pub proof fn lemma_centred()
    ensures
        ({
            let (half, thirty) = (Single::nearest(5, 10), Single::nearest(30, 1));
            let less = half.negated();
            &&& half.value() is Finite
            &&& less.value() is Finite
            &&& Single::nearest(0, 1).add_spec(less) == less
            &&& Single::nearest(1, 1).add_spec(less) == half
            &&& half.mul_spec(thirty) == Single::nearest(15, 1)
            &&& less.mul_spec(thirty) == Single::nearest(15, 1).negated()
        }),
{
    reveal(Single::add_spec);
    reveal(Single::mul_spec);
    let f = single();
    let (u, h) = (pow2(149), pow2(148));
    let half = Single::nearest(5, 10);
    let ord = rounding::rounded(f, h, 1);
    rounding::lemma_formats();
    assert(rounding::infinity(f) == 255 * pow2(23));
    lemma_pow2_pos(149);
    lemma_pow2_unfold(149);
    rounding::lemma_held(f, 1, 148);
    lemma_exact_integer(0);
    lemma_exact_integer(1);
    lemma_exact_integer(30);
    assert(half == Single::of(Code::Number { neg: false, ord })) by {
        reveal(Single::nearest);
        lemma_same_fraction(f, 5 * u, 10, h, 1);
    }
    lemma_of_signed(false, ord);
    lemma_of_signed(true, ord);
    let less = half.negated();
    assert(less == Single::of(Code::Number { neg: true, ord }));
    assert(half.value() == (Value::Finite { neg: false, mag: h }));
    assert(less.value() == (Value::Finite { neg: true, mag: h }));
    let fifteen = rounding::rounded(f, 15 * u, 1);
    assert(Single::nearest(15, 1) == Single::of(Code::Number { neg: false, ord: fifteen })) by {
        reveal(Single::nearest);
    }
    lemma_single_bound(15 * u, 1);
    lemma_of_signed(false, fifteen);
    lemma_of_signed(true, fifteen);
    assert(rounding::rounded(f, h * (30 * u), u) == fifteen) by {
        assert((h * (30 * u)) * 1 == (15 * u) * u) by (nonlinear_arith)
            requires
                u == 2 * h,
        ;
        lemma_same_fraction(f, h * (30 * u), u, 15 * u, 1);
    }
}

/// A double number times a power of two is exact.
pub proof fn lemma_doubled(a: Double, k: nat)
    requires
        !a.neg(),
        a.ord() < 0x7f40_0000_0000_0000,
        k <= 10,
    ensures
        a.mul_spec(Double::nearest(pow2(k), 1)).value() == (Value::Finite {
            neg: false,
            mag: pow2(k) * rounding::magnitude(double(), a.ord()),
        }),
{
    reveal(Double::mul_spec);
    reveal(Double::nearest);
    let f = double();
    let u = pow2(1074);
    let x = rounding::magnitude(f, a.ord());
    rounding::lemma_formats();
    lemma2_to64();
    lemma_pow2_pos(1074);
    lemma_pow2_pos(k);
    assert(rounding::infinity(f) == 2047 * pow2(52));
    // The power of two.
    lemma_pow2_adds(k, 1074);
    rounding::lemma_held(f, 1, (k + 1074) as nat);
    assert(1 * pow2((k + 1074) as nat) == pow2(k) * u);
    let two = rounding::rounded(f, pow2(k) * u, 1);
    lemma_double_bound(pow2(k) * u, 1);
    let b = Double::nearest(pow2(k), 1);
    assert(b.ord() == two && !b.neg());
    assert(b.value() == (Value::Finite { neg: false, mag: pow2(k) * u }));
    // The product.
    let ord = rounding::rounded(f, x * (pow2(k) * u), u);
    assert((x * (pow2(k) * u)) * 1 == (x * pow2(k)) * u) by (nonlinear_arith);
    lemma_same_fraction(f, x * (pow2(k) * u), u, x * pow2(k), 1);
    let hidden = pow2(52);
    let e = a.ord() / hidden;
    rounding::lemma_parts(a.ord(), hidden);
    if e == 0 {
        rounding::lemma_held(f, x, k);
    } else {
        let m = a.ord() % hidden + hidden;
        lemma_pow2_adds((e - 1) as nat, k);
        assert(x * pow2(k) == m * pow2((e - 1 + k) as nat)) by (nonlinear_arith)
            requires
                x == m * pow2((e - 1) as nat),
                pow2((e - 1 + k) as nat) == pow2((e - 1) as nat) * pow2(k),
        ;
        assert(e <= 2036) by (nonlinear_arith)
            requires
                a.ord() < 0x7f40_0000_0000_0000,
                a.ord() == e * hidden + a.ord() % hidden,
                hidden == 0x10_0000_0000_0000,
        ;
        rounding::lemma_held(f, m, (e - 1 + k) as nat);
    }
    assert(x * pow2(k) == pow2(k) * x) by (nonlinear_arith);
    lemma_double_bound(x * pow2(k), 1);
}

} // verus!
