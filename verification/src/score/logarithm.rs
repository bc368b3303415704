//! How near the curve of the scores keeps to the logarithm.
//!
//! A fraction of a power of two is parted into thirty-two. Over each part the
//! curve keeps within its bounds at the ends, and the logarithm within fractions
//! that whole powers show to bound it.

use vstd::arithmetic::power::*;
use vstd::arithmetic::power2::*;
use vstd::prelude::*;

use crate::float;
use crate::float::bounds;
use crate::float::Single;
use crate::rounding;
use crate::score;
use crate::score::curve;

verus! {

/// A number in units of `2^-149`.
pub open spec fn units(x: Single) -> nat {
    rounding::magnitude(float::single(), x.ord())
}

/// Whether the base-2 logarithm of a number is at most `n / d`.
pub open spec fn log_at_most(x: Single, n: int, d: nat) -> bool {
    n + 149 * d >= 0 && pow(units(x) as int, d) <= pow2((n + 149 * d) as nat)
}

/// Whether the base-2 logarithm of a number is at least `n / d`.
pub open spec fn log_at_least(x: Single, n: int, d: nat) -> bool {
    n + 149 * d < 0 || pow2((n + 149 * d) as nat) <= pow(units(x) as int, d)
}

/// The logarithms of 32 to 64, in whole thirty-seconds.
pub open spec fn log_table() -> Seq<nat> {
    seq![
        160, 161, 162, 164, 165, 166, 167, 169, 170, 171, 172,
        173, 174, 175, 176, 177, 178, 179, 180, 181, 182, 183,
        184, 185, 185, 186, 187, 188, 189, 189, 190, 191, 192,
    ]
}

/// A lower bound of the logarithm of `32 + i`, in thirty-seconds.
pub open spec fn log_floor(i: int) -> nat {
    log_table()[i]
}

/// An upper bound of the logarithm of `32 + i`, in thirty-seconds.
pub open spec fn log_ceil(i: int) -> nat {
    if i == 0 || i == 32 {
        log_table()[i]
    } else {
        log_table()[i] + 1
    }
}

/// The thirty-second power.
pub open spec fn raised(n: int) -> int {
    let n2 = n * n;
    let n4 = n2 * n2;
    let n8 = n4 * n4;
    let n16 = n8 * n8;
    n16 * n16
}

proof fn lemma_raised(n: int)
    ensures
        pow(n, 32) == raised(n),
{
    lemma_pow1(n);
    lemma_pow_adds(n, 1, 1);
    lemma_pow_adds(n, 2, 2);
    lemma_pow_adds(n, 4, 4);
    lemma_pow_adds(n, 8, 8);
    lemma_pow_adds(n, 16, 16);
}

/// Powers keep the order of what they are taken of.
proof fn lemma_pow_rises(a: int, b: int, e: nat)
    requires
        0 <= a <= b,
    ensures
        0 <= pow(a, e) <= pow(b, e),
    decreases e,
{
    reveal(pow);
    if e > 0 {
        lemma_pow_rises(a, b, (e - 1) as nat);
        let (x, y) = (pow(a, (e - 1) as nat), pow(b, (e - 1) as nat));
        assert(0 <= a * x <= b * y) by (nonlinear_arith)
            requires
                0 <= a <= b,
                0 <= x <= y,
        ;
    }
}

/// A power of a power of two.
proof fn lemma_pow_of_pow2(p: nat, e: nat)
    ensures
        pow(pow2(p) as int, e) == pow2(p * e),
{
    lemma_pow2(p);
    lemma_pow2(p * e);
    lemma_pow_multiplies(2, p, e);
}

proof fn lemma_pow2_order(p: nat, q: nat)
    requires
        pow2(p) <= pow2(q),
    ensures
        p <= q,
{
    if q < p {
        lemma_pow2_strictly_increases(q, p);
    }
}

/// The thirty-second power of a multiple of a power of two, taken further.
proof fn lemma_scaled_power(n: nat, q: nat, d: nat)
    ensures
        pow(pow((n * pow2(q)) as int, 32), d) == pow(raised(n as int) * pow2(32 * q), d),
        pow((n * pow2(q)) as int, 32 * d) == pow(pow((n * pow2(q)) as int, 32), d),
{
    let x = (n * pow2(q)) as int;
    lemma_pow_distributes(n as int, pow2(q) as int, 32);
    lemma_raised(n as int);
    lemma_pow_of_pow2(q, 32);
    assert(q * 32 == 32 * q);
    lemma_pow_multiplies(x, 32, d);
}

/// A fraction above the logarithm is above its lower bounds.
proof fn lemma_above(mag: nat, n: nat, q: nat, low: nat, a: nat, d: nat)
    requires
        n * pow2(q) <= mag,
        pow2(low) <= raised(n as int),
        pow(mag as int, d) <= pow2(a),
    ensures
        d * (32 * q + low) <= 32 * a,
{
    let x = n * pow2(q);
    let base = raised(n as int) * pow2(32 * q);
    lemma_pow_rises(x as int, mag as int, 32 * d);
    lemma_scaled_power(n, q, d);
    lemma_pow2_adds(low, 32 * q);
    assert(pow2(low + 32 * q) <= base) by (nonlinear_arith)
        requires
            base == raised(n as int) * pow2(32 * q),
            pow2(low + 32 * q) == pow2(low) * pow2(32 * q),
            pow2(low) <= raised(n as int),
    ;
    lemma_pow_rises(pow2(low + 32 * q) as int, base, d);
    lemma_pow_of_pow2(low + 32 * q, d);
    // The other side.
    lemma_pow_multiplies(mag as int, d, 32);
    assert(d * 32 == 32 * d);
    lemma_pow_rises(0, mag as int, d);
    lemma_pow_rises(pow(mag as int, d), pow2(a) as int, 32);
    lemma_pow_of_pow2(a, 32);
    lemma_pow2_order((low + 32 * q) * d, a * 32);
    assert((low + 32 * q) * d == d * (32 * q + low)) by (nonlinear_arith);
}

/// A fraction below the logarithm is below its upper bounds.
proof fn lemma_below(mag: nat, n: nat, q: nat, high: nat, a: nat, d: nat)
    requires
        mag <= n * pow2(q),
        raised(n as int) <= pow2(high),
        pow2(a) <= pow(mag as int, d),
    ensures
        32 * a <= d * (32 * q + high),
{
    let x = n * pow2(q);
    let base = raised(n as int) * pow2(32 * q);
    lemma_pow_rises(mag as int, x as int, 32 * d);
    lemma_scaled_power(n, q, d);
    lemma_pow2_adds(high, 32 * q);
    lemma_pow2_pos(32 * q);
    lemma_raised(n as int);
    lemma_pow_rises(0, n as int, 32);
    assert(0 <= base <= pow2(high + 32 * q)) by (nonlinear_arith)
        requires
            base == raised(n as int) * pow2(32 * q),
            pow2(high + 32 * q) == pow2(high) * pow2(32 * q),
            0 <= raised(n as int) <= pow2(high),
            pow2(32 * q) > 0,
    ;
    lemma_pow_rises(base, pow2(high + 32 * q) as int, d);
    lemma_pow_of_pow2(high + 32 * q, d);
    lemma_pow_multiplies(mag as int, d, 32);
    assert(d * 32 == 32 * d);
    lemma_pow_rises(pow2(a) as int, pow(mag as int, d), 32);
    lemma_pow_of_pow2(a, 32);
    lemma_pow2_order(a * 32, (high + 32 * q) * d);
    assert((high + 32 * q) * d == d * (32 * q + high)) by (nonlinear_arith);
}

proof fn lemma_large_power(p: nat)
    requires
        128 <= p,
    ensures
        pow2(p) == 0x1_0000_0000_0000_0000_0000_0000_0000_0000 * pow2((p - 128) as nat),
{
    lemma2_to64_rest();
    lemma_pow2_adds(64, 64);
    lemma_pow2_adds(128, (p - 128) as nat);
}

/// The thirty-second power by its squares.
proof fn lemma_squares(n: int, n2: int, n4: int, n8: int, n16: int, n32: int)
    requires
        n2 == n * n,
        n4 == n2 * n2,
        n8 == n4 * n4,
        n16 == n8 * n8,
        n32 == n16 * n16,
    ensures
        raised(n) == n32,
{
}

/// The table bounds the logarithms.
proof fn lemma_table(i: int)
    requires
        0 <= i <= 32,
    ensures
        pow2(log_floor(i)) <= raised(32 + i) <= pow2(log_ceil(i)),
        160 <= log_floor(i) <= 192,
{
    lemma2_to64();
    lemma2_to64_rest();
    lemma_large_power(log_floor(i));
    lemma_large_power(log_ceil(i));
    if i == 0 {
        lemma_squares(
            32,
            1024,
            1048576,
            0x10000000000,
            0x100000000000000000000,
            0x10000000000000000000000000000000000000000int,
        );
    } else if i == 1 {
        lemma_squares(
            33,
            1089,
            1185921,
            0x147747c7101,
            0x1a2dacae9b37492d9e201,
            0x2ad4f39a164e3f6a5c0df916d159176221137c401int,
        );
    } else if i == 2 {
        lemma_squares(
            34,
            1156,
            1336336,
            0x19fc99c8100,
            0x2a34f4831603f79010000,
            0x6f56b2f420463eef1a52a8cdf87aff20100000000int,
        );
    } else if i == 3 {
        lemma_squares(
            35,
            1225,
            1500625,
            0x20c4e3b94a1,
            0x431d05bd0cf87f4808d41,
            0x1198344b41bff10a677dfe468d6d29665f76f0aa81int,
        );
    } else if i == 4 {
        lemma_squares(
            36,
            1296,
            1679616,
            0x290d7410000,
            0x6954fe21e3e8100000000,
            0x2b56d4af8f7932278c797ebd010000000000000000int,
        );
    } else if i == 5 {
        lemma_squares(
            37,
            1369,
            1874161,
            0x331d01712e1,
            0xa3491dc6c00e405d269c1,
            0x682630cd17624fe83500cd8f0951c644db3653e381int,
        );
    } else if i == 6 {
        lemma_squares(
            38,
            1444,
            2085136,
            0x3f44c9b2100,
            0xfa2edc1696198fa410000,
            0xf47f8e6ff27eb1b6217e62946163d3048100000000int,
        );
    } else if i == 7 {
        lemma_squares(
            39,
            1521,
            2313441,
            0x4de1c9c5dc1,
            0x17b19a855336c09d8dcb81,
            0x23164fafe9595e01b06e3808bfe8728e7a607dfd701int,
        );
    } else if i == 8 {
        lemma_squares(
            40,
            1600,
            2560000,
            0x5f5e1000000,
            0x2386f26fc1000000000000,
            0x4ee2d6d415b85acef81000000000000000000000000int,
        );
    } else if i == 9 {
        lemma_squares(
            41,
            1681,
            2825761,
            0x74322a1c041,
            0x34bd7ffddd8d4aa6239081,
            0xadd88455ed8668590d6dc504fcc1e49c8ec20d76101int,
        );
    } else if i == 10 {
        lemma_squares(
            42,
            1764,
            3111696,
            0x8ce6b086100,
            0x4d8d20f44c1d5c34c10000,
            0x177e33a047237df7d3dd00ed3fc1af96f98100000000int,
        );
    } else if i == 11 {
        lemma_squares(
            43,
            1849,
            3418801,
            0xaa15f068e61,
            0x7101252ca487d8f9bbc0c1,
            0x31e202d2b8ff25f466dcbe184be5b5079a5a9d181181int,
        );
    } else if i == 12 {
        lemma_squares(
            44,
            1936,
            3748096,
            0xcc6db610000,
            0xa33f092e0b1ac100000000,
            0x681955362721ce00ddaaab61c5810000000000000000int,
        );
    } else if i == 13 {
        lemma_squares(
            45,
            2025,
            4100625,
            0xf4b13936521,
            0xe9e24fbfb6553631d90e41,
            0xd5adbd3be13ced34999617415c967729fcea0cfd2c81int,
        );
    } else if i == 14 {
        lemma_squares(
            46,
            2116,
            4477456,
            0x123bb2ce4100,
            0x14c7310e9196e90ac810000,
            0x1afbaa794cc819802897398252933615d990100000000int,
        );
    } else if i == 15 {
        lemma_squares(
            47,
            2209,
            4879681,
            0x15a7ff487a81,
            0x1d4fe20f33a76e0212f3501,
            0x35b3224beb4a85d13d98358654715863ae21ec3576a01int,
        );
    } else if i == 16 {
        lemma_squares(
            48,
            2304,
            5308416,
            0x19a100000000,
            0x290d7410000000000000000,
            0x6954fe21e3e8100000000000000000000000000000000int,
        );
    } else if i == 17 {
        lemma_squares(
            49,
            2401,
            5764801,
            0x1e39a5057d81,
            0x3918fa8303c33586e913b01,
            0xcbc21fe4561c8d63b78e780e1341e199417c8c0bb7601int,
        );
    } else if i == 18 {
        lemma_squares(
            50,
            2500,
            6250000,
            0x2386f26fc100,
            0x4ee2d6d415b85acef810000,
            0x184f03e93ff9f4daa797ed6e38ed64bf6a1f0100000000int,
        );
    } else if i == 19 {
        lemma_squares(
            51,
            2601,
            6765201,
            0x29a02e140621,
            0x6c4b2fc0b496f04d14d9041,
            0x2dcf865f9c317e90a4caaec7b79a3253b69d123a633081int,
        );
    } else if i == 20 {
        lemma_squares(
            52,
            2704,
            7311616,
            0x309f10210000,
            0x93c08e16a02244100000000,
            0x5546b4036cb4a93665904c6a2658810000000000000000int,
        );
    } else if i == 21 {
        lemma_squares(
            53,
            2809,
            7890481,
            0x389ff6bb1561,
            0xc865fe6438b144ca97f0ec1,
            0x9cdf861f5074bf18f0d22194e263eff98deb227657ad81int,
        );
    } else if i == 22 {
        lemma_squares(
            54,
            2916,
            8503056,
            0x41c21cb8e100,
            0x10e425c56daffabc35c10000,
            0x11d500bfaf40ac5044981798db5fb39f2c17b8100000000int,
        );
    } else if i == 23 {
        lemma_squares(
            55,
            3025,
            9150625,
            0x4c27d39fa541,
            0x16a7abd8f3b37fc5d76ada81,
            0x2013f5af24c5b94a8bd990909ed0e8fbaeaf0285b53f501int,
        );
    } else if i == 24 {
        lemma_squares(
            56,
            3136,
            9834496,
            0x57f6c1000000,
            0x1e39a5057d81000000000000,
            0x3918fa8303c33586e913b01000000000000000000000000int,
        );
    } else if i == 25 {
        lemma_squares(
            57,
            3249,
            10556001,
            0x65581f53c8c1,
            0x281ea70da9d7b4ba88942181,
            0x64997dfd94a0b5ac4c888b2a6398a21a7e9d0c3d18a8301int,
        );
    } else if i == 26 {
        lemma_squares(
            58,
            3364,
            11316496,
            0x7479027ea100,
            0x34fde3761da26b26e1410000,
            0xaf820335d9b3d9cf58b911d87035677fb7f528100000000int,
        );
    } else if i == 27 {
        lemma_squares(
            59,
            3481,
            12117361,
            0x858aa0135be1,
            0x45a95565166f0ce4045fbbc1,
            0x12f4b80a5a0bc46263903ed2542cbb14c191a972eaf18781int,
        );
    } else if i == 28 {
        lemma_squares(
            60,
            3600,
            12960000,
            0x98c29b810000,
            0x5b27ac993df9770100000000,
            0x20753adafd1e839f53686d013143ee010000000000000000int,
        );
    } else if i == 29 {
        lemma_squares(
            61,
            3721,
            13845841,
            0xae5b564ac3a1,
            0x76c049e4182c41bbda92ab41,
            0x3715d48d31c0f00015e19f1faadbaf26963352a87cb3e681int,
        );
    } else if i == 30 {
        lemma_squares(
            62,
            3844,
            14776336,
            0xc694446f0100,
            0x9a09afbae83050a9de010000,
            0x5cafa7cab31f865a521fdfc032f3abd77dd7bc0100000000int,
        );
    } else if i == 31 {
        lemma_squares(
            63,
            3969,
            15752961,
            0xe1b24521be01,
            0xc6fad9a98595304313477c01,
            0x9aa8fe8012cc82c2955405c54bc55c2f4a88f8e42a9ef801int,
        );
    } else if i == 32 {
        lemma_squares(
            64,
            4096,
            16777216,
            0x1000000000000,
            0x1000000000000000000000000,
            0x1000000000000000000000000000000000000000000000000int,
        );
    }
}

/// The lower bound of the cubic by its products.
proof fn lemma_low(lo: int, square: int, cube: int, rest: int)
    requires
        square == lo * lo,
        cube == curve::down(square) * lo,
        rest == (4096 - lo) * (4096 - lo),
    ensures
        curve::cubic_low(lo) == curve::down(2954 * (4096 - curve::up(rest))) + curve::down(
            1141 * curve::down(cube),
        ),
{
}

/// The upper bound of the cubic by its products.
proof fn lemma_high(hi: int, square: int, cube: int, rest: int)
    requires
        square == hi * hi,
        cube == curve::up(square) * hi,
        rest == (4096 - hi) * (4096 - hi),
    ensures
        curve::cubic_high(hi) == curve::up(2955 * (4096 - curve::down(rest))) + curve::up(
            1142 * curve::up(cube),
        ),
{
}

/// Over each part the curve stays within a tenth of the logarithm's bounds.
proof fn lemma_near(i: int)
    requires
        0 <= i < 32,
    ensures
        10 * curve::cubic_high(128 * (i + 1)) < 1280 * log_floor(i) - 204_800 + 4096,
        10 * curve::cubic_low(128 * i) > 1280 * log_ceil(i + 1) - 204_800 - 4096,
{
    if i == 0 {
        lemma_low(0, 0, 0, 16777216);
        lemma_high(128, 16384, 512, 15745024);
    } else if i == 1 {
        lemma_low(128, 16384, 512, 15745024);
        lemma_high(256, 65536, 4096, 14745600);
    } else if i == 2 {
        lemma_low(256, 65536, 4096, 14745600);
        lemma_high(384, 147456, 13824, 13778944);
    } else if i == 3 {
        lemma_low(384, 147456, 13824, 13778944);
        lemma_high(512, 262144, 32768, 12845056);
    } else if i == 4 {
        lemma_low(512, 262144, 32768, 12845056);
        lemma_high(640, 409600, 64000, 11943936);
    } else if i == 5 {
        lemma_low(640, 409600, 64000, 11943936);
        lemma_high(768, 589824, 110592, 11075584);
    } else if i == 6 {
        lemma_low(768, 589824, 110592, 11075584);
        lemma_high(896, 802816, 175616, 10240000);
    } else if i == 7 {
        lemma_low(896, 802816, 175616, 10240000);
        lemma_high(1024, 1048576, 262144, 9437184);
    } else if i == 8 {
        lemma_low(1024, 1048576, 262144, 9437184);
        lemma_high(1152, 1327104, 373248, 8667136);
    } else if i == 9 {
        lemma_low(1152, 1327104, 373248, 8667136);
        lemma_high(1280, 1638400, 512000, 7929856);
    } else if i == 10 {
        lemma_low(1280, 1638400, 512000, 7929856);
        lemma_high(1408, 1982464, 681472, 7225344);
    } else if i == 11 {
        lemma_low(1408, 1982464, 681472, 7225344);
        lemma_high(1536, 2359296, 884736, 6553600);
    } else if i == 12 {
        lemma_low(1536, 2359296, 884736, 6553600);
        lemma_high(1664, 2768896, 1124864, 5914624);
    } else if i == 13 {
        lemma_low(1664, 2768896, 1124864, 5914624);
        lemma_high(1792, 3211264, 1404928, 5308416);
    } else if i == 14 {
        lemma_low(1792, 3211264, 1404928, 5308416);
        lemma_high(1920, 3686400, 1728000, 4734976);
    } else if i == 15 {
        lemma_low(1920, 3686400, 1728000, 4734976);
        lemma_high(2048, 4194304, 2097152, 4194304);
    } else if i == 16 {
        lemma_low(2048, 4194304, 2097152, 4194304);
        lemma_high(2176, 4734976, 2515456, 3686400);
    } else if i == 17 {
        lemma_low(2176, 4734976, 2515456, 3686400);
        lemma_high(2304, 5308416, 2985984, 3211264);
    } else if i == 18 {
        lemma_low(2304, 5308416, 2985984, 3211264);
        lemma_high(2432, 5914624, 3511808, 2768896);
    } else if i == 19 {
        lemma_low(2432, 5914624, 3511808, 2768896);
        lemma_high(2560, 6553600, 4096000, 2359296);
    } else if i == 20 {
        lemma_low(2560, 6553600, 4096000, 2359296);
        lemma_high(2688, 7225344, 4741632, 1982464);
    } else if i == 21 {
        lemma_low(2688, 7225344, 4741632, 1982464);
        lemma_high(2816, 7929856, 5451776, 1638400);
    } else if i == 22 {
        lemma_low(2816, 7929856, 5451776, 1638400);
        lemma_high(2944, 8667136, 6229504, 1327104);
    } else if i == 23 {
        lemma_low(2944, 8667136, 6229504, 1327104);
        lemma_high(3072, 9437184, 7077888, 1048576);
    } else if i == 24 {
        lemma_low(3072, 9437184, 7077888, 1048576);
        lemma_high(3200, 10240000, 8000000, 802816);
    } else if i == 25 {
        lemma_low(3200, 10240000, 8000000, 802816);
        lemma_high(3328, 11075584, 8998912, 589824);
    } else if i == 26 {
        lemma_low(3328, 11075584, 8998912, 589824);
        lemma_high(3456, 11943936, 10077696, 409600);
    } else if i == 27 {
        lemma_low(3456, 11943936, 10077696, 409600);
        lemma_high(3584, 12845056, 11239424, 262144);
    } else if i == 28 {
        lemma_low(3584, 12845056, 11239424, 262144);
        lemma_high(3712, 13778944, 12487168, 147456);
    } else if i == 29 {
        lemma_low(3712, 13778944, 12487168, 147456);
        lemma_high(3840, 14745600, 13824000, 65536);
    } else if i == 30 {
        lemma_low(3840, 14745600, 13824000, 65536);
        lemma_high(3968, 15745024, 15252992, 16384);
    } else if i == 31 {
        lemma_low(3968, 15745024, 15252992, 16384);
        lemma_high(4096, 16777216, 16777216, 0);
    }
}

/// The curve is the logarithm to within a tenth: whatever fraction bounds the
/// logarithm of a normal number from above or below, a tenth added to it or
/// taken off bounds the curve.
pub proof fn law_the_curve_is_a_logarithm(x: Single, n: int, d: nat)
    requires
        x.positive(),
        x.ord() >= 0x80_0000,
        d > 0,
    ensures
        log_at_most(x, n, d) ==> 10 * d * float::worth(score::log2_spec(x)) < (10 * n + d)
            * pow2(149),
        log_at_least(x, n, d) ==> 10 * d * float::worth(score::log2_spec(x)) > (10 * n - d)
            * pow2(149),
{
    let ord = x.ord();
    let (e, r) = (ord / 0x80_0000, ord % 0x80_0000);
    let i = (r / 0x4_0000) as int;
    let mag = units(x);
    let q = (e + 17) as nat;
    rounding::lemma_formats();
    assert(rounding::infinity(float::single()) == 255 * pow2(23));
    assert(1 <= e <= 254 && 0 <= i < 32);
    assert(curve::exponent(x) == e - 127);
    assert(mag == (r + 0x80_0000) * pow2((e - 1) as nat));
    lemma_pow2_adds(18, (e - 1) as nat);
    lemma_pow2_pos((e - 1) as nat);
    lemma2_to64();
    assert((32 + i) * pow2(q) <= mag <= (33 + i) * pow2(q)) by (nonlinear_arith)
        requires
            mag == (r + 0x80_0000) * pow2((e - 1) as nat),
            pow2(q) == 0x4_0000 * pow2((e - 1) as nat),
            0x4_0000 * i <= r < 0x4_0000 * (i + 1),
            pow2((e - 1) as nat) > 0,
    ;
    curve::lemma_log2(x, 128 * i, 128 * (i + 1));
    lemma_table(i);
    lemma_table(i + 1);
    lemma_near(i);
    let t = float::worth(score::log2_spec(x));
    bounds::lemma_grains(
        score::log2_spec(x),
        4096 * (e - 127) + curve::cubic_low(128 * i),
        4096 * (e - 127) + curve::cubic_high(128 * (i + 1)),
    );
    let g = bounds::grain();
    if log_at_most(x, n, d) {
        let a = (n + 149 * d) as nat;
        lemma_above(mag, (32 + i) as nat, q, log_floor(i), a, d);
        lemma_less_than_a_tenth_over(
            t,
            g,
            e as int,
            curve::cubic_high(128 * (i + 1)),
            log_floor(i) as int,
            n,
            d,
        );
    }
    if log_at_least(x, n, d) {
        if n + 149 * d >= 0 {
            let a = (n + 149 * d) as nat;
            lemma_below(mag, (33 + i) as nat, q, log_ceil(i + 1), a, d);
        }
        lemma_less_than_a_tenth_under(
            t,
            g,
            e as int,
            curve::cubic_low(128 * i),
            log_ceil(i + 1) as int,
            n,
            d,
        );
    }
}

/// The arithmetic of the bounds from above.
proof fn lemma_less_than_a_tenth_over(t: int, g: nat, e: int, high: int, low: int, n: int, d: nat)
    requires
        t <= (4096 * (e - 127) + high) * g,
        g > 0,
        d > 0,
        10 * high < 1280 * low - 204_800 + 4096,
        d * (32 * (e + 17) + low) <= 32 * (n + 149 * d),
    ensures
        10 * d * t < (10 * n + d) * (4096 * g),
{
    // In grains and tenths, per unit of the denominator.
    let left = 10 * (4096 * (e - 127) + high);
    assert(left * g == 10 * ((4096 * (e - 127) + high) * g)) by (nonlinear_arith)
        requires
            left == 10 * (4096 * (e - 127) + high),
    ;
    let right = 40_960 * (e - 132) + 1280 * low + 4096;
    assert(left < right);
    assert(d * right <= 4096 * (10 * n + d)) by (nonlinear_arith)
        requires
            right == 40_960 * (e - 132) + 1280 * low + 4096,
            d * (32 * (e + 17) + low) <= 32 * (n + 149 * d),
    ;
    assert(10 * d * t < (10 * n + d) * (4096 * g)) by (nonlinear_arith)
        requires
            10 * t <= left * g,
            left < right,
            d * right <= 4096 * (10 * n + d),
            g > 0,
            d > 0,
    {
        assert(d * (10 * t) <= d * (left * g));
        assert(d * (left * g) == (d * left) * g);
        assert(d * left < d * right);
        assert((d * left) * g < (d * right) * g);
        assert((d * right) * g <= (4096 * (10 * n + d)) * g);
    }
}

/// The arithmetic of the bounds from below.
proof fn lemma_less_than_a_tenth_under(t: int, g: nat, e: int, low: int, high: int, n: int, d: nat)
    requires
        (4096 * (e - 127) + low) * g <= t,
        g > 0,
        d > 0,
        e >= 1,
        0 <= low,
        10 * low > 1280 * high - 204_800 - 4096,
        n + 149 * d < 0 || 32 * (n + 149 * d) <= d * (32 * (e + 17) + high),
    ensures
        10 * d * t > (10 * n - d) * (4096 * g),
{
    let left = 10 * (4096 * (e - 127) + low);
    assert(left * g == 10 * ((4096 * (e - 127) + low) * g)) by (nonlinear_arith)
        requires
            left == 10 * (4096 * (e - 127) + low),
    ;
    let right = if n + 149 * d < 0 {
        -40_960 * 149 - 4096
    } else {
        40_960 * (e - 132) + 1280 * high - 4096
    };
    assert(left > right);
    assert(4096 * (10 * n - d) <= d * right) by (nonlinear_arith)
        requires
            (n + 149 * d < 0 && right == -40_960 * 149 - 4096) || (right == 40_960 * (e - 132)
                + 1280 * high - 4096 && 32 * (n + 149 * d) <= d * (32 * (e + 17) + high)),
    ;
    assert(10 * d * t > (10 * n - d) * (4096 * g)) by (nonlinear_arith)
        requires
            left * g <= 10 * t,
            right < left,
            4096 * (10 * n - d) <= d * right,
            g > 0,
            d > 0,
    {
        assert(d * (left * g) <= d * (10 * t));
        assert(d * (left * g) == (d * left) * g);
        assert(d * right < d * left);
        assert((d * right) * g < (d * left) * g);
        assert((4096 * (10 * n - d)) * g <= (d * right) * g);
    }
}

} // verus!
