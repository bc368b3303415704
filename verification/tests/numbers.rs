//! Arithmetic and numerals against the machine's own.

use openchoice::float::{Double, Shown, Single};
use openchoice::numeral::Numeral;
use openchoice::rounding::{bit_length, power};

/// A reproducible spread of bit patterns.
struct Patterns {
    state: u64,
}

impl Patterns {
    fn new(seed: u64) -> Patterns {
        Patterns { state: seed }
    }

    fn next(&mut self) -> u64 {
        self.state ^= self.state << 13;
        self.state ^= self.state >> 7;
        self.state ^= self.state << 17;
        self.state
    }
}

fn special_singles() -> Vec<f32> {
    vec![
        0.0,
        -0.0,
        1.0,
        -1.0,
        0.1,
        0.55,
        2.5,
        3.5,
        1024.0,
        16_777_216.0,
        16_777_217.0,
        f32::MIN_POSITIVE,
        f32::from_bits(1),
        f32::MAX,
        f32::MIN,
        f32::INFINITY,
        f32::NEG_INFINITY,
        f32::NAN,
        1e-30,
        1e30,
        0.3333333,
    ]
}

fn special_doubles() -> Vec<f64> {
    vec![
        0.0,
        -0.0,
        1.0,
        -1.0,
        0.1,
        0.05,
        5.0,
        1000.0,
        0.5,
        1.5,
        65535.5,
        f64::MIN_POSITIVE,
        f64::from_bits(1),
        f64::MAX,
        f64::MIN,
        f64::INFINITY,
        f64::NEG_INFINITY,
        f64::NAN,
        1e-300,
        1e300,
    ]
}

fn same_single(ours: Single, theirs: f32) -> bool {
    if theirs.is_nan() {
        f32::from_bits(ours.to_bits()).is_nan()
    } else {
        ours.to_bits() == theirs.to_bits()
    }
}

fn same_double(ours: Double, theirs: f64) -> bool {
    if theirs.is_nan() {
        f64::from_bits(ours.to_bits()).is_nan()
    } else {
        ours.to_bits() == theirs.to_bits()
    }
}

fn check_singles(x: f32, y: f32) {
    let (a, b) = (Single::from_bits(x.to_bits()), Single::from_bits(y.to_bits()));
    assert!(same_single(a.plus(b), x + y), "{x:e} + {y:e}");
    assert!(same_single(a.minus(b), x - y), "{x:e} - {y:e}");
    assert!(same_single(a.times(b), x * y), "{x:e} * {y:e}");
    assert!(same_single(a.over(b), x / y), "{x:e} / {y:e}");
    assert_eq!(a.lt(b), x < y, "{x:e} < {y:e}");
    assert_eq!(a.le(b), x <= y, "{x:e} <= {y:e}");
    assert_eq!(a.to_u32(), x as u32, "{x:e} as u32");
    assert_eq!(a.to_u16(), x as u16, "{x:e} as u16");
    assert_eq!(a.to_u8(), x as u8, "{x:e} as u8");
}

fn check_doubles(x: f64, y: f64) {
    let (a, b) = (Double::from_bits(x.to_bits()), Double::from_bits(y.to_bits()));
    assert!(same_double(a.plus(b), x + y), "{x:e} + {y:e}");
    assert!(same_double(a.times(b), x * y), "{x:e} * {y:e}");
    assert!(same_double(a.over(b), x / y), "{x:e} / {y:e}");
    assert_eq!(a.lt(b), x < y, "{x:e} < {y:e}");
    assert_eq!(a.le(b), x <= y, "{x:e} <= {y:e}");
    assert_eq!(a.to_u32(), x as u32, "{x:e} as u32");
    assert_eq!(a.to_u8(), x as u8, "{x:e} as u8");
    assert_eq!(a.round_u16(), x.round() as u16, "{x:e} rounded");
}

#[test]
fn singles_compute_as_the_machine_does() {
    let special = special_singles();
    for x in &special {
        for y in &special {
            check_singles(*x, *y);
        }
    }
    let mut p = Patterns::new(0x9e37_79b9_7f4a_7c15);
    for _ in 0..4000 {
        let bits = p.next();
        check_singles(f32::from_bits(bits as u32), f32::from_bits((bits >> 32) as u32));
    }
}

#[test]
fn singles_of_everyday_size_compute_as_the_machine_does() {
    let mut p = Patterns::new(0x1234_5678_9abc_def1);
    for _ in 0..4000 {
        let bits = p.next();
        let x = (bits & 0xfffff) as f32 / 16.0;
        let y = ((bits >> 20) & 0xfffff) as f32 / 1024.0;
        check_singles(x, y);
        check_singles(-x, y);
    }
}

#[test]
fn doubles_compute_as_the_machine_does() {
    let special = special_doubles();
    for x in &special {
        for y in &special {
            check_doubles(*x, *y);
        }
    }
    let mut p = Patterns::new(0xfeed_face_cafe_beef);
    for _ in 0..2000 {
        let (x, y) = (f64::from_bits(p.next()), f64::from_bits(p.next()));
        check_doubles(x, y);
    }
    for _ in 0..2000 {
        let bits = p.next();
        check_doubles((bits & 0xff_ffff) as f64 / 256.0, (bits >> 40) as f64 / 4096.0);
    }
}

#[test]
fn minimum_and_maximum_pass_over_what_is_not_a_number() {
    let (one, two) = (Single::from_u32(1), Single::from_u32(2));
    let nan = Single::from_bits(f32::NAN.to_bits());
    assert_eq!(one.min(two).to_bits(), 1.0f32.to_bits());
    assert_eq!(one.max(two).to_bits(), 2.0f32.to_bits());
    assert_eq!(nan.min(two).to_bits(), 2.0f32.to_bits());
    assert_eq!(two.min(nan).to_bits(), 2.0f32.to_bits());
    assert_eq!(nan.max(one).to_bits(), 1.0f32.to_bits());
    let half = Double::ratio(1, 2);
    let nothing = Double::from_bits(f64::NAN.to_bits());
    assert_eq!(nothing.min(half).to_bits(), 0.5f64.to_bits());
    assert_eq!(half.min(Double::ratio(1, 4)).to_bits(), 0.25f64.to_bits());
}

#[test]
fn fractions_and_whole_numbers_are_the_nearest() {
    assert_eq!(Single::ratio(55, 100).to_bits(), 0.55f32.to_bits());
    assert_eq!(Single::ratio(1, 3).to_bits(), (1.0f32 / 3.0).to_bits());
    assert_eq!(Single::from_u32(16_777_217).to_bits(), (16_777_217u32 as f32).to_bits());
    assert_eq!(Single::from_i32(-7).to_bits(), (-7.0f32).to_bits());
    assert_eq!(Single::infinity().to_bits(), f32::INFINITY.to_bits());
    assert_eq!(Double::ratio(5, 100).to_bits(), 0.05f64.to_bits());
    let mut p = Patterns::new(77);
    for _ in 0..500 {
        let n = p.next();
        assert_eq!(Single::from_u64(n).to_bits(), (n as f32).to_bits(), "{n}");
        let (a, b) = (n as u32, (n >> 32) as u32 | 1);
        assert_eq!(Double::ratio(a, b).to_bits(), (a as f64 / b as f64).to_bits(), "{a}/{b}");
    }
}

#[test]
fn doubles_rank_in_increasing_order() {
    let values = [-2.5f64, -1.0, 0.0, 0.25, 3.0, f64::INFINITY];
    for (i, x) in values.iter().enumerate() {
        for (j, y) in values.iter().enumerate() {
            let (a, b) = (Double::from_bits(x.to_bits()), Double::from_bits(y.to_bits()));
            assert_eq!(a.ranks_below(b), i < j, "{x} {y}");
        }
    }
    let (plus, minus) = (Double::from_bits(0), Double::from_bits((-0.0f64).to_bits()));
    assert!(!plus.ranks_below(minus) && !minus.ranks_below(plus));
}

#[test]
fn numbers_are_written_as_the_machine_writes_them() {
    for n in [0u128, 7, 10, 99, 100, 65_535, 4_294_967_295, u128::MAX] {
        assert_eq!(Numeral::of(n).as_bytes(), n.to_string().as_bytes());
    }
    let mut values = special_singles();
    values.extend([0.05, 0.25, 0.35, 0.45, 0.5, 1.5, 2.5, 1008.0, 68.25, 99.95, 1e9, 123456.78]);
    let mut p = Patterns::new(99);
    for _ in 0..2000 {
        values.push((p.next() & 0xff_ffff) as f32 / 160.0);
    }
    for v in values {
        let ours = Single::from_bits(v.to_bits());
        let (whole, tenths) = (Numeral::fixed0(ours), Numeral::fixed1(ours));
        assert_eq!(whole.as_bytes(), format!("{v:.0}").as_bytes(), "{v:e}");
        assert_eq!(tenths.as_bytes(), format!("{v:.1}").as_bytes(), "{v:e}");
    }
}

#[test]
fn numbers_read_back() {
    for n in [0u32, 9, 10, 4096, u32::MAX] {
        let written = Numeral::of(n as u128);
        assert_eq!(openchoice::text::read_u32(written.as_bytes()), Some(n));
    }
}

#[test]
fn numbers_are_shown_in_tenths() {
    match Single::ratio(5, 4).show(10) {
        Shown::Finite { neg, whole, rest } => assert_eq!((neg, whole, rest), (false, 1, 2)),
        _ => panic!("a fraction is finite"),
    }
    match Single::infinity().negate().show(1) {
        Shown::Infinite(neg) => assert!(neg),
        _ => panic!("infinity is infinite"),
    }
}

#[test]
fn powers_and_lengths_in_bits() {
    assert_eq!(power(0), 1);
    assert_eq!(power(100), 1u128 << 100);
    for n in [1u128, 2, 3, 255, 256, 1 << 90] {
        assert_eq!(bit_length(n), 128 - n.leading_zeros());
    }
}
