//! Numbers written out in decimal, without a heap.

use vstd::arithmetic::power2::*;
use vstd::prelude::*;
use vstd::utf8::*;

use crate::float::{Shown, Single, Value};
use crate::rounding;
use crate::text;

pub mod places;

verus! {

/// The decimal digits of a number.
pub open spec fn decimal(n: nat) -> Seq<u8>
    decreases n,
{
    if n < 10 {
        seq![(48 + n) as u8]
    } else {
        decimal(n / 10).push((48 + n % 10) as u8)
    }
}

/// A number to the nearest whole one, ties to even.
pub open spec fn fixed0(v: Single) -> Seq<u8> {
    match v.value() {
        Value::Nan => text::bytes("NaN"),
        Value::Infinite { neg } => sign(neg) + text::bytes("inf"),
        Value::Finite { neg, mag } => sign(neg) + decimal(rounding::half_even(mag, pow2(149))),
    }
}

/// A number to one decimal place, ties to even.
pub open spec fn fixed1(v: Single) -> Seq<u8> {
    match v.value() {
        Value::Nan => text::bytes("NaN"),
        Value::Infinite { neg } => sign(neg) + text::bytes("inf"),
        Value::Finite { neg, mag } => {
            let tenths = rounding::half_even(10 * mag, pow2(149));
            sign(neg) + decimal(tenths / 10) + seq![46u8] + decimal(tenths % 10)
        },
    }
}

pub open spec fn sign(neg: bool) -> Seq<u8> {
    if neg {
        seq![45u8]
    } else {
        Seq::empty()
    }
}

/// A short ASCII text, built from its end.
pub struct Numeral {
    buf: [u8; 48],
    start: usize,
}

impl View for Numeral {
    type V = Seq<u8>;

    closed spec fn view(&self) -> Seq<u8> {
        self.buf@.subrange(self.start as int, 48)
    }
}

/// Every byte is ASCII.
pub open spec fn ascii(s: Seq<u8>) -> bool {
    forall|i: int| 0 <= i < s.len() ==> #[trigger] s[i] < 0x80
}

pub proof fn lemma_ascii_valid(s: Seq<u8>)
    requires
        ascii(s),
    ensures
        valid_utf8(s),
{
    assert(s.subrange(0, 0) =~= Seq::empty());
    assert(valid_utf8(s.subrange(0, 0)));
    assert forall|i: int| 0 <= 0 <= i < s.len() <= s.len() implies #[trigger] is_leading_byte_width_1(
        s[i],
    ) by {}
    partial_valid_utf8_extend_ascii_block(s, 0, s.len() as int);
    assert(s.subrange(0, s.len() as int) =~= s);
}

impl Numeral {
    #[verifier::type_invariant]
    closed spec fn inv(self) -> bool {
        &&& self.start <= 48
        &&& forall|i: int| self.start <= i < 48 ==> #[trigger] self.buf@[i] < 0x80
    }

    /// Nothing yet.
    fn empty() -> (r: Numeral)
        ensures
            r@ == Seq::<u8>::empty(),
    {
        let r: Numeral = Numeral { buf: [48; 48], start: 48 };
        assert(r@ =~= Seq::empty());
        r
    }

    pub fn as_bytes(&self) -> (r: &[u8])
        ensures
            r@ == self@,
            ascii(r@),
            valid_utf8(r@),
            r@.len() <= 48,
    {
        proof {
            use_type_invariant(self);
        }
        let r: &[u8] = vstd::slice::slice_subrange(self.buf.as_slice(), self.start, 48);
        proof {
            assert forall|i: int| 0 <= i < r@.len() implies #[trigger] r@[i] < 0x80 by {
                assert(r@[i] == self.buf@[self.start + i]);
            }
            lemma_ascii_valid(r@);
        }
        r
    }

    fn prepend(&mut self, b: u8)
        requires
            b < 0x80,
            old(self)@.len() < 48,
        ensures
            final(self)@ == seq![b] + old(self)@,
    {
        proof {
            use_type_invariant(&*self);
        }
        let ghost before: Seq<u8> = self@;
        let at: usize = self.start - 1;
        self.buf[at] = b;
        self.start = at;
        assert(self@ =~= seq![b] + before);
    }

    /// Put the digits of a number in front.
    fn prepend_decimal(&mut self, n: u128)
        requires
            old(self)@.len() <= 8,
        ensures
            final(self)@ == decimal(n as nat) + old(self)@,
    {
        let ghost before: Seq<u8> = self@;
        let mut rest: u128 = n;
        let ghost mut left: nat = 39;
        let ghost mut tail: Seq<u8> = Seq::empty();
        proof {
            reveal_with_fuel(ten_to, 40);
            assert(tail + before =~= before);
            assert(decimal(n as nat) + tail =~= decimal(n as nat));
        }
        while rest >= 10
            invariant
                self@ == tail + before,
                before.len() <= 8,
                tail.len() == 39 - left,
                1 <= left <= 39,
                rest < ten_to(left),
                decimal(n as nat) == decimal(rest as nat) + tail,
            decreases rest,
        {
            proof {
                reveal_with_fuel(ten_to, 2);
            }
            let d: u8 = (rest % 10) as u8;
            self.prepend(48 + d);
            proof {
                let longer = seq![(48 + d) as u8] + tail;
                assert(self@ =~= longer + before);
                assert(decimal(rest as nat) + tail =~= decimal(rest as nat / 10) + longer);
                tail = longer;
                left = (left - 1) as nat;
            }
            rest = rest / 10;
        }
        self.prepend(48 + rest as u8);
        assert(self@ =~= decimal(n as nat) + before);
    }

    fn prepend_sign(&mut self, neg: bool)
        requires
            old(self)@.len() < 48,
        ensures
            final(self)@ == sign(neg) + old(self)@,
    {
        if neg {
            self.prepend(45);
        } else {
            assert(sign(neg) + self@ =~= self@);
        }
    }

    /// The digits of a number.
    pub fn of(n: u128) -> (r: Numeral)
        ensures
            r@ == decimal(n as nat),
    {
        let mut r: Numeral = Numeral::empty();
        r.prepend_decimal(n);
        assert(decimal(n as nat) + Seq::<u8>::empty() =~= decimal(n as nat));
        r
    }

    fn word(neg: bool, a: u8, b: u8, c: u8) -> (r: Numeral)
        requires
            a < 0x80,
            b < 0x80,
            c < 0x80,
        ensures
            r@ == sign(neg) + seq![a, b, c],
    {
        let mut r: Numeral = Numeral::empty();
        r.prepend(c);
        r.prepend(b);
        r.prepend(a);
        assert(r@ =~= seq![a, b, c]);
        r.prepend_sign(neg);
        r
    }

    /// A number to the nearest whole one, ties to even.
    pub fn fixed0(v: Single) -> (r: Numeral)
        ensures
            r@ == fixed0(v),
    {
        proof {
            lemma_words();
        }
        match v.show(1) {
            Shown::Nan => {
                let r: Numeral = Numeral::word(false, 78, 97, 78);
                assert(r@ =~= text::bytes("NaN"));
                r
            },
            Shown::Infinite(neg) => Numeral::word(neg, 105, 110, 102),
            Shown::Finite { neg, whole, rest: _ } => {
                let mut r: Numeral = Numeral::empty();
                r.prepend_decimal(whole);
                assert(r@ =~= decimal(whole as nat));
                proof {
                    lemma_decimal_len(whole as nat, 39);
                }
                r.prepend_sign(neg);
                r
            },
        }
    }

    /// A number to one decimal place, ties to even.
    pub fn fixed1(v: Single) -> (r: Numeral)
        ensures
            r@ == fixed1(v),
    {
        proof {
            lemma_words();
        }
        match v.show(10) {
            Shown::Nan => {
                let r: Numeral = Numeral::word(false, 78, 97, 78);
                assert(r@ =~= text::bytes("NaN"));
                r
            },
            Shown::Infinite(neg) => Numeral::word(neg, 105, 110, 102),
            Shown::Finite { neg, whole, rest } => {
                let mut r: Numeral = Numeral::empty();
                r.prepend(48 + rest as u8);
                r.prepend(46);
                assert(r@ =~= seq![46u8] + decimal(rest as nat));
                let ghost tail: Seq<u8> = r@;
                r.prepend_decimal(whole);
                proof {
                    lemma_decimal_len(whole as nat, 39);
                }
                r.prepend_sign(neg);
                assert(r@ =~= sign(neg) + decimal(whole as nat) + seq![46u8] + decimal(
                    rest as nat,
                ));
                r
            },
        }
    }
}

/// A number below `10^k` has at most `k` digits.
proof fn lemma_decimal_len(n: nat, k: nat)
    requires
        k > 0,
        n < ten_to(k) || (k == 39 && n <= u128::MAX),
    ensures
        1 <= decimal(n).len() <= k,
    decreases k,
{
    if k == 39 {
        reveal_with_fuel(ten_to, 40);
    }
    if n >= 10 {
        reveal_with_fuel(ten_to, 2);
        lemma_decimal_len(n / 10, (k - 1) as nat);
    }
}

/// Reading a number that was written out gives it back.
pub proof fn law_numbers_read_back(n: nat, limit: nat)
    requires
        n <= limit,
    ensures
        text::unsigned(decimal(n), limit) == Some(n),
{
    lemma_decimal(n);
    assert(text::is_digit(decimal(n)[0]));
}

proof fn lemma_decimal(n: nat)
    ensures
        decimal(n).len() >= 1,
        text::all_digits(decimal(n)),
        text::number(decimal(n)) == n,
    decreases n,
{
    if n < 10 {
        let s = decimal(n);
        assert(s.drop_last() =~= Seq::empty());
        assert(text::number(Seq::empty()) == 0);
    } else {
        lemma_decimal(n / 10);
        let s = decimal(n);
        let t = decimal(n / 10);
        assert(s.drop_last() =~= t);
        assert forall|i: int| 0 <= i < s.len() implies text::is_digit(#[trigger] s[i]) by {
            if i < t.len() {
                assert(s[i] == t[i]);
            }
        }
    }
}

spec fn ten_to(k: nat) -> nat
    decreases k,
{
    if k == 0 {
        1
    } else {
        10 * ten_to((k - 1) as nat)
    }
}

proof fn lemma_words()
    ensures
        text::bytes("NaN") =~= seq![78u8, 97, 78],
        text::bytes("inf") =~= seq![105u8, 110, 102],
{
    reveal_strlit("NaN");
    reveal_strlit("inf");
    text::lemma_ascii("NaN");
    text::lemma_ascii("inf");
}

} // verus!
