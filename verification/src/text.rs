//! Text as bytes: comparing, searching and reading it without allocating.

use vstd::prelude::*;
use vstd::string::*;
use vstd::utf8::*;

pub mod reading;

verus! {

/// The bytes of a string.
pub open spec fn bytes(s: &str) -> Seq<u8> {
    encode_utf8(s@)
}

/// The ASCII lower-case form of a byte.
pub open spec fn lower(b: u8) -> u8 {
    if 65 <= b <= 90 {
        (b + 32) as u8
    } else {
        b
    }
}

/// The ASCII upper-case form of a byte.
pub open spec fn upper(b: u8) -> u8 {
    if 97 <= b <= 122 {
        (b - 32) as u8
    } else {
        b
    }
}

pub open spec fn is_digit(b: u8) -> bool {
    48 <= b <= 57
}

pub open spec fn is_letter(b: u8) -> bool {
    65 <= b <= 90 || 97 <= b <= 122
}

pub open spec fn is_alphanumeric(b: u8) -> bool {
    is_digit(b) || is_letter(b)
}

/// A text with its ASCII letters in lower case.
pub open spec fn lowered(s: Seq<u8>) -> Seq<u8> {
    Seq::new(s.len(), |i: int| lower(s[i]))
}

/// A text with its ASCII letters in upper case.
pub open spec fn uppered(s: Seq<u8>) -> Seq<u8> {
    Seq::new(s.len(), |i: int| upper(s[i]))
}

/// Whether `needle` stands in `hay` at `i`.
pub open spec fn occurs_at(hay: Seq<u8>, needle: Seq<u8>, i: int) -> bool {
    &&& 0 <= i
    &&& i + needle.len() <= hay.len()
    &&& hay.subrange(i, i + needle.len()) == needle
}

/// Whether `needle` stands anywhere in `hay`.
pub open spec fn occurs(hay: Seq<u8>, needle: Seq<u8>) -> bool {
    exists|i: int| occurs_at(hay, needle, i)
}

/// Whether `s` begins with `head`.
pub open spec fn starts_with(s: Seq<u8>, head: Seq<u8>) -> bool {
    s.len() >= head.len() && s.subrange(0, head.len() as int) == head
}

/// Whether `s` ends with `tail`.
pub open spec fn ends_with(s: Seq<u8>, tail: Seq<u8>) -> bool {
    s.len() >= tail.len() && s.subrange(s.len() - tail.len(), s.len() as int) == tail
}

/// The number a row of digits denotes.
pub open spec fn number(s: Seq<u8>) -> nat
    decreases s.len(),
{
    if s.len() == 0 {
        0
    } else {
        10 * number(s.drop_last()) + (s.last() - 48) as nat
    }
}

pub open spec fn all_digits(s: Seq<u8>) -> bool {
    forall|i: int| 0 <= i < s.len() ==> is_digit(#[trigger] s[i])
}

/// What a text denotes as an unsigned number that is at most `limit`: digits,
/// with a plus sign in front or none.
pub open spec fn unsigned(s: Seq<u8>, limit: nat) -> Option<nat> {
    let digits = if s.len() > 0 && s[0] == 43 {
        s.subrange(1, s.len() as int)
    } else {
        s
    };
    if digits.len() > 0 && all_digits(digits) && number(digits) <= limit {
        Some(number(digits))
    } else {
        None
    }
}

pub fn to_lower(b: u8) -> (r: u8)
    ensures
        r == lower(b),
{
    if 65 <= b && b <= 90 {
        b + 32
    } else {
        b
    }
}

pub fn to_upper(b: u8) -> (r: u8)
    ensures
        r == upper(b),
{
    if 97 <= b && b <= 122 {
        b - 32
    } else {
        b
    }
}

pub fn digit(b: u8) -> (r: bool)
    ensures
        r == is_digit(b),
{
    48 <= b && b <= 57
}

pub fn letter(b: u8) -> (r: bool)
    ensures
        r == is_letter(b),
{
    (65 <= b && b <= 90) || (97 <= b && b <= 122)
}

/// Whether two texts are the same.
pub fn equal(a: &[u8], b: &[u8]) -> (r: bool)
    ensures
        r == (a@ == b@),
{
    if a.len() != b.len() {
        return false;
    }
    let mut i: usize = 0;
    while i < a.len()
        invariant
            i <= a.len(),
            a.len() == b.len(),
            forall|k: int| 0 <= k < i ==> a@[k] == b@[k],
        decreases a.len() - i,
    {
        if a[i] != b[i] {
            return false;
        }
        i = i + 1;
    }
    assert(a@ =~= b@);
    true
}

/// Whether two texts are the same but for the case of ASCII letters.
pub fn equal_ignoring_case(a: &[u8], b: &[u8]) -> (r: bool)
    ensures
        r == (lowered(a@) == lowered(b@)),
{
    if a.len() != b.len() {
        assert(lowered(a@).len() != lowered(b@).len());
        return false;
    }
    let mut i: usize = 0;
    while i < a.len()
        invariant
            i <= a.len(),
            a.len() == b.len(),
            forall|k: int| 0 <= k < i ==> lower(a@[k]) == lower(b@[k]),
        decreases a.len() - i,
    {
        if to_lower(a[i]) != to_lower(b[i]) {
            assert(lowered(a@)[i as int] != lowered(b@)[i as int]);
            return false;
        }
        i = i + 1;
    }
    assert(lowered(a@) =~= lowered(b@));
    true
}

/// Whether a text in upper case is `b`.
pub fn equal_in_upper(a: &[u8], b: &[u8]) -> (r: bool)
    ensures
        r == (uppered(a@) == b@),
{
    if a.len() != b.len() {
        assert(uppered(a@).len() != b@.len());
        return false;
    }
    let mut i: usize = 0;
    while i < a.len()
        invariant
            i <= a.len(),
            a.len() == b.len(),
            forall|k: int| 0 <= k < i ==> upper(a@[k]) == b@[k],
        decreases a.len() - i,
    {
        if to_upper(a[i]) != b[i] {
            assert(uppered(a@)[i as int] != b@[i as int]);
            return false;
        }
        i = i + 1;
    }
    assert(uppered(a@) =~= b@);
    true
}

/// Whether a text in lower case is `b`.
pub fn equal_in_lower(a: &[u8], b: &[u8]) -> (r: bool)
    ensures
        r == (lowered(a@) == b@),
{
    if a.len() != b.len() {
        assert(lowered(a@).len() != b@.len());
        return false;
    }
    let mut i: usize = 0;
    while i < a.len()
        invariant
            i <= a.len(),
            a.len() == b.len(),
            forall|k: int| 0 <= k < i ==> lower(a@[k]) == b@[k],
        decreases a.len() - i,
    {
        if to_lower(a[i]) != b[i] {
            assert(lowered(a@)[i as int] != b@[i as int]);
            return false;
        }
        i = i + 1;
    }
    assert(lowered(a@) =~= b@);
    true
}

/// Whether a text holds another.
pub fn contains(hay: &[u8], needle: &[u8]) -> (r: bool)
    ensures
        r == occurs(hay@, needle@),
{
    if needle.len() > hay.len() {
        return false;
    }
    let mut start: usize = 0;
    while start <= hay.len() - needle.len()
        invariant
            needle.len() <= hay.len(),
            start <= hay.len() - needle.len() + 1,
            forall|i: int| 0 <= i < start ==> !occurs_at(hay@, needle@, i),
        decreases hay.len() - start,
    {
        let ghost end: int = start + needle@.len();
        if equal(vstd::slice::slice_subrange(hay, start, start + needle.len()), needle) {
            assert(occurs_at(hay@, needle@, start as int));
            return true;
        }
        if start == hay.len() - needle.len() {
            assert forall|i: int| !occurs_at(hay@, needle@, i) by {
                if occurs_at(hay@, needle@, i) {
                    assert(i <= start);
                }
            }
            return false;
        }
        start = start + 1;
    }
    false
}

/// Whether a text holds another, but for the case of ASCII letters.
pub fn contains_ignoring_case(hay: &[u8], needle: &[u8]) -> (r: bool)
    ensures
        r == occurs(lowered(hay@), lowered(needle@)),
{
    let ghost (h, n) = (lowered(hay@), lowered(needle@));
    if needle.len() > hay.len() {
        return false;
    }
    let mut start: usize = 0;
    while start <= hay.len() - needle.len()
        invariant
            h == lowered(hay@),
            n == lowered(needle@),
            needle.len() <= hay.len(),
            start <= hay.len() - needle.len() + 1,
            forall|i: int| 0 <= i < start ==> !occurs_at(h, n, i),
        decreases hay.len() - start,
    {
        let part: &[u8] = vstd::slice::slice_subrange(hay, start, start + needle.len());
        assert(h.subrange(start as int, start + n.len()) =~= lowered(part@));
        if equal_ignoring_case(part, needle) {
            assert(occurs_at(h, n, start as int));
            return true;
        }
        if start == hay.len() - needle.len() {
            assert forall|i: int| !occurs_at(h, n, i) by {
                if occurs_at(h, n, i) {
                    assert(i <= start);
                }
            }
            return false;
        }
        start = start + 1;
    }
    false
}

/// The empty string.
pub fn nothing() -> (r: &'static str)
    ensures
        bytes(r) == Seq::<u8>::empty(),
{
    proof {
        reveal_strlit("");
        lemma_ascii("");
        assert(bytes("") =~= Seq::empty());
    }
    ""
}

/// Whether a text in lower case holds another.
pub fn lower_contains(hay: &[u8], needle: &[u8]) -> (r: bool)
    ensures
        r == occurs(lowered(hay@), needle@),
{
    let ghost h: Seq<u8> = lowered(hay@);
    if needle.len() > hay.len() {
        return false;
    }
    let mut start: usize = 0;
    while start <= hay.len() - needle.len()
        invariant
            h == lowered(hay@),
            needle.len() <= hay.len(),
            start <= hay.len() - needle.len() + 1,
            forall|i: int| 0 <= i < start ==> !occurs_at(h, needle@, i),
        decreases hay.len() - start,
    {
        let part: &[u8] = vstd::slice::slice_subrange(hay, start, start + needle.len());
        assert(h.subrange(start as int, start + needle@.len()) =~= lowered(part@));
        if equal_in_lower(part, needle) {
            assert(occurs_at(h, needle@, start as int));
            return true;
        }
        if start == hay.len() - needle.len() {
            assert forall|i: int| !occurs_at(h, needle@, i) by {
                if occurs_at(h, needle@, i) {
                    assert(i <= start);
                }
            }
            return false;
        }
        start = start + 1;
    }
    false
}

/// Whether a text stands before another, byte by byte.
pub open spec fn comes_before(a: Seq<u8>, b: Seq<u8>) -> bool
    decreases a.len(),
{
    if b.len() == 0 {
        false
    } else if a.len() == 0 {
        true
    } else {
        a[0] < b[0] || (a[0] == b[0] && comes_before(a.drop_first(), b.drop_first()))
    }
}

/// Texts stand in a strict total order.
pub proof fn lemma_comes_before(a: Seq<u8>, b: Seq<u8>, c: Seq<u8>)
    ensures
        !comes_before(a, a),
        comes_before(a, b) && comes_before(b, c) ==> comes_before(a, c),
        comes_before(a, b) || comes_before(b, a) || a == b,
    decreases a.len() + b.len() + c.len(),
{
    if a.len() > 0 {
        lemma_comes_before(
            a.drop_first(),
            if b.len() > 0 {
                b.drop_first()
            } else {
                b
            },
            if c.len() > 0 {
                c.drop_first()
            } else {
                c
            },
        );
        if b.len() > 0 && a[0] == b[0] && a.drop_first() == b.drop_first() {
            assert(a =~= seq![a[0]] + a.drop_first());
            assert(b =~= seq![b[0]] + b.drop_first());
        }
    } else if b.len() == 0 {
        assert(a =~= b);
    }
}

/// Whether a text stands before another, byte by byte.
pub fn is_before(a: &[u8], b: &[u8]) -> (r: bool)
    ensures
        r == comes_before(a@, b@),
{
    let mut i: usize = 0;
    assert(a@.skip(0) =~= a@);
    assert(b@.skip(0) =~= b@);
    while i < a.len() && i < b.len()
        invariant
            i <= a@.len(),
            i <= b@.len(),
            comes_before(a@, b@) == comes_before(a@.skip(i as int), b@.skip(i as int)),
        decreases a.len() - i,
    {
        assert(a@.skip(i as int).drop_first() =~= a@.skip(i + 1));
        assert(b@.skip(i as int).drop_first() =~= b@.skip(i + 1));
        if a[i] < b[i] {
            return true;
        }
        if a[i] > b[i] {
            return false;
        }
        i = i + 1;
    }
    a.len() < b.len()
}

/// Put a text behind another.
pub fn append(out: &mut Vec<u8>, s: &[u8])
    ensures
        final(out)@ == old(out)@ + s@,
{
    let ghost before: Seq<u8> = out@;
    let mut i: usize = 0;
    assert(before + s@.take(0) =~= before);
    while i < s.len()
        invariant
            i <= s@.len(),
            out@ == before + s@.take(i as int),
        decreases s.len() - i,
    {
        out.push(s[i]);
        assert(before + s@.take(i + 1) =~= (before + s@.take(i as int)).push(s@[i as int]));
        i = i + 1;
    }
    assert(s@.take(i as int) =~= s@);
}

/// A text in lower case.
pub fn lower_copy(s: &[u8]) -> (r: Vec<u8>)
    ensures
        r@ == lowered(s@),
{
    let mut out: Vec<u8> = Vec::new();
    let mut i: usize = 0;
    while i < s.len()
        invariant
            i <= s@.len(),
            out@ == lowered(s@).take(i as int),
        decreases s.len() - i,
    {
        out.push(to_lower(s[i]));
        assert(lowered(s@).take(i + 1) =~= lowered(s@).take(i as int).push(
            lower(s@[i as int]),
        ));
        i = i + 1;
    }
    assert(lowered(s@).take(i as int) =~= lowered(s@));
    out
}

/// Whether a text is this word.
pub fn is(s: &[u8], word: &str) -> (r: bool)
    ensures
        r == (s@ == bytes(word)),
{
    equal(s, word.as_bytes())
}

/// Whether a text begins with another.
pub fn begins(s: &[u8], head: &[u8]) -> (r: bool)
    ensures
        r == starts_with(s@, head@),
{
    head.len() <= s.len() && equal(vstd::slice::slice_subrange(s, 0, head.len()), head)
}

/// Whether a text ends with another.
pub fn ends(s: &[u8], tail: &[u8]) -> (r: bool)
    ensures
        r == ends_with(s@, tail@),
{
    tail.len() <= s.len() && equal(
        vstd::slice::slice_subrange(s, s.len() - tail.len(), s.len()),
        tail,
    )
}

/// Whether two strings are the same.
pub fn same(a: &str, b: &str) -> (r: bool)
    ensures
        r == (a@ == b@),
{
    let r: bool = equal(a.as_bytes(), b.as_bytes());
    proof {
        if r {
            encode_utf8_decode_utf8(a@);
            encode_utf8_decode_utf8(b@);
        }
    }
    r
}

/// The number that all of a text's bytes denote, where they are digits and it
/// is at most `limit`.
fn digits_value(s: &[u8], from: usize, limit: u64) -> (r: Option<u64>)
    requires
        from <= s.len(),
    ensures
        ({
            let digits = s@.subrange(from as int, s@.len() as int);
            match r {
                Some(v) => all_digits(digits) && number(digits) == v && v <= limit,
                None => !(all_digits(digits) && number(digits) <= limit),
            }
        }),
{
    let mut v: u64 = 0;
    let mut i: usize = from;
    let ghost digits: Seq<u8> = s@.subrange(from as int, s@.len() as int);
    while i < s.len()
        invariant
            from <= i <= s.len(),
            digits == s@.subrange(from as int, s@.len() as int),
            v <= limit,
            all_digits(digits.take(i - from)),
            v == number(digits.take(i - from)),
        decreases s.len() - i,
    {
        let b: u8 = s[i];
        let ghost k: int = i - from;
        assert(digits.take(k + 1).drop_last() =~= digits.take(k));
        assert(digits.take(k + 1).last() == b);
        assert(digits[k] == b);
        if !digit(b) {
            return None;
        }
        let next: u128 = v as u128 * 10 + (b - 48) as u128;
        if next > limit as u128 {
            proof {
                if all_digits(digits) {
                    lemma_number_grows(digits, k + 1);
                }
            }
            return None;
        }
        assert forall|j: int| 0 <= j < k + 1 implies is_digit(#[trigger] digits.take(k + 1)[j]) by {
            if j < k {
                assert(digits.take(k)[j] == digits.take(k + 1)[j]);
            }
        }
        v = next as u64;
        i = i + 1;
    }
    assert(digits.take(i - from) =~= digits);
    Some(v)
}

/// A longer row of digits denotes no smaller a number.
proof fn lemma_number_grows(s: Seq<u8>, k: int)
    requires
        0 <= k <= s.len(),
        all_digits(s),
    ensures
        number(s.take(k)) <= number(s),
    decreases s.len(),
{
    if k < s.len() {
        let t = s.drop_last();
        assert(all_digits(t)) by {
            assert forall|i: int| 0 <= i < t.len() implies is_digit(#[trigger] t[i]) by {
                assert(t[i] == s[i]);
            }
        }
        assert(t.take(k) =~= s.take(k));
        lemma_number_grows(t, k);
        assert(is_digit(s[s.len() - 1]));
    } else {
        assert(s.take(k) =~= s);
    }
}

/// Read an unsigned number of at most `limit`.
pub fn read_number(s: &[u8], limit: u64) -> (r: Option<u64>)
    ensures
        match r {
            Some(v) => unsigned(s@, limit as nat) == Some(v as nat),
            None => unsigned(s@, limit as nat) is None,
        },
{
    let from: usize = if s.len() > 0 && s[0] == 43 {
        1
    } else {
        0
    };
    assert(from == 0 ==> s@.subrange(0, s@.len() as int) =~= s@);
    if from == s.len() {
        return None;
    }
    digits_value(s, from, limit)
}

/// Read a `u32`.
pub fn read_u32(s: &[u8]) -> (r: Option<u32>)
    ensures
        match r {
            Some(v) => unsigned(s@, u32::MAX as nat) == Some(v as nat),
            None => unsigned(s@, u32::MAX as nat) is None,
        },
{
    match read_number(s, 0xffff_ffff) {
        Some(v) => Some(v as u32),
        None => None,
    }
}

/// The bytes of an ASCII string are its characters.
pub proof fn lemma_ascii(s: &str)
    requires
        is_ascii_chars(s@),
    ensures
        bytes(s).len() == s@.len(),
        forall|i: int| 0 <= i < s@.len() ==> #[trigger] bytes(s)[i] == s@[i] as u8,
{
    is_ascii_chars_encode_utf8(s@);
}

/// Characters begin on both sides of an ASCII byte.
pub proof fn lemma_boundary_around_ascii(s: Seq<u8>, i: int)
    requires
        valid_utf8(s),
        0 <= i < s.len(),
        s[i] < 0x80,
    ensures
        is_char_boundary(s, i),
        is_char_boundary(s, i + 1),
    decreases s.len(),
{
    let n = length_of_first_scalar(s);
    let rest = pop_first_scalar(s);
    if i == 0 {
        assert(n == 1);
        assert(is_char_boundary(rest, 0));
    } else {
        assert(i >= n);
        assert(rest[i - n] == s[i]);
        lemma_boundary_around_ascii(rest, i - n);
    }
}

/// The last place at or before `n` where a character begins.
pub open spec fn boundary_upto(s: Seq<u8>, n: int) -> int
    decreases n,
{
    if n <= 0 {
        0
    } else if is_char_boundary(s, n) {
        n
    } else {
        boundary_upto(s, n - 1)
    }
}

/// As many characters of a text as fit into `n` bytes.
pub open spec fn clipped(s: Seq<u8>, n: int) -> Seq<u8> {
    s.take(boundary_upto(s, n))
}

pub proof fn lemma_clipped(s: Seq<u8>, n: int)
    requires
        valid_utf8(s),
        0 <= n <= s.len(),
    ensures
        0 <= boundary_upto(s, n) <= n,
        is_char_boundary(s, boundary_upto(s, n)),
        valid_utf8(clipped(s, n)),
        clipped(s, n).len() <= n,
    decreases n,
{
    if n > 0 && !is_char_boundary(s, n) {
        lemma_clipped(s, n - 1);
    }
    let b = boundary_upto(s, n);
    valid_utf8_split(s, b);
    assert(clipped(s, n) =~= s.subrange(0, b));
}

/// How many bytes the characters take that fit into `n` bytes of a longer text.
pub fn clip_len(s: &[u8], n: usize) -> (r: usize)
    requires
        valid_utf8(s@),
        n < s.len(),
    ensures
        r == boundary_upto(s@, n as int),
        r <= n,
        is_char_boundary(s@, r as int),
{
    let mut k: usize = n;
    while k > 0 && 0x80 <= s[k] && s[k] < 0xc0
        invariant
            k <= n < s.len(),
            valid_utf8(s@),
            boundary_upto(s@, n as int) == boundary_upto(s@, k as int),
        decreases k,
    {
        proof {
            is_char_boundary_iff_not_is_continuation_byte(s@, k as int);
        }
        k = k - 1;
    }
    proof {
        is_char_boundary_iff_not_is_continuation_byte(s@, k as int);
        is_char_boundary_start_end_of_seq(s@);
    }
    k
}

/// A text cut to at most `n` bytes, at a character.
pub open spec fn shortened(s: Seq<u8>, n: int) -> Seq<u8> {
    if s.len() <= n {
        s
    } else {
        clipped(s, n)
    }
}

/// Cut a string to at most `n` bytes, at a character.
pub fn shorten(s: &str, n: usize) -> (r: &str)
    ensures
        bytes(r) == shortened(bytes(s), n as int),
{
    if s.as_bytes().len() <= n {
        return s;
    }
    proof {
        encode_utf8_valid_utf8(s@);
    }
    let k: usize = clip_len(s.as_bytes(), n);
    let (head, _): (&str, &str) = s.split_at(k);
    assert(bytes(head) =~= clipped(bytes(s), n as int));
    head
}

/// The number of characters of a text.
pub open spec fn char_count(s: Seq<u8>) -> nat {
    decode_utf8(s).len()
}

/// Count the characters of a string.
pub fn count_chars(s: &str) -> (r: usize)
    ensures
        r == char_count(bytes(s)),
{
    proof {
        encode_utf8_decode_utf8(s@);
    }
    s.unicode_len()
}

// --- white space ------------------------------------------------------------

/// Whether three bytes are a white-space character: an Ogham, typographic,
/// line, paragraph, mathematical or ideographic space.
pub open spec fn wide_space(a: u8, b: u8, c: u8) -> bool {
    ||| a == 0xe1 && b == 0x9a && c == 0x80
    ||| a == 0xe2 && b == 0x80 && (0x80 <= c <= 0x8a || c == 0xa8 || c == 0xa9 || c == 0xaf)
    ||| a == 0xe2 && b == 0x81 && c == 0x9f
    ||| a == 0xe3 && b == 0x80 && c == 0x80
}

pub open spec fn narrow_space(a: u8) -> bool {
    9 <= a <= 13 || a == 32
}

/// The length of the white-space character at the front of a text, or zero.
pub open spec fn space_in_front(s: Seq<u8>) -> int {
    if s.len() >= 1 && narrow_space(s[0]) {
        1
    } else if s.len() >= 2 && s[0] == 0xc2 && (s[1] == 0x85 || s[1] == 0xa0) {
        2
    } else if s.len() >= 3 && wide_space(s[0], s[1], s[2]) {
        3
    } else {
        0
    }
}

/// The length of the white-space character at the end of a text, or zero.
pub open spec fn space_at_end(s: Seq<u8>) -> int {
    let n = s.len() as int;
    if n >= 1 && narrow_space(s[n - 1]) {
        1
    } else if n >= 2 && s[n - 2] == 0xc2 && (s[n - 1] == 0x85 || s[n - 1] == 0xa0) {
        2
    } else if n >= 3 && wide_space(s[n - 3], s[n - 2], s[n - 1]) {
        3
    } else {
        0
    }
}

pub open spec fn trimmed_front(s: Seq<u8>) -> Seq<u8>
    decreases s.len(),
{
    if space_in_front(s) > 0 {
        trimmed_front(s.skip(space_in_front(s)))
    } else {
        s
    }
}

pub open spec fn trimmed_end(s: Seq<u8>) -> Seq<u8>
    decreases s.len(),
{
    if space_at_end(s) > 0 {
        trimmed_end(s.take(s.len() - space_at_end(s)))
    } else {
        s
    }
}

/// A text without the white space around it.
pub open spec fn trimmed(s: Seq<u8>) -> Seq<u8> {
    trimmed_end(trimmed_front(s))
}

fn is_wide_space(a: u8, b: u8, c: u8) -> (r: bool)
    ensures
        r == wide_space(a, b, c),
{
    (a == 0xe1 && b == 0x9a && c == 0x80) || (a == 0xe2 && b == 0x80 && ((0x80 <= c && c <= 0x8a)
        || c == 0xa8 || c == 0xa9 || c == 0xaf)) || (a == 0xe2 && b == 0x81 && c == 0x9f) || (a
        == 0xe3 && b == 0x80 && c == 0x80)
}

fn is_narrow_space(a: u8) -> (r: bool)
    ensures
        r == narrow_space(a),
{
    (9 <= a && a <= 13) || a == 32
}

/// Cut the white space off both ends of a string.
pub fn trim(s: &str) -> (r: &str)
    ensures
        bytes(r) == trimmed(bytes(s)),
{
    trim_end(trim_start(s))
}

pub fn trim_start(s: &str) -> (r: &str)
    ensures
        bytes(r) == trimmed_front(bytes(s)),
{
    let mut out: &str = s;
    loop
        invariant
            trimmed_front(bytes(out)) == trimmed_front(bytes(s)),
        ensures
            bytes(out) == trimmed_front(bytes(s)),
        decreases bytes(out).len(),
    {
        let b: &[u8] = out.as_bytes();
        let n: usize = if b.len() >= 1 && is_narrow_space(b[0]) {
            1
        } else if b.len() >= 2 && b[0] == 0xc2 && (b[1] == 0x85 || b[1] == 0xa0) {
            2
        } else if b.len() >= 3 && is_wide_space(b[0], b[1], b[2]) {
            3
        } else {
            0
        };
        if n == 0 {
            break;
        }
        proof {
            encode_utf8_valid_utf8(out@);
            let ghost t = bytes(out);
            assert(length_of_first_scalar(t) == n);
            reveal_with_fuel(is_char_boundary, 2);
            assert(is_char_boundary(pop_first_scalar(t), 0));
            assert(t.skip(n as int) =~= t.subrange(n as int, t.len() as int));
        }
        let (_, rest): (&str, &str) = out.split_at(n);
        out = rest;
    }
    out
}

pub fn trim_end(s: &str) -> (r: &str)
    ensures
        bytes(r) == trimmed_end(bytes(s)),
{
    let mut out: &str = s;
    loop
        invariant
            trimmed_end(bytes(out)) == trimmed_end(bytes(s)),
        ensures
            bytes(out) == trimmed_end(bytes(s)),
        decreases bytes(out).len(),
    {
        let b: &[u8] = out.as_bytes();
        let k: usize = b.len();
        let n: usize = if k >= 1 && is_narrow_space(b[k - 1]) {
            1
        } else if k >= 2 && b[k - 2] == 0xc2 && (b[k - 1] == 0x85 || b[k - 1] == 0xa0) {
            2
        } else if k >= 3 && is_wide_space(b[k - 3], b[k - 2], b[k - 1]) {
            3
        } else {
            0
        };
        if n == 0 {
            break;
        }
        proof {
            encode_utf8_valid_utf8(out@);
            let ghost t = bytes(out);
            is_char_boundary_iff_not_is_continuation_byte(t, k - n);
            assert(t.take(k - n) =~= t.subrange(0, k - n));
        }
        let (rest, _): (&str, &str) = out.split_at(k - n);
        out = rest;
    }
    out
}

/// Where a byte first stands at or after `from`, or the end.
pub open spec fn place_of(s: Seq<u8>, b: u8, from: int) -> int
    decreases s.len() - from,
{
    if from < 0 || from >= s.len() || s[from] == b {
        from
    } else {
        place_of(s, b, from + 1)
    }
}

/// The two sides of the first of an ASCII byte; all of it and nothing where
/// there is none.
pub open spec fn split_spec(s: Seq<u8>, b: u8) -> (Seq<u8>, Seq<u8>) {
    let i = place_of(s, b, 0);
    if i < s.len() {
        (s.take(i), s.skip(i + 1))
    } else {
        (s, Seq::empty())
    }
}

/// Part a string at the first of an ASCII byte.
pub fn split_once(s: &str, b: u8) -> (r: (&str, &str))
    requires
        b < 0x80,
    ensures
        (bytes(r.0), bytes(r.1)) == split_spec(bytes(s), b),
{
    let raw: &[u8] = s.as_bytes();
    let ghost t: Seq<u8> = bytes(s);
    let mut i: usize = 0;
    while i < raw.len() && raw[i] != b
        invariant
            i <= raw.len(),
            raw@ == t,
            place_of(t, b, 0) == place_of(t, b, i as int),
        decreases raw.len() - i,
    {
        i = i + 1;
    }
    if i == raw.len() {
        return (s, nothing());
    }
    proof {
        encode_utf8_valid_utf8(s@);
        lemma_boundary_around_ascii(t, i as int);
    }
    let (head, _): (&str, &str) = s.split_at(i);
    let (_, tail): (&str, &str) = s.split_at(i + 1);
    assert(bytes(head) =~= t.take(i as int));
    assert(bytes(tail) =~= t.skip(i + 1));
    (head, tail)
}

/// The pieces of a text between one byte and the next.
pub open spec fn pieces(s: Seq<u8>, b: u8) -> Seq<Seq<u8>>
    decreases s.len(),
{
    let i = place_of(s, b, 0);
    if 0 <= i < s.len() {
        seq![s.take(i)] + pieces(s.skip(i + 1), b)
    } else {
        seq![s]
    }
}

/// The bytes of strings.
pub open spec fn parts(v: Seq<&str>) -> Seq<Seq<u8>> {
    Seq::new(v.len(), |i: int| bytes(v[i]))
}

/// Part a string at every one of an ASCII byte.
pub fn split<'a>(s: &'a str, b: u8) -> (r: Vec<&'a str>)
    requires
        b < 0x80,
    ensures
        parts(r@) == pieces(bytes(s), b),
        r@.len() > 0,
{
    let mut out: Vec<&'a str> = Vec::new();
    let mut rest: &'a str = s;
    let ghost whole: Seq<Seq<u8>> = pieces(bytes(s), b);
    assert(parts(out@) + whole =~= whole);
    loop
        invariant_except_break
            b < 0x80,
            whole == pieces(bytes(s), b),
            parts(out@) + pieces(bytes(rest), b) == whole,
        ensures
            parts(out@) == whole,
            out@.len() > 0,
        decreases bytes(rest).len(),
    {
        let ghost before: Seq<Seq<u8>> = parts(out@);
        let raw: &[u8] = rest.as_bytes();
        let ghost t: Seq<u8> = bytes(rest);
        let mut i: usize = 0;
        while i < raw.len() && raw[i] != b
            invariant
                i <= raw.len(),
                raw@ == t,
                place_of(t, b, 0) == place_of(t, b, i as int),
            decreases raw.len() - i,
        {
            i = i + 1;
        }
        if i == raw.len() {
            out.push(rest);
            assert(parts(out@) =~= before + seq![t]);
            break;
        }
        proof {
            encode_utf8_valid_utf8(rest@);
            lemma_boundary_around_ascii(t, i as int);
        }
        let (head, _): (&'a str, &'a str) = rest.split_at(i);
        let (_, tail): (&'a str, &'a str) = rest.split_at(i + 1);
        assert(bytes(head) =~= t.take(i as int));
        assert(bytes(tail) =~= t.skip(i + 1));
        out.push(head);
        proof {
            let first = seq![t.take(i as int)];
            let later = pieces(t.skip(i + 1), b);
            assert(parts(out@) =~= before + first);
            assert(before + (first + later) =~= (before + first) + later);
        }
        rest = tail;
    }
    out
}

/// What a text denotes as an unsigned number that is at most `limit`, where it
/// may hold nothing but digits.
pub open spec fn plain_number(s: Seq<u8>, limit: nat) -> Option<nat> {
    if s.len() > 0 && all_digits(s) && number(s) <= limit {
        Some(number(s))
    } else {
        None
    }
}

/// Read a `u32` of which nothing but digits is written.
pub fn read_plain_u32(s: &[u8]) -> (r: Option<u32>)
    ensures
        match r {
            Some(v) => plain_number(s@, u32::MAX as nat) == Some(v as nat),
            None => plain_number(s@, u32::MAX as nat) is None,
        },
{
    if s.len() == 0 {
        return None;
    }
    assert(s@.subrange(0, s@.len() as int) =~= s@);
    match digits_value(s, 0, 0xffff_ffff) {
        Some(v) => Some(v as u32),
        None => None,
    }
}

/// `core::str::from_utf8`, trusted to give the string of these bytes exactly
/// when they are well-formed UTF-8.
#[verifier::external_body]
pub(crate) fn utf8(b: &[u8]) -> (r: Option<&str>)
    ensures
        r is Some <==> valid_utf8(b@),
        r matches Some(s) ==> bytes(s) == b@,
{
    core::str::from_utf8(b).ok()
}

} // verus!
