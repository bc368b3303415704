//! What reading a text comes to: its numbers, its white space, its pieces.

use vstd::prelude::*;
use vstd::utf8::*;

use crate::text;

verus! {

/// Numbers are decimal: a digit more is ten times what stood before it and the
/// digit. A sign of plus may stand in front where one is taken, and what is above
/// the limit, empty or holds anything else is no number.
pub proof fn law_numbers_are_decimal(s: Seq<u8>, d: u8, limit: nat)
    requires
        d < 10,
    ensures
        text::number(Seq::<u8>::empty()) == 0,
        text::number(s.push((48 + d) as u8)) == 10 * text::number(s) + d,
        text::plain_number(s, limit) matches Some(n) ==> {
            &&& s.len() > 0
            &&& n == text::number(s)
            &&& n <= limit
            &&& forall|i: int| 0 <= i < s.len() ==> 48 <= #[trigger] s[i] <= 57
        },
        text::plain_number(s, limit) is None ==> s.len() == 0 || text::number(s) > limit || (exists|
            i: int,
        | 0 <= i < s.len() && !(48 <= #[trigger] s[i] <= 57)),
        s.len() > 0 && s[0] != 43 ==> text::unsigned(s, limit) == text::plain_number(s, limit),
        text::unsigned(seq![43u8] + s, limit) == text::plain_number(s, limit),
{
    assert(s.push((48 + d) as u8).drop_last() =~= s);
    assert((seq![43u8] + s).subrange(1, (seq![43u8] + s).len() as int) =~= s);
    if text::plain_number(s, limit) is None && s.len() > 0 && text::number(s) <= limit {
        assert(!text::all_digits(s));
    }
}

/// Letters differ by case in 32, and nothing else has a case.
pub proof fn law_letters_have_a_case(b: u8)
    ensures
        65 <= b <= 90 ==> text::lower(b) == b + 32 && text::upper(b) == b,
        97 <= b <= 122 ==> text::upper(b) == b - 32 && text::lower(b) == b,
        !(65 <= b <= 90 || 97 <= b <= 122) ==> text::lower(b) == b && text::upper(b) == b,
{
}

/// Trimming takes white space off both ends and nothing else: a trimmed text
/// neither begins nor ends with a tab, a line break or a space, it is a stretch of
/// what it was, and of a text in ASCII only such bytes were taken off.
pub proof fn law_trimming_takes_off_white_space(s: Seq<u8>) -> (r: (int, int))
    ensures
        ({
            let (a, b) = r;
            let t = text::trimmed(s);
            let white = |c: u8| 9 <= c <= 13 || c == 32;
            &&& 0 <= a <= b <= s.len()
            &&& t == s.subrange(a, b)
            &&& t.len() > 0 ==> !white(t[0]) && !white(t.last())
            &&& (forall|i: int| 0 <= i < s.len() ==> #[trigger] s[i] < 0x80) ==> (forall|i: int|
                0 <= i < a || b <= i < s.len() ==> white(#[trigger] s[i]))
        }),
{
    let a = lemma_front(s);
    let f = text::trimmed_front(s);
    let b = lemma_end(f);
    assert(f =~= s.subrange(a, s.len() as int));
    assert(f.subrange(0, b) =~= s.subrange(a, a + b));
    assert forall|i: int| a + b <= i < s.len() implies #[trigger] s[i] == f[i - a] by {}
    assert forall|i: int| 0 <= i < f.len() implies #[trigger] f[i] == s[a + i] by {}
    (a, a + b)
}

proof fn lemma_front(s: Seq<u8>) -> (a: int)
    ensures
        0 <= a <= s.len(),
        text::trimmed_front(s) == s.subrange(a, s.len() as int),
        a < s.len() ==> !(9 <= s[a] <= 13 || s[a] == 32),
        (forall|i: int| 0 <= i < s.len() ==> #[trigger] s[i] < 0x80) ==> (forall|i: int|
            0 <= i < a ==> 9 <= #[trigger] s[i] <= 13 || s[i] == 32),
    decreases s.len(),
{
    let k = text::space_in_front(s);
    if k > 0 {
        let rest = s.skip(k);
        let a = lemma_front(rest);
        assert(rest.subrange(a, rest.len() as int) =~= s.subrange(k + a, s.len() as int));
        if forall|i: int| 0 <= i < s.len() ==> #[trigger] s[i] < 0x80 {
            assert(s[0] < 0x80);
            assert forall|i: int| 0 <= i < rest.len() implies #[trigger] rest[i] < 0x80 by {
                assert(rest[i] == s[i + k]);
            }
            assert forall|i: int| 0 <= i < k + a implies 9 <= #[trigger] s[i] <= 13 || s[i]
                == 32 by {
                if i >= k {
                    assert(s[i] == rest[i - k]);
                }
            }
        }
        k + a
    } else {
        assert(s.subrange(0, s.len() as int) =~= s);
        0
    }
}

proof fn lemma_end(s: Seq<u8>) -> (b: int)
    ensures
        0 <= b <= s.len(),
        text::trimmed_end(s) == s.subrange(0, b),
        b > 0 ==> !(9 <= s[b - 1] <= 13 || s[b - 1] == 32),
        s.len() > 0 && !(9 <= s[0] <= 13 || s[0] == 32) && b > 0 ==> text::trimmed_end(s)[0]
            == s[0],
        (forall|i: int| 0 <= i < s.len() ==> #[trigger] s[i] < 0x80) ==> (forall|i: int|
            b <= i < s.len() ==> 9 <= #[trigger] s[i] <= 13 || s[i] == 32),
    decreases s.len(),
{
    let k = text::space_at_end(s);
    if k > 0 {
        let n = s.len() - k;
        let rest = s.take(n);
        let b = lemma_end(rest);
        assert(rest.subrange(0, b) =~= s.subrange(0, b));
        if forall|i: int| 0 <= i < s.len() ==> #[trigger] s[i] < 0x80 {
            assert(s[s.len() - 1] < 0x80);
            assert forall|i: int| 0 <= i < rest.len() implies #[trigger] rest[i] < 0x80 by {
                assert(rest[i] == s[i]);
            }
            assert forall|i: int| b <= i < s.len() implies 9 <= #[trigger] s[i] <= 13 || s[i]
                == 32 by {
                if i < n {
                    assert(s[i] == rest[i]);
                }
            }
        }
        b
    } else {
        assert(s.subrange(0, s.len() as int) =~= s);
        s.len() as int
    }
}

/// Texts with a byte between them.
pub open spec fn joined(v: Seq<Seq<u8>>, b: u8) -> Seq<u8>
    decreases v.len(),
{
    if v.len() == 0 {
        Seq::empty()
    } else if v.len() == 1 {
        v[0]
    } else {
        v[0].push(b) + joined(v.drop_first(), b)
    }
}

/// The pieces of a text, with the byte that it was parted at between them, are the
/// text, and the byte stands in none of them.
pub proof fn law_pieces_make_up_the_text(s: Seq<u8>, b: u8)
    ensures
        text::pieces(s, b).len() > 0,
        joined(text::pieces(s, b), b) == s,
        forall|i: int, j: int|
            0 <= i < text::pieces(s, b).len() && 0 <= j < text::pieces(s, b)[i].len()
                ==> #[trigger] text::pieces(s, b)[i][j] != b,
    decreases s.len(),
{
    let p = text::pieces(s, b);
    let i = text::place_of(s, b, 0);
    lemma_first_place(s, b, 0);
    if i < s.len() {
        let rest = text::pieces(s.skip(i + 1), b);
        law_pieces_make_up_the_text(s.skip(i + 1), b);
        assert(p.drop_first() =~= rest);
        assert(p[0] == s.take(i));
        assert(s.take(i).push(b) + s.skip(i + 1) =~= s);
        assert forall|k: int, j: int| 0 <= k < p.len() && 0 <= j < p[k].len() implies #[trigger] p[k][j]
            != b by {
            if k > 0 {
                assert(p[k] == rest[k - 1]);
            }
        }
    } else {
        assert(p =~= seq![s]);
    }
}

/// The two sides of the first of a byte: it stands between them, and not in the
/// first.
pub proof fn law_the_first_of_a_byte_parts(s: Seq<u8>, b: u8)
    ensures
        ({
            let (head, tail) = text::split_spec(s, b);
            &&& s.contains(b) ==> s == head.push(b) + tail
            &&& !s.contains(b) ==> head == s && tail.len() == 0
            &&& !head.contains(b)
        }),
{
    lemma_first_place(s, b, 0);
    let i = text::place_of(s, b, 0);
    if i < s.len() {
        assert(s[i] == b);
        assert(s.take(i).push(b) + s.skip(i + 1) =~= s);
    }
}

proof fn lemma_first_place(s: Seq<u8>, b: u8, from: int)
    requires
        0 <= from <= s.len(),
    ensures
        from <= text::place_of(s, b, from) <= s.len(),
        text::place_of(s, b, from) < s.len() ==> s[text::place_of(s, b, from)] == b,
        forall|i: int| from <= i < text::place_of(s, b, from) ==> #[trigger] s[i] != b,
    decreases s.len() - from,
{
    if from < s.len() && s[from] != b {
        lemma_first_place(s, b, from + 1);
    }
}

/// A text that is too long is cut where the last character ends that still fits.
pub proof fn law_texts_are_cut_between_characters(s: Seq<u8>, n: int) -> (k: int)
    requires
        valid_utf8(s),
        0 <= n,
    ensures
        s.len() <= n ==> text::shortened(s, n) == s,
        s.len() > n ==> {
            &&& 0 <= k <= n
            &&& text::shortened(s, n) == s.take(k)
            &&& is_char_boundary(s, k)
            &&& forall|j: int| k < j <= n ==> !#[trigger] is_char_boundary(s, j)
        },
{
    if s.len() > n {
        text::lemma_clipped(s, n);
        lemma_last_boundary(s, n);
    }
    text::boundary_upto(s, n)
}

proof fn lemma_last_boundary(s: Seq<u8>, n: int)
    ensures
        forall|j: int|
            text::boundary_upto(s, n) < j <= n ==> !#[trigger] is_char_boundary(s, j),
    decreases n,
{
    if n > 0 && !is_char_boundary(s, n) {
        lemma_last_boundary(s, n - 1);
    }
}

/// Texts are in order byte by byte: the first in which two differ decides, and what
/// is all of the beginning of another stands before it.
pub proof fn law_texts_are_in_order_byte_by_byte(a: Seq<u8>, b: Seq<u8>, k: int)
    requires
        0 <= k <= a.len(),
        k <= b.len(),
        forall|i: int| 0 <= i < k ==> #[trigger] a[i] == b[i],
    ensures
        k < a.len() && k < b.len() && a[k] < b[k] ==> text::comes_before(a, b)
            && !text::comes_before(b, a),
        k == a.len() && k < b.len() ==> text::comes_before(a, b) && !text::comes_before(b, a),
        k == a.len() && k == b.len() ==> !text::comes_before(a, b),
    decreases k,
{
    if k > 0 {
        let (x, y) = (a.drop_first(), b.drop_first());
        assert(a[0] == b[0]);
        assert(x == a.subrange(1, a.len() as int) && y == b.subrange(1, b.len() as int));
        assert forall|i: int| 0 <= i < k - 1 implies #[trigger] x[i] == y[i] by {
            assert(a[i + 1] == b[i + 1]);
        }
        if k < a.len() && k < b.len() {
            assert(x[k - 1] == a[k] && y[k - 1] == b[k]);
        }
        law_texts_are_in_order_byte_by_byte(x, y, k - 1);
    }
}

} // verus!
