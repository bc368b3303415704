//! The key that names of one model from different sources have in common.

use vstd::prelude::*;
use vstd::utf8::*;

use crate::catalog::names;
use crate::numeral;
use crate::text;

verus! {

/// Words that say how a model was packaged or tuned, not which one it is. Two
/// runs of the same weights in different formats are measurements of the same
/// model, and a base and an instruction tune decode at the same speed.
pub open spec fn drop_words() -> Seq<&'static str> {
    seq![
        "q2",
        "q3",
        "q4",
        "q5",
        "q6",
        "q8",
        "k",
        "m",
        "s",
        "l",
        "f16",
        "fp16",
        "bf16",
        "f32",
        "mxfp4",
        "mxfp8",
        "nvfp4",
        "int4",
        "int8",
        "fp8",
        "4bit",
        "8bit",
        "gguf",
        "awq",
        "gptq",
        "exl2",
        "mlx",
        "bnb",
        "unsloth",
        "qat",
        "ud",
        "xl",
        "quantized",
        "instruct",
        "it",
        "chat",
        "sft",
        "dpo",
        "hf",
        "base",
        "text",
        "abliterated",
        "uncensored",
        "preview",
        "latest",
        "pt",
        "distill",
    ]
}

pub open spec fn dropped(w: Seq<u8>) -> bool {
    exists|i: int| 0 <= i < drop_words().len() && w == text::bytes(#[trigger] drop_words()[i])
}

pub open spec fn separator(b: u8) -> bool {
    b == 45 || b == 95 || b == 46 || b == 32 || b == 58
}

/// Where the first separator at or after `from` stands, or the end.
pub open spec fn break_at(s: Seq<u8>, from: int) -> int
    decreases s.len() - from,
{
    if from < 0 || from >= s.len() || separator(s[from]) {
        from
    } else {
        break_at(s, from + 1)
    }
}

/// A word of a name, and whether a point joins it to the next one, as `1` in
/// `1.7b`.
pub struct Word {
    pub text: Seq<u8>,
    pub pointed: bool,
}

/// Whether a point at `i` joins what stands on its two sides.
pub open spec fn point_at(s: Seq<u8>, i: int) -> bool {
    0 <= i && i + 1 < s.len() && s[i] == 46 && !separator(s[i + 1])
}

/// The words of a name.
pub open spec fn words(s: Seq<u8>) -> Seq<Word>
    decreases s.len(),
{
    if s.len() == 0 {
        Seq::empty()
    } else {
        let i = break_at(s, 0);
        let rest = if 0 <= i < s.len() {
            words(s.skip(i + 1))
        } else {
            Seq::empty()
        };
        if i > 0 {
            seq![Word { text: s.take(i), pointed: point_at(s, i) }] + rest
        } else {
            rest
        }
    }
}

pub open spec fn all_letters(s: Seq<u8>) -> bool {
    forall|i: int| 0 <= i < s.len() ==> text::is_letter(#[trigger] s[i])
}

pub open spec fn any_digit(s: Seq<u8>) -> bool {
    exists|i: int| 0 <= i < s.len() && text::is_digit(#[trigger] s[i])
}

/// Whether a word begins what a submitter says of their own setup:
/// `-agent-gpu50-latest`, `-v2ctx65k`.
pub open spec fn starts_tail(w: Seq<u8>) -> bool {
    ||| w == text::bytes("agent")
    ||| w == text::bytes("enfixed")
    ||| w == text::bytes("cpu")
    ||| text::starts_with(w, text::bytes("gpu")) && w.len() > 3 && text::all_digits(w.skip(3))
    ||| text::occurs(w, text::bytes("ctx")) && any_digit(w)
}

/// Where the first digit at or after `from` stands, or the end.
pub open spec fn digit_at(s: Seq<u8>, from: int) -> int
    decreases s.len() - from,
{
    if from < 0 || from >= s.len() || text::is_digit(s[from]) {
        from
    } else {
        digit_at(s, from + 1)
    }
}

/// Whether a word is a family of at least three letters glued to its version,
/// as in `gemma4`. A size such as `4b` is not.
pub open spec fn glued(w: Seq<u8>) -> bool {
    let i = digit_at(w, 0);
    &&& 3 <= i < w.len()
    &&& all_letters(w.take(i))
    &&& text::all_digits(w.skip(i))
}

pub open spec fn unless_dropped(w: Seq<u8>) -> Seq<Seq<u8>> {
    if dropped(w) {
        Seq::empty()
    } else {
        seq![w]
    }
}

/// What a word contributes to the key: nothing where it says how the model was
/// packaged, else itself, a family parted from its version.
pub open spec fn told(w: Seq<u8>) -> Seq<Seq<u8>> {
    if dropped(w) {
        Seq::empty()
    } else if glued(w) {
        let i = digit_at(w, 0);
        unless_dropped(w.take(i)) + unless_dropped(w.skip(i))
    } else {
        seq![w]
    }
}

/// Whether a word names a format that comes in variants, as `q8` in `q8_0`.
pub open spec fn has_variants(w: Seq<u8>) -> bool {
    w == text::bytes("q4") || w == text::bytes("q5") || w == text::bytes("q8")
}

/// Whether a word reads as the number of a variant.
pub open spec fn numbers_variant(w: Seq<u8>) -> bool {
    w.len() == 1 && (w[0] == 48 || w[0] == 49)
}

/// What the words up to the submitter's own setup contribute. The number of a
/// variant belongs to the format `before` it and goes with it; the whole part of
/// a size, as in `q8-1.7b`, is no such number.
pub open spec fn reduced(before: Seq<u8>, ws: Seq<Word>) -> Seq<Seq<u8>>
    decreases ws.len(),
{
    if ws.len() == 0 || starts_tail(ws[0].text) {
        Seq::empty()
    } else if has_variants(before) && numbers_variant(ws[0].text) && !ws[0].pointed {
        reduced(ws[0].text, ws.drop_first())
    } else {
        told(ws[0].text) + reduced(ws[0].text, ws.drop_first())
    }
}

/// `meta-llama` is known as `llama`.
pub open spec fn without_meta(ws: Seq<Seq<u8>>) -> Seq<Seq<u8>> {
    if ws.len() > 1 && ws[0] == text::bytes("meta") && ws[1] == text::bytes("llama") {
        ws.drop_first()
    } else {
        ws
    }
}

/// The words without the release dates at their end, which tell refreshes apart
/// that run at the same speed.
pub open spec fn undated(ws: Seq<Seq<u8>>) -> Seq<Seq<u8>>
    decreases ws.len(),
{
    if ws.len() > 0 && ws.last().len() == 4 && text::all_digits(ws.last()) {
        undated(ws.drop_last())
    } else {
        ws
    }
}

/// The words joined by dashes.
pub open spec fn joined(ws: Seq<Seq<u8>>) -> Seq<u8>
    decreases ws.len(),
{
    if ws.len() == 0 {
        Seq::empty()
    } else if ws.len() == 1 {
        ws[0]
    } else {
        joined(ws.drop_last()).push(45) + ws.last()
    }
}

/// A name in lower case, without its publisher and file ending.
pub open spec fn plain_name(name: Seq<u8>) -> Seq<u8> {
    let base = names::after_org(text::lowered(name));
    if text::ends_with(base, text::bytes(".gguf")) {
        base.take(base.len() - 5)
    } else {
        base
    }
}

/// The key that names of one model from different sources have in common.
pub open spec fn normalized(name: Seq<u8>) -> Seq<u8> {
    joined(undated(without_meta(reduced(Seq::empty(), words(plain_name(name))))))
}

/// The texts of a vector.
pub open spec fn texts(v: Seq<Vec<u8>>) -> Seq<Seq<u8>> {
    Seq::new(v.len(), |i: int| v[i]@)
}

fn drop_table() -> (r: [&'static str; 47])
    ensures
        r@ == drop_words(),
{
    let r: [&'static str; 47] = [
        "q2",
        "q3",
        "q4",
        "q5",
        "q6",
        "q8",
        "k",
        "m",
        "s",
        "l",
        "f16",
        "fp16",
        "bf16",
        "f32",
        "mxfp4",
        "mxfp8",
        "nvfp4",
        "int4",
        "int8",
        "fp8",
        "4bit",
        "8bit",
        "gguf",
        "awq",
        "gptq",
        "exl2",
        "mlx",
        "bnb",
        "unsloth",
        "qat",
        "ud",
        "xl",
        "quantized",
        "instruct",
        "it",
        "chat",
        "sft",
        "dpo",
        "hf",
        "base",
        "text",
        "abliterated",
        "uncensored",
        "preview",
        "latest",
        "pt",
        "distill",
    ];
    assert(r@ =~= drop_words());
    r
}

fn is_dropped(w: &[u8]) -> (r: bool)
    ensures
        r == dropped(w@),
{
    let table: [&'static str; 47] = drop_table();
    let mut i: usize = 0;
    while i < 47
        invariant
            i <= 47,
            table@ == drop_words(),
            forall|k: int| 0 <= k < i ==> w@ != text::bytes(#[trigger] drop_words()[k]),
        decreases 47 - i,
    {
        if text::is(w, table[i]) {
            assert(w@ == text::bytes(drop_words()[i as int]));
            return true;
        }
        i = i + 1;
    }
    false
}

fn digits_only(w: &[u8], from: usize) -> (r: bool)
    requires
        from <= w@.len(),
    ensures
        r == text::all_digits(w@.skip(from as int)),
{
    let mut i: usize = from;
    while i < w.len()
        invariant
            from <= i <= w@.len(),
            forall|k: int| from <= k < i ==> text::is_digit(#[trigger] w@[k]),
        decreases w.len() - i,
    {
        if !text::digit(w[i]) {
            assert(w@.skip(from as int)[i - from] == w@[i as int]);
            return false;
        }
        i = i + 1;
    }
    assert forall|k: int| 0 <= k < w@.skip(from as int).len() implies text::is_digit(
        #[trigger] w@.skip(from as int)[k],
    ) by {
        assert(w@.skip(from as int)[k] == w@[from + k]);
    }
    true
}

fn holds_digit(w: &[u8]) -> (r: bool)
    ensures
        r == any_digit(w@),
{
    let mut i: usize = 0;
    while i < w.len()
        invariant
            i <= w@.len(),
            forall|k: int| 0 <= k < i ==> !text::is_digit(#[trigger] w@[k]),
        decreases w.len() - i,
    {
        if text::digit(w[i]) {
            assert(text::is_digit(w@[i as int]));
            return true;
        }
        i = i + 1;
    }
    false
}

fn begins_tail(w: &[u8]) -> (r: bool)
    ensures
        r == starts_tail(w@),
{
    proof {
        reveal_strlit("gpu");
        text::lemma_ascii("gpu");
    }
    text::is(w, "agent") || text::is(w, "enfixed") || text::is(w, "cpu") || (text::begins(
        w,
        "gpu".as_bytes(),
    ) && w.len() > 3 && digits_only(w, 3)) || (text::contains(w, "ctx".as_bytes()) && holds_digit(
        w,
    ))
}

/// Where a family glued to its version is to be parted.
fn glue_at(w: &[u8]) -> (r: Option<usize>)
    ensures
        match r {
            Some(i) => glued(w@) && i == digit_at(w@, 0),
            None => !glued(w@),
        },
{
    let mut i: usize = 0;
    let mut letters: bool = true;
    while i < w.len() && !text::digit(w[i])
        invariant
            i <= w@.len(),
            digit_at(w@, 0) == digit_at(w@, i as int),
            letters == all_letters(w@.take(i as int)),
        decreases w.len() - i,
    {
        let l: bool = text::letter(w[i]);
        proof {
            let a = w@.take(i as int);
            let b = w@.take(i + 1);
            assert(b[i as int] == w@[i as int]);
            assert(forall|k: int| 0 <= k < i ==> a[k] == b[k]);
            if letters && l {
                assert forall|k: int| 0 <= k < b.len() implies text::is_letter(#[trigger] b[k]) by {
                    if k < i {
                        assert(text::is_letter(a[k]));
                    }
                }
            } else if !letters {
                let k = choose|k: int| 0 <= k < a.len() && !text::is_letter(#[trigger] a[k]);
                assert(!text::is_letter(b[k]));
            }
        }
        letters = letters && l;
        i = i + 1;
    }
    if 3 <= i && i < w.len() && letters && digits_only(w, i) {
        Some(i)
    } else {
        None
    }
}

/// A copy of a text.
fn copied(s: &[u8]) -> (r: Vec<u8>)
    ensures
        r@ == s@,
{
    let mut out: Vec<u8> = Vec::new();
    text::append(&mut out, s);
    assert(out@ =~= s@);
    out
}

fn is_of_variants(w: &[u8]) -> (r: bool)
    ensures
        r == has_variants(w@),
{
    text::is(w, "q4") || text::is(w, "q5") || text::is(w, "q8")
}

fn push_unless_dropped(out: &mut Vec<Vec<u8>>, w: &[u8])
    ensures
        texts(final(out)@) == texts(old(out)@) + unless_dropped(w@),
{
    let ghost before: Seq<Seq<u8>> = texts(out@);
    if !is_dropped(w) {
        out.push(copied(w));
    }
    assert(texts(out@) =~= before + unless_dropped(w@));
}

/// Add what a word contributes.
fn tell(out: &mut Vec<Vec<u8>>, w: &[u8])
    ensures
        texts(final(out)@) == texts(old(out)@) + told(w@),
{
    let ghost before: Seq<Seq<u8>> = texts(out@);
    if !is_dropped(w) {
        match glue_at(w) {
            Some(i) => {
                push_unless_dropped(out, vstd::slice::slice_subrange(w, 0, i));
                push_unless_dropped(out, vstd::slice::slice_subrange(w, i, w.len()));
                proof {
                    assert(w@.subrange(0, i as int) =~= w@.take(i as int));
                    assert(w@.subrange(i as int, w@.len() as int) =~= w@.skip(i as int));
                }
            },
            None => {
                out.push(copied(w));
            },
        }
    }
    assert(texts(out@) =~= before + told(w@));
}

/// What the words of a name contribute, up to the submitter's own setup.
fn reduce(s: &[u8]) -> (r: Vec<Vec<u8>>)
    ensures
        texts(r@) == reduced(Seq::empty(), words(s@)),
{
    let mut out: Vec<Vec<u8>> = Vec::new();
    let ghost total: Seq<Seq<u8>> = reduced(Seq::empty(), words(s@));
    let ghost mut last: Seq<u8> = Seq::empty();
    let mut from: usize = 0;
    let mut variants: bool = false;
    proof {
        assert(s@.skip(0) =~= s@);
        assert(texts(out@) + total =~= total);
        lemma_no_variants();
    }
    while from < s.len()
        invariant
            from <= s@.len(),
            total == reduced(Seq::empty(), words(s@)),
            variants == has_variants(last),
            texts(out@) + reduced(last, words(s@.skip(from as int))) == total,
        decreases s.len() - from,
    {
        let ghost rest: Seq<u8> = s@.skip(from as int);
        let mut end: usize = from;
        while end < s.len() && !is_separator(s[end])
            invariant
                from <= end <= s@.len(),
                rest == s@.skip(from as int),
                break_at(rest, 0) == break_at(rest, end - from),
            decreases s.len() - end,
        {
            assert(rest[end - from] == s@[end as int]);
            end = end + 1;
        }
        proof {
            if end < s@.len() {
                assert(rest[end - from] == s@[end as int]);
            }
            assert(break_at(rest, 0) == end - from);
        }
        let w: &[u8] = vstd::slice::slice_subrange(s, from, end);
        let pointed: bool = end < s.len() - 1 && s[end] == 46 && !is_separator(s[end + 1]);
        let ghost word: Word = Word { text: w@, pointed };
        let ghost later: Seq<Word> = if end < s@.len() {
            words(s@.skip(end + 1))
        } else {
            Seq::empty()
        };
        proof {
            assert(rest.take(end - from) =~= w@);
            if end < s@.len() {
                assert(rest.skip(end - from + 1) =~= s@.skip(end + 1));
            }
            if end > from {
                if end + 1 < s@.len() {
                    assert(rest[end - from + 1] == s@[end + 1]);
                }
                assert(pointed == point_at(rest, end - from));
                assert(words(rest) == seq![word] + later);
                assert((seq![word] + later)[0] == word);
                assert((seq![word] + later).drop_first() =~= later);
            } else {
                assert(words(rest) == later);
            }
        }
        if end > from {
            if begins_tail(w) {
                assert(texts(out@) + reduced(last, words(rest)) =~= texts(out@));
                return out;
            }
            let ghost before: Seq<Seq<u8>> = texts(out@);
            if !(variants && w.len() == 1 && (w[0] == 48 || w[0] == 49) && !pointed) {
                tell(&mut out, w);
                assert(before + (told(w@) + reduced(w@, later)) =~= texts(out@) + reduced(
                    w@,
                    later,
                ));
            }
            variants = is_of_variants(w);
            proof {
                last = w@;
            }
        }
        if end == s.len() {
            assert(texts(out@) + reduced(last, later) =~= texts(out@));
            return out;
        }
        from = end + 1;
    }
    proof {
        assert(words(s@.skip(from as int)) =~= Seq::empty());
        assert(texts(out@) + reduced(last, words(s@.skip(from as int))) =~= texts(out@));
    }
    out
}

/// No word is no format.
proof fn lemma_no_variants()
    ensures
        !has_variants(Seq::empty()),
{
    reveal_strlit("q4");
    reveal_strlit("q5");
    reveal_strlit("q8");
    text::lemma_ascii("q4");
    text::lemma_ascii("q5");
    text::lemma_ascii("q8");
}

fn is_separator(b: u8) -> (r: bool)
    ensures
        r == separator(b),
{
    b == 45 || b == 95 || b == 46 || b == 32 || b == 58
}

/// The words joined by dashes.
fn join(ws: &Vec<Vec<u8>>, from: usize, to: usize) -> (r: Vec<u8>)
    requires
        from <= to <= ws@.len(),
    ensures
        r@ == joined(texts(ws@).subrange(from as int, to as int)),
{
    let mut out: Vec<u8> = Vec::new();
    let mut i: usize = from;
    let ghost all: Seq<Seq<u8>> = texts(ws@);
    while i < to
        invariant
            from <= i <= to <= ws@.len(),
            all == texts(ws@),
            out@ == joined(all.subrange(from as int, i as int)),
        decreases to - i,
    {
        let ghost next: Seq<Seq<u8>> = all.subrange(from as int, i + 1);
        assert(next.drop_last() =~= all.subrange(from as int, i as int));
        assert(next.last() == ws@[i as int]@);
        if i > from {
            out.push(45);
        }
        text::append(&mut out, ws[i].as_slice());
        assert(out@ =~= joined(next));
        i = i + 1;
    }
    out
}

/// A name from any source as the key that all sources have in common: the family
/// and the size, for that is what decides how fast a model decodes.
pub fn normalize_model(name: &str) -> (r: String)
    ensures
        encode_utf8(r@) == normalized(text::bytes(name)),
{
    let ghost raw: Seq<u8> = text::bytes(name);
    let low: Vec<u8> = text::lower_copy(name.as_bytes());
    let mut start: usize = low.len();
    assert(low@.take(start as int) =~= low@);
    while start > 0 && low[start - 1] != 47
        invariant
            start <= low@.len(),
            names::slash_end(low@) == names::slash_end(low@.take(start as int)),
        decreases start,
    {
        assert(low@.take(start as int).drop_last() =~= low@.take(start - 1));
        start = start - 1;
    }
    proof {
        if start > 0 {
            assert(low@.take(start as int).last() == 47);
        }
        reveal_strlit(".gguf");
        text::lemma_ascii(".gguf");
    }
    let base: &[u8] = vstd::slice::slice_subrange(low.as_slice(), start, low.len());
    assert(base@ == names::after_org(text::lowered(raw)));
    let end: usize = if text::ends(base, ".gguf".as_bytes()) {
        base.len() - 5
    } else {
        base.len()
    };
    let plain: &[u8] = vstd::slice::slice_subrange(base, 0, end);
    assert(plain@ =~= plain_name(raw));
    let ws: Vec<Vec<u8>> = reduce(plain);
    let ghost all: Seq<Seq<u8>> = texts(ws@);
    let from: usize = if ws.len() > 1 && text::is(ws[0].as_slice(), "meta") && text::is(
        ws[1].as_slice(),
        "llama",
    ) {
        1
    } else {
        0
    };
    let ghost named: Seq<Seq<u8>> = without_meta(all);
    assert(named =~= all.subrange(from as int, all.len() as int)) by {
        if ws@.len() > 1 {
            assert(all[0] == ws@[0]@ && all[1] == ws@[1]@);
        }
    }
    let mut to: usize = ws.len();
    while to > from && ws[to - 1].len() == 4 && digits_only(ws[to - 1].as_slice(), 0)
        invariant
            from <= to <= ws@.len(),
            all == texts(ws@),
            undated(named) == undated(all.subrange(from as int, to as int)),
        decreases to,
    {
        let ghost part: Seq<Seq<u8>> = all.subrange(from as int, to as int);
        assert(part.last() == ws@[to - 1]@);
        assert(part.last().skip(0) =~= part.last());
        assert(part.drop_last() =~= all.subrange(from as int, to - 1));
        to = to - 1;
    }
    proof {
        let part = all.subrange(from as int, to as int);
        if to > from {
            assert(part.last() == ws@[to - 1]@);
            assert(part.last().skip(0) =~= part.last());
        }
        assert(undated(part) == part);
        encode_utf8_valid_utf8(name@);
        lemma_normalized_valid(raw);
    }
    let key: Vec<u8> = join(&ws, from, to);
    match text::utf8(key.as_slice()) {
        Some(s) => s.to_owned(),
        None => text::nothing().to_owned(),
    }
}

// --- names stay text --------------------------------------------------------

pub open spec fn all_valid(ws: Seq<Seq<u8>>) -> bool {
    forall|i: int| 0 <= i < ws.len() ==> valid_utf8(#[trigger] ws[i])
}

/// The words without what joins them.
pub open spec fn spelled(ws: Seq<Word>) -> Seq<Seq<u8>> {
    Seq::new(ws.len(), |i: int| ws[i].text)
}

/// Lower case is text where the text was.
proof fn lemma_lowered_valid(s: Seq<u8>)
    requires
        valid_utf8(s),
    ensures
        valid_utf8(text::lowered(s)),
    decreases s.len(),
{
    let t = text::lowered(s);
    if s.len() > 0 {
        let n = length_of_first_scalar(s);
        let rest = pop_first_scalar(s);
        lemma_lowered_valid(rest);
        if s[0] < 0x80 {
            let b = t[0];
            assert(b & 0x7f == b) by (bit_vector)
                requires
                    b < 0x80,
            ;
        }
        assert(valid_first_scalar(t));
        assert(pop_first_scalar(t) =~= text::lowered(rest));
    }
}

/// A text parted around an ASCII byte.
proof fn lemma_parted_valid(s: Seq<u8>, i: int)
    requires
        valid_utf8(s),
        0 <= i < s.len(),
        s[i] < 0x80,
    ensures
        valid_utf8(s.take(i)),
        valid_utf8(s.skip(i)),
        valid_utf8(s.skip(i + 1)),
{
    text::lemma_boundary_around_ascii(s, i);
    valid_utf8_split(s, i);
    valid_utf8_split(s, i + 1);
    assert(s.take(i) =~= s.subrange(0, i));
    assert(s.skip(i) =~= s.subrange(i, s.len() as int));
    assert(s.skip(i + 1) =~= s.subrange(i + 1, s.len() as int));
}

proof fn lemma_break_at(s: Seq<u8>, from: int)
    requires
        0 <= from <= s.len(),
    ensures
        from <= break_at(s, from) <= s.len(),
        break_at(s, from) < s.len() ==> separator(s[break_at(s, from)]),
    decreases s.len() - from,
{
    if from < s.len() && !separator(s[from]) {
        lemma_break_at(s, from + 1);
    }
}

proof fn lemma_digit_at(s: Seq<u8>, from: int)
    requires
        0 <= from <= s.len(),
    ensures
        from <= digit_at(s, from) <= s.len(),
        digit_at(s, from) < s.len() ==> text::is_digit(s[digit_at(s, from)]),
    decreases s.len() - from,
{
    if from < s.len() && !text::is_digit(s[from]) {
        lemma_digit_at(s, from + 1);
    }
}

proof fn lemma_words_valid(s: Seq<u8>)
    requires
        valid_utf8(s),
    ensures
        all_valid(spelled(words(s))),
    decreases s.len(),
{
    if s.len() > 0 {
        let i = break_at(s, 0);
        lemma_break_at(s, 0);
        if i < s.len() {
            lemma_parted_valid(s, i);
            lemma_words_valid(s.skip(i + 1));
            let rest = words(s.skip(i + 1));
            let first = Word { text: s.take(i), pointed: point_at(s, i) };
            assert(spelled(seq![first] + rest) =~= seq![first.text] + spelled(rest));
        } else {
            assert(s.take(i) =~= s);
        }
    }
}

proof fn lemma_told_valid(w: Seq<u8>)
    requires
        valid_utf8(w),
    ensures
        all_valid(told(w)),
{
    if glued(w) {
        lemma_digit_at(w, 0);
        lemma_parted_valid(w, digit_at(w, 0));
    }
}

proof fn lemma_reduced_valid(before: Seq<u8>, ws: Seq<Word>)
    requires
        all_valid(spelled(ws)),
    ensures
        all_valid(reduced(before, ws)),
    decreases ws.len(),
{
    if ws.len() > 0 && !starts_tail(ws[0].text) {
        assert(spelled(ws)[0] == ws[0].text);
        lemma_told_valid(ws[0].text);
        assert(spelled(ws.drop_first()) =~= spelled(ws).drop_first());
        lemma_reduced_valid(ws[0].text, ws.drop_first());
    }
}

proof fn lemma_undated_valid(ws: Seq<Seq<u8>>)
    requires
        all_valid(ws),
    ensures
        all_valid(undated(ws)),
    decreases ws.len(),
{
    if ws.len() > 0 {
        lemma_undated_valid(ws.drop_last());
    }
}

proof fn lemma_joined_valid(ws: Seq<Seq<u8>>)
    requires
        all_valid(ws),
    ensures
        valid_utf8(joined(ws)),
    decreases ws.len(),
{
    if ws.len() > 1 {
        lemma_joined_valid(ws.drop_last());
        numeral::lemma_ascii_valid(seq![45u8]);
        let head = joined(ws.drop_last());
        valid_utf8_concat(head, seq![45u8]);
        assert(head.push(45) =~= head + seq![45u8]);
        valid_utf8_concat(head.push(45), ws.last());
    }
}

proof fn lemma_slash_end(s: Seq<u8>)
    ensures
        0 <= names::slash_end(s) <= s.len(),
        names::slash_end(s) > 0 ==> s[names::slash_end(s) - 1] == 47,
    decreases s.len(),
{
    if s.len() > 0 && s.last() != 47 {
        lemma_slash_end(s.drop_last());
    }
}

/// The key of a name is text.
proof fn lemma_normalized_valid(name: Seq<u8>)
    requires
        valid_utf8(name),
    ensures
        valid_utf8(normalized(name)),
{
    let low = text::lowered(name);
    lemma_lowered_valid(name);
    lemma_slash_end(low);
    let k = names::slash_end(low);
    let base = names::after_org(low);
    if k > 0 {
        lemma_parted_valid(low, k - 1);
        assert(base =~= low.skip(k));
    } else {
        assert(base =~= low);
    }
    let plain = plain_name(name);
    if text::ends_with(base, text::bytes(".gguf")) {
        reveal_strlit(".gguf");
        text::lemma_ascii(".gguf");
        let tail = base.subrange(base.len() - 5, base.len() as int);
        assert(tail[0] == 46);
        lemma_parted_valid(base, base.len() - 5);
    }
    lemma_words_valid(plain);
    lemma_reduced_valid(Seq::empty(), words(plain));
    let named = without_meta(reduced(Seq::empty(), words(plain)));
    lemma_undated_valid(named);
    lemma_joined_valid(undated(named));
}

// --- laws -------------------------------------------------------------------

/// A word that says how a model was packaged or tuned does not count, whatever
/// stands before and behind it; nor does the number of a variant behind it,
/// unless a point makes that number the whole part of a size.
pub proof fn law_packaging_does_not_count(before: Seq<u8>, w: Word, ws: Seq<Word>)
    requires
        dropped(w.text),
    ensures
        told(w.text) == Seq::<Seq<u8>>::empty(),
        !starts_tail(w.text) ==> reduced(before, seq![w] + ws) == reduced(w.text, ws),
        has_variants(w.text) && ws.len() > 0 && numbers_variant(ws[0].text) && !starts_tail(
            ws[0].text,
        ) ==> reduced(w.text, ws) == if ws[0].pointed {
            told(ws[0].text) + reduced(ws[0].text, ws.drop_first())
        } else {
            reduced(ws[0].text, ws.drop_first())
        },
{
    let all = seq![w] + ws;
    assert(all[0] == w);
    assert(all.drop_first() =~= ws);
    assert(told(w.text) + reduced(w.text, ws) =~= reduced(w.text, ws));
}

/// The case of a name does not count.
pub proof fn law_keys_ignore_case(a: Seq<u8>, b: Seq<u8>)
    requires
        text::lowered(a) == text::lowered(b),
    ensures
        normalized(a) == normalized(b),
{
}

/// Who published a model does not count.
pub proof fn law_keys_ignore_the_publisher(org: Seq<u8>, name: Seq<u8>)
    ensures
        normalized(org.push(47) + name) == normalized(name),
{
    let whole = text::lowered(org.push(47) + name);
    let low = text::lowered(name);
    assert(whole =~= text::lowered(org).push(47) + low);
    lemma_behind_slash(text::lowered(org), low);
    lemma_slash_end(low);
    assert(names::after_org(whole) =~= names::after_org(low));
}

proof fn lemma_behind_slash(org: Seq<u8>, name: Seq<u8>)
    ensures
        names::slash_end(org.push(47) + name) == org.len() + 1 + names::slash_end(name),
    decreases name.len(),
{
    let whole = org.push(47) + name;
    if name.len() == 0 {
        assert(whole.last() == 47);
    } else if name.last() != 47 {
        assert(whole.drop_last() =~= org.push(47) + name.drop_last());
        lemma_behind_slash(org, name.drop_last());
    }
}

/// Whether two names differ in their separators at most.
pub open spec fn alike(a: Seq<u8>, b: Seq<u8>) -> bool {
    &&& a.len() == b.len()
    &&& forall|i: int|
        0 <= i < a.len() ==> #[trigger] a[i] == #[trigger] b[i] || (separator(a[i]) && separator(
            b[i],
        ))
}

/// Whether a word may be the number of a variant or the whole part of a size.
pub open spec fn in_doubt(ws: Seq<Word>, i: int) -> bool {
    0 < i < ws.len() && has_variants(ws[i - 1].text) && numbers_variant(ws[i].text)
}

/// Which separator stands between the words of a name does not count, so that
/// `qwen3:8b` is `qwen3-8b`. Only behind a number that may be of a variant or of
/// a size, a point tells the two apart.
pub proof fn law_separators_are_alike(a: Seq<u8>, b: Seq<u8>)
    requires
        alike(a, b),
    ensures
        spelled(words(a)) == spelled(words(b)),
        (forall|i: int|
            in_doubt(words(a), i) ==> #[trigger] words(a)[i].pointed == words(b)[i].pointed)
            ==> reduced(Seq::empty(), words(a)) == reduced(Seq::empty(), words(b)),
{
    lemma_same_words(a, b);
    if forall|i: int|
        in_doubt(words(a), i) ==> #[trigger] words(a)[i].pointed == words(b)[i].pointed {
        lemma_no_variants();
        lemma_same_reduced(Seq::empty(), words(a), words(b));
    }
}

proof fn lemma_same_words(a: Seq<u8>, b: Seq<u8>)
    requires
        alike(a, b),
    ensures
        spelled(words(a)) == spelled(words(b)),
    decreases a.len(),
{
    if a.len() > 0 {
        lemma_same_breaks(a, b, 0);
        lemma_break_at(a, 0);
        let i = break_at(a, 0);
        lemma_no_break_before(a, 0, i);
        assert(a.take(i) =~= b.take(i)) by {
            assert forall|k: int| 0 <= k < i implies a[k] == b[k] by {
                assert(!separator(a[k]));
            }
        }
        let (v, w) = (
            Word { text: a.take(i), pointed: point_at(a, i) },
            Word { text: b.take(i), pointed: point_at(b, i) },
        );
        if i < a.len() {
            let (x, y) = (a.skip(i + 1), b.skip(i + 1));
            assert forall|k: int| 0 <= k < x.len() implies #[trigger] x[k] == #[trigger] y[k] || (
            separator(x[k]) && separator(y[k])) by {
                assert(x[k] == a[k + i + 1] && y[k] == b[k + i + 1]);
            }
            lemma_same_words(x, y);
            assert(spelled(seq![v] + words(x)) =~= seq![v.text] + spelled(words(x)));
            assert(spelled(seq![w] + words(y)) =~= seq![w.text] + spelled(words(y)));
        } else {
            assert(spelled(words(a)) =~= seq![v.text]);
            assert(spelled(words(b)) =~= seq![w.text]);
        }
    } else {
        assert(a =~= b);
    }
}

proof fn lemma_same_reduced(before: Seq<u8>, x: Seq<Word>, y: Seq<Word>)
    requires
        spelled(x) == spelled(y),
        x.len() > 0 && has_variants(before) && numbers_variant(x[0].text) ==> x[0].pointed
            == y[0].pointed,
        forall|i: int| in_doubt(x, i) ==> #[trigger] x[i].pointed == y[i].pointed,
    ensures
        reduced(before, x) == reduced(before, y),
    decreases x.len(),
{
    assert(x.len() == spelled(x).len() && y.len() == spelled(y).len());
    if x.len() > 0 {
        assert(x[0].text == spelled(x)[0] && y[0].text == spelled(y)[0]);
        let (p, q) = (x.drop_first(), y.drop_first());
        assert(spelled(p) =~= spelled(x).drop_first());
        assert(spelled(q) =~= spelled(y).drop_first());
        assert forall|i: int| in_doubt(p, i) implies #[trigger] p[i].pointed == q[i].pointed by {
            assert(in_doubt(x, i + 1));
            assert(x[i + 1].pointed == y[i + 1].pointed);
        }
        if p.len() > 0 && has_variants(x[0].text) && numbers_variant(p[0].text) {
            assert(in_doubt(x, 1));
            assert(x[1].pointed == y[1].pointed);
        }
        lemma_same_reduced(x[0].text, p, q);
    }
}

proof fn lemma_same_breaks(a: Seq<u8>, b: Seq<u8>, from: int)
    requires
        alike(a, b),
        0 <= from <= a.len(),
    ensures
        break_at(a, from) == break_at(b, from),
    decreases a.len() - from,
{
    if from < a.len() {
        assert(a[from] == b[from] || (separator(a[from]) && separator(b[from])));
        if !separator(a[from]) {
            lemma_same_breaks(a, b, from + 1);
        }
    }
}

proof fn lemma_no_break_before(s: Seq<u8>, from: int, k: int)
    requires
        0 <= from <= s.len(),
        k == break_at(s, from),
    ensures
        forall|i: int| from <= i < k ==> !separator(#[trigger] s[i]),
    decreases s.len() - from,
{
    if from < s.len() && !separator(s[from]) {
        lemma_no_break_before(s, from + 1, k);
    }
}

} // verus!
