//! Which weights a model's name stands for.
//!
//! Catalogs are full of the same weights published again as GGUF, AWQ, MLX or a
//! 4-bit dump. Those are useful downloads but not distinct recommendations, so
//! names are compared without the publisher and the marks of repackaging.

use vstd::prelude::*;
use vstd::utf8::*;

use crate::text;

verus! {

/// The endings that mark a repackage. They stack: `-mxfp4-q8` is two of them.
pub open spec fn repackage_suffixes() -> Seq<&'static str> {
    seq![
        "-gguf",
        "-awq",
        "-gptq",
        "-exl2",
        "-mlx",
        "-mxfp4",
        "-bf16",
        "-fp16",
        "-fp8",
        "-int4",
        "-int8",
        "-4bit",
        "-8bit",
        "-q8",
        "-q4",
        "-bnb",
        "-unsloth",
        "-quantized",
        "-hf",
    ]
}

/// Where the text after the last slash begins.
pub open spec fn slash_end(s: Seq<u8>) -> int
    decreases s.len(),
{
    if s.len() == 0 {
        0
    } else if s.last() == 47 {
        s.len() as int
    } else {
        slash_end(s.drop_last())
    }
}

/// A name without its publisher.
pub open spec fn after_org(s: Seq<u8>) -> Seq<u8> {
    s.subrange(slash_end(s), s.len() as int)
}

/// Whether `s` is something followed by `suffix`, in any case.
pub open spec fn ends_in(s: Seq<u8>, suffix: Seq<u8>) -> bool {
    &&& 0 < suffix.len() < s.len()
    &&& text::lowered(s.subrange(s.len() - suffix.len(), s.len() as int)) == text::lowered(suffix)
}

/// How many bytes the marks of repackaging at the end of `s` take, the last
/// one alone; zero where there is none.
pub open spec fn mark_len(s: Seq<u8>, from: int) -> nat
    decreases repackage_suffixes().len() - from,
{
    if from < 0 || from >= repackage_suffixes().len() {
        0
    } else if ends_in(s, text::bytes(repackage_suffixes()[from])) {
        text::bytes(repackage_suffixes()[from]).len()
    } else {
        mark_len(s, from + 1)
    }
}

/// A name without its marks of repackaging.
pub open spec fn unmarked(s: Seq<u8>) -> Seq<u8>
    decreases s.len(),
{
    let n = mark_len(s, 0);
    if 0 < n <= s.len() {
        unmarked(s.take(s.len() - n))
    } else {
        s
    }
}

/// The part of a name that says which weights it stands for.
pub open spec fn base_spec(s: Seq<u8>) -> Seq<u8> {
    unmarked(after_org(s))
}

pub open spec fn same_weights_spec(a: Seq<u8>, b: Seq<u8>) -> bool {
    text::lowered(base_spec(a)) == text::lowered(base_spec(b))
}

fn suffix_table() -> (r: [&'static str; 19])
    ensures
        r@ == repackage_suffixes(),
{
    let r: [&'static str; 19] = [
        "-gguf",
        "-awq",
        "-gptq",
        "-exl2",
        "-mlx",
        "-mxfp4",
        "-bf16",
        "-fp16",
        "-fp8",
        "-int4",
        "-int8",
        "-4bit",
        "-8bit",
        "-q8",
        "-q4",
        "-bnb",
        "-unsloth",
        "-quantized",
        "-hf",
    ];
    assert(r@ =~= repackage_suffixes());
    r
}

/// Every suffix is a dash and then no other dash.
pub open spec fn dashed(s: Seq<u8>) -> bool {
    &&& s.len() > 1
    &&& s[0] == 45
    &&& forall|i: int| 0 < i < s.len() ==> s[i] != 45
    &&& forall|i: int| 0 <= i < s.len() ==> #[trigger] s[i] != 47
}

proof fn lemma_dashed(i: int)
    requires
        0 <= i < repackage_suffixes().len(),
    ensures
        dashed(text::bytes(repackage_suffixes()[i])),
{
    reveal_strlit("-gguf");
    reveal_strlit("-awq");
    reveal_strlit("-gptq");
    reveal_strlit("-exl2");
    reveal_strlit("-mlx");
    reveal_strlit("-mxfp4");
    reveal_strlit("-bf16");
    reveal_strlit("-fp16");
    reveal_strlit("-fp8");
    reveal_strlit("-int4");
    reveal_strlit("-int8");
    reveal_strlit("-4bit");
    reveal_strlit("-8bit");
    reveal_strlit("-q8");
    reveal_strlit("-q4");
    reveal_strlit("-bnb");
    reveal_strlit("-unsloth");
    reveal_strlit("-quantized");
    reveal_strlit("-hf");
    text::lemma_ascii(repackage_suffixes()[i]);
}

/// What `mark_len` finds is a suffix that `s` ends in.
proof fn lemma_mark(s: Seq<u8>, from: int)
    requires
        0 <= from,
    ensures
        mark_len(s, from) > 0 ==> exists|i: int|
            {
                &&& from <= i < repackage_suffixes().len()
                &&& ends_in(s, #[trigger] text::bytes(repackage_suffixes()[i]))
                &&& text::bytes(repackage_suffixes()[i]).len() == mark_len(s, from)
            },
        mark_len(s, from) == 0 ==> forall|i: int|
            from <= i < repackage_suffixes().len() ==> !ends_in(
                s,
                #[trigger] text::bytes(repackage_suffixes()[i]),
            ),
    decreases repackage_suffixes().len() - from,
{
    if from < repackage_suffixes().len() {
        if !ends_in(s, text::bytes(repackage_suffixes()[from])) {
            lemma_mark(s, from + 1);
        }
    }
}

/// A text ends in suffixes of at most one length.
proof fn lemma_one_mark(s: Seq<u8>, a: Seq<u8>, b: Seq<u8>)
    requires
        dashed(a),
        dashed(b),
        ends_in(s, a),
        ends_in(s, b),
    ensures
        a.len() == b.len(),
{
    let at = text::lowered(s.subrange(s.len() - a.len(), s.len() as int));
    let bt = text::lowered(s.subrange(s.len() - b.len(), s.len() as int));
    assert(at[0] == text::lowered(a)[0]);
    assert(bt[0] == text::lowered(b)[0]);
    if a.len() < b.len() {
        let i = b.len() - a.len();
        assert(bt[i] == text::lower(s[s.len() - a.len()]));
        assert(at[0] == text::lower(s[s.len() - a.len()]));
        assert(text::lowered(b)[i] == text::lower(b[i]));
        assert(b[i] != 45);
        assert(false);
    }
    if b.len() < a.len() {
        let i = a.len() - b.len();
        assert(at[i] == text::lower(s[s.len() - b.len()]));
        assert(bt[0] == text::lower(s[s.len() - b.len()]));
        assert(text::lowered(a)[i] == text::lower(a[i]));
        assert(a[i] != 45);
        assert(false);
    }
}

/// The part of a model's name that says which weights it stands for: without
/// the publisher and any marks of repackaging, so that
/// `unsloth/gpt-oss-20b-BF16` and `openai/gpt-oss-20b` come to the same. A part
/// of the name itself, never a copy.
pub fn base_name(name: &str) -> (r: &str)
    ensures
        text::bytes(r) == base_spec(text::bytes(name)),
{
    let ghost whole: Seq<u8> = text::bytes(name);
    proof {
        encode_utf8_valid_utf8(name@);
    }
    let raw: &[u8] = name.as_bytes();
    let mut at: usize = raw.len();
    assert(whole.take(whole.len() as int) =~= whole);
    while at > 0 && raw[at - 1] != 47
        invariant
            raw@ == whole,
            at <= whole.len(),
            slash_end(whole) == slash_end(whole.take(at as int)),
        decreases at,
    {
        assert(whole.take(at as int).drop_last() =~= whole.take(at - 1));
        at = at - 1;
    }
    proof {
        if at > 0 {
            assert(whole.take(at as int).last() == 47);
            text::lemma_boundary_around_ascii(whole, at - 1);
        } else {
            is_char_boundary_start_end_of_seq(whole);
        }
    }
    let (_, rest): (&str, &str) = name.split_at(at);
    let mut out: &str = rest;
    assert(text::bytes(out) =~= after_org(whole));
    let table: [&'static str; 19] = suffix_table();
    loop
        invariant
            table@ == repackage_suffixes(),
            unmarked(text::bytes(out)) == unmarked(after_org(whole)),
        ensures
            text::bytes(out) == unmarked(after_org(whole)),
        decreases text::bytes(out).len(),
    {
        let now: &[u8] = out.as_bytes();
        let mut i: usize = 0;
        while i < 19 && !ends_in_exec(now, table[i].as_bytes())
            invariant
                i <= 19,
                table@ == repackage_suffixes(),
                mark_len(now@, 0) == mark_len(now@, i as int),
            decreases 19 - i,
        {
            i = i + 1;
        }
        if i == 19 {
            break;
        }
        let n: usize = table[i].as_bytes().len();
        proof {
            let ghost s = text::bytes(out);
            lemma_dashed(i as int);
            let ghost t = text::bytes(repackage_suffixes()[i as int]);
            encode_utf8_valid_utf8(out@);
            let ghost cut = s.len() - n;
            assert(text::lowered(s.subrange(cut, s.len() as int))[0] == text::lowered(t)[0]);
            assert(text::lower(s[cut]) == 45);
            text::lemma_boundary_around_ascii(s, cut);
            assert(s.take(cut) =~= s.subrange(0, cut));
        }
        let (kept, _): (&str, &str) = out.split_at(now.len() - n);
        out = kept;
    }
    out
}

fn ends_in_exec(s: &[u8], suffix: &[u8]) -> (r: bool)
    ensures
        r == ends_in(s@, suffix@),
{
    0 < suffix.len() && suffix.len() < s.len() && text::equal_ignoring_case(
        vstd::slice::slice_subrange(s, s.len() - suffix.len(), s.len()),
        suffix,
    )
}

/// Whether two names stand for the same weights.
pub fn same_weights(a: &str, b: &str) -> (r: bool)
    ensures
        r == same_weights_spec(text::bytes(a), text::bytes(b)),
{
    text::equal_ignoring_case(base_name(a).as_bytes(), base_name(b).as_bytes())
}

// --- laws -------------------------------------------------------------------

/// Repackaging does not change the weights: a name with one more of the marks
/// at its end, in any case, comes to the same.
pub proof fn law_repackages_come_to_the_same(name: Seq<u8>, i: int, mark: Seq<u8>)
    requires
        0 <= i < repackage_suffixes().len(),
        text::lowered(mark) == text::lowered(text::bytes(repackage_suffixes()[i])),
        after_org(name).len() > 0,
    ensures
        base_spec(name + mark) == base_spec(name),
        same_weights_spec(name + mark, name),
{
    let suffix = text::bytes(repackage_suffixes()[i]);
    lemma_dashed(i);
    assert(mark.len() == suffix.len()) by {
        assert(text::lowered(mark).len() == text::lowered(suffix).len());
    }
    assert forall|k: int| 0 <= k < mark.len() implies #[trigger] mark[k] != 47 by {
        assert(text::lowered(mark)[k] == text::lowered(suffix)[k]);
        assert(suffix[k] != 47);
    }
    lemma_slash_end_append(name, mark);
    let s = after_org(name);
    let t = after_org(name + mark);
    assert(t =~= s + mark);
    assert(t.subrange(t.len() - suffix.len(), t.len() as int) =~= mark);
    assert(ends_in(t, suffix));
    lemma_mark(t, 0);
    let n = mark_len(t, 0);
    assert(n > 0);
    let j = choose|j: int|
        {
            &&& 0 <= j < repackage_suffixes().len()
            &&& ends_in(t, #[trigger] text::bytes(repackage_suffixes()[j]))
            &&& text::bytes(repackage_suffixes()[j]).len() == n
        };
    lemma_dashed(j);
    lemma_one_mark(t, suffix, text::bytes(repackage_suffixes()[j]));
    assert(t.take(t.len() - n) =~= s);
}

proof fn lemma_slash_end_append(a: Seq<u8>, b: Seq<u8>)
    requires
        forall|k: int| 0 <= k < b.len() ==> #[trigger] b[k] != 47,
    ensures
        slash_end(a + b) == slash_end(a),
        0 <= slash_end(a) <= a.len(),
    decreases b.len(), a.len(),
{
    if b.len() == 0 {
        assert(a + b =~= a);
        if a.len() > 0 {
            lemma_slash_end_append(a.drop_last(), b);
        }
    } else {
        assert((a + b).drop_last() =~= a + b.drop_last());
        lemma_slash_end_append(a, b.drop_last());
    }
}

/// The publisher does not count: what stands before a slash changes nothing
/// about the weights of the name behind it.
pub proof fn law_publishers_do_not_count(org: Seq<u8>, name: Seq<u8>)
    requires
        forall|k: int| 0 <= k < name.len() ==> #[trigger] name[k] != 47,
    ensures
        base_spec(org.push(47) + name) == base_spec(name),
{
    let full = org.push(47);
    lemma_slash_end_append(full, name);
    lemma_slash_end_append(Seq::empty(), name);
    assert(Seq::<u8>::empty() + name =~= name);
    assert(slash_end(full) == full.len());
    assert(after_org(full + name) =~= name);
    assert(after_org(name) =~= name);
}

/// Taking the base of a name again changes nothing.
pub proof fn law_base_is_its_own_base(name: Seq<u8>)
    ensures
        base_spec(base_spec(name)) == base_spec(name),
{
    let s = after_org(name);
    lemma_no_slash_after_org(name);
    lemma_unmarked_prefix(s);
    let b = unmarked(s);
    assert forall|k: int| 0 <= k < b.len() implies #[trigger] b[k] != 47 by {
        assert(b[k] == s[k]);
    }
    lemma_slash_end_append(Seq::empty(), b);
    assert(Seq::<u8>::empty() + b =~= b);
    assert(after_org(b) =~= b);
}

proof fn lemma_no_slash_after_org(s: Seq<u8>)
    ensures
        0 <= slash_end(s) <= s.len(),
        forall|k: int| 0 <= k < after_org(s).len() ==> #[trigger] after_org(s)[k] != 47,
    decreases s.len(),
{
    if s.len() > 0 && s.last() != 47 {
        let t = s.drop_last();
        lemma_no_slash_after_org(t);
        assert forall|k: int| 0 <= k < after_org(s).len() implies #[trigger] after_org(s)[k]
            != 47 by {
            if k < after_org(t).len() {
                assert(after_org(s)[k] == after_org(t)[k]);
            }
        }
    }
}

proof fn lemma_unmarked_prefix(s: Seq<u8>)
    ensures
        unmarked(s).len() <= s.len(),
        unmarked(s) == s.take(unmarked(s).len() as int),
        unmarked(unmarked(s)) == unmarked(s),
    decreases s.len(),
{
    let n = mark_len(s, 0);
    if 0 < n <= s.len() {
        let t = s.take(s.len() - n);
        lemma_unmarked_prefix(t);
        assert(t.take(unmarked(t).len() as int) =~= s.take(unmarked(t).len() as int));
    } else {
        assert(s.take(s.len() as int) =~= s);
    }
}

/// The marks of repackaging: a dash and `gguf`, `awq`, `gptq`, `exl2`, `mlx`,
/// `mxfp4`, `bf16`, `fp16`, `fp8`, `int4`, `int8`, `4bit`, `8bit`, `q8`, `q4`,
/// `bnb`, `unsloth`, `quantized` or `hf`, in any case. Behind a name they change
/// nothing, and a name that ends in none of them and has no publisher is left as it
/// is.
pub proof fn law_the_marks_of_repackaging(name: Seq<u8>, mark: Seq<u8>)
    requires
        name.len() > 0,
        name.last() != 47,
    ensures
        ({
            let is = |w: &str| text::lowered(mark) == text::bytes(w);
            let marks = is("-gguf") || is("-awq") || is("-gptq") || is("-exl2") || is("-mlx")
                || is("-mxfp4") || is("-bf16") || is("-fp16") || is("-fp8") || is("-int4")
                || is("-int8") || is("-4bit") || is("-8bit") || is("-q8") || is("-q4") || is("-bnb")
                || is("-unsloth") || is("-quantized") || is("-hf");
            &&& marks ==> base_spec(name + mark) == base_spec(name)
        }),
        (forall|k: int| 0 <= k < name.len() ==> #[trigger] name[k] != 47) && (forall|at: int|
            0 < at < name.len() ==> {
                let is = |w: &str| text::lowered(#[trigger] name.skip(at)) == text::bytes(w);
                !(is("-gguf") || is("-awq") || is("-gptq") || is("-exl2") || is("-mlx")
                      || is("-mxfp4") || is("-bf16") || is("-fp16") || is("-fp8") || is("-int4")
                      || is("-int8") || is("-4bit") || is("-8bit") || is("-q8") || is("-q4")
                      || is("-bnb") || is("-unsloth") || is("-quantized") || is("-hf"))
            }) ==> base_spec(name) == name,
{
    assert(repackage_suffixes()[0] == "-gguf");
    assert(repackage_suffixes()[1] == "-awq");
    assert(repackage_suffixes()[2] == "-gptq");
    assert(repackage_suffixes()[3] == "-exl2");
    assert(repackage_suffixes()[4] == "-mlx");
    assert(repackage_suffixes()[5] == "-mxfp4");
    assert(repackage_suffixes()[6] == "-bf16");
    assert(repackage_suffixes()[7] == "-fp16");
    assert(repackage_suffixes()[8] == "-fp8");
    assert(repackage_suffixes()[9] == "-int4");
    assert(repackage_suffixes()[10] == "-int8");
    assert(repackage_suffixes()[11] == "-4bit");
    assert(repackage_suffixes()[12] == "-8bit");
    assert(repackage_suffixes()[13] == "-q8");
    assert(repackage_suffixes()[14] == "-q4");
    assert(repackage_suffixes()[15] == "-bnb");
    assert(repackage_suffixes()[16] == "-unsloth");
    assert(repackage_suffixes()[17] == "-quantized");
    assert(repackage_suffixes()[18] == "-hf");
    lemma_lower_marks();
    lemma_no_slash_after_org(name);
    if after_org(name).len() == 0 {
        lemma_last_slash(name);
    }
    if exists|i: int| 0 <= i < repackage_suffixes().len() && text::lowered(mark) == text::bytes(
        #[trigger] repackage_suffixes()[i],
    ) {
        let i = choose|i: int| 0 <= i < repackage_suffixes().len() && text::lowered(mark)
            == text::bytes(#[trigger] repackage_suffixes()[i]);
        law_repackages_come_to_the_same(name, i, mark);
    }
    if forall|k: int| 0 <= k < name.len() ==> #[trigger] name[k] != 47 {
        lemma_slash_end_append(Seq::empty(), name);
        assert(Seq::<u8>::empty() + name =~= name);
        assert(after_org(name) =~= name);
        lemma_mark(name, 0);
        if mark_len(name, 0) > 0 {
            let i = choose|i: int|
                {
                    &&& 0 <= i < repackage_suffixes().len()
                    &&& ends_in(name, #[trigger] text::bytes(repackage_suffixes()[i]))
                    &&& text::bytes(repackage_suffixes()[i]).len() == mark_len(name, 0)
                };
            let at = name.len() - text::bytes(repackage_suffixes()[i]).len();
            assert(name.subrange(at, name.len() as int) =~= name.skip(at));
            assert(text::lowered(name.skip(at)) == text::bytes(repackage_suffixes()[i]));
        }
    }
}

/// The marks stand in lower case.
proof fn lemma_lower_marks()
    ensures
        forall|i: int|
            0 <= i < repackage_suffixes().len() ==> text::lowered(
                text::bytes(#[trigger] repackage_suffixes()[i]),
            ) == text::bytes(repackage_suffixes()[i]),
{
    reveal_strlit("-gguf");
    reveal_strlit("-awq");
    reveal_strlit("-gptq");
    reveal_strlit("-exl2");
    reveal_strlit("-mlx");
    reveal_strlit("-mxfp4");
    reveal_strlit("-bf16");
    reveal_strlit("-fp16");
    reveal_strlit("-fp8");
    reveal_strlit("-int4");
    reveal_strlit("-int8");
    reveal_strlit("-4bit");
    reveal_strlit("-8bit");
    reveal_strlit("-q8");
    reveal_strlit("-q4");
    reveal_strlit("-bnb");
    reveal_strlit("-unsloth");
    reveal_strlit("-quantized");
    reveal_strlit("-hf");
    assert forall|i: int| 0 <= i < repackage_suffixes().len() implies text::lowered(
        text::bytes(#[trigger] repackage_suffixes()[i]),
    ) == text::bytes(repackage_suffixes()[i]) by {
        text::lemma_ascii(repackage_suffixes()[i]);
        let b = text::bytes(repackage_suffixes()[i]);
        assert(text::lowered(b) =~= b);
    }
}

/// Only a name that ends in a slash has nothing behind it.
proof fn lemma_last_slash(s: Seq<u8>)
    requires
        s.len() > 0,
        s.last() != 47,
    ensures
        slash_end(s) < s.len(),
{
    lemma_no_slash_after_org(s.drop_last());
}

} // verus!
