//! What the words of a submitted name come to.

use vstd::prelude::*;
use vstd::utf8::*;

use crate::community;
use crate::community::key;
use crate::community::key::Word;
use crate::hardware::Backend;
use crate::quant::Quant;
use crate::text;

verus! {

/// A word of the list is dropped.
proof fn lemma_listed(i: int)
    requires
        0 <= i < key::drop_words().len(),
    ensures
        key::dropped(text::bytes(key::drop_words()[i])),
{
}

/// The words of formats, of packages, of conversions and of tuning are dropped:
/// they do not say which model it is.
pub proof fn law_words_of_packaging_are_dropped()
    ensures
        key::dropped(text::bytes("q2")) && key::dropped(text::bytes("q3")),
        key::dropped(text::bytes("q4")) && key::dropped(text::bytes("q5")),
        key::dropped(text::bytes("q6")) && key::dropped(text::bytes("q8")),
        key::dropped(text::bytes("k")) && key::dropped(text::bytes("m")),
        key::dropped(text::bytes("s")) && key::dropped(text::bytes("l")),
        key::dropped(text::bytes("f16")) && key::dropped(text::bytes("fp16")),
        key::dropped(text::bytes("bf16")) && key::dropped(text::bytes("f32")),
        key::dropped(text::bytes("mxfp4")) && key::dropped(text::bytes("mxfp8")),
        key::dropped(text::bytes("nvfp4")) && key::dropped(text::bytes("int4")),
        key::dropped(text::bytes("int8")) && key::dropped(text::bytes("fp8")),
        key::dropped(text::bytes("4bit")) && key::dropped(text::bytes("8bit")),
        key::dropped(text::bytes("gguf")) && key::dropped(text::bytes("awq")),
        key::dropped(text::bytes("gptq")) && key::dropped(text::bytes("exl2")),
        key::dropped(text::bytes("mlx")) && key::dropped(text::bytes("bnb")),
        key::dropped(text::bytes("unsloth")) && key::dropped(text::bytes("qat")),
        key::dropped(text::bytes("ud")) && key::dropped(text::bytes("xl")),
        key::dropped(text::bytes("quantized")) && key::dropped(text::bytes("instruct")),
        key::dropped(text::bytes("it")) && key::dropped(text::bytes("chat")),
        key::dropped(text::bytes("sft")) && key::dropped(text::bytes("dpo")),
        key::dropped(text::bytes("hf")) && key::dropped(text::bytes("base")),
        key::dropped(text::bytes("text")) && key::dropped(text::bytes("abliterated")),
        key::dropped(text::bytes("uncensored")) && key::dropped(text::bytes("preview")),
        key::dropped(text::bytes("latest")) && key::dropped(text::bytes("pt")),
        key::dropped(text::bytes("distill")),
        key::drop_words().len() == 47,
{
    lemma_packaging_first();
    lemma_packaging_second();
}

proof fn lemma_packaging_first()
    ensures
        key::dropped(text::bytes("q2")) && key::dropped(text::bytes("q3")),
        key::dropped(text::bytes("q4")) && key::dropped(text::bytes("q5")),
        key::dropped(text::bytes("q6")) && key::dropped(text::bytes("q8")),
        key::dropped(text::bytes("k")) && key::dropped(text::bytes("m")),
        key::dropped(text::bytes("s")) && key::dropped(text::bytes("l")),
        key::dropped(text::bytes("f16")) && key::dropped(text::bytes("fp16")),
        key::dropped(text::bytes("bf16")) && key::dropped(text::bytes("f32")),
        key::dropped(text::bytes("mxfp4")) && key::dropped(text::bytes("mxfp8")),
        key::dropped(text::bytes("nvfp4")) && key::dropped(text::bytes("int4")),
        key::dropped(text::bytes("int8")) && key::dropped(text::bytes("fp8")),
        key::dropped(text::bytes("4bit")) && key::dropped(text::bytes("8bit")),
{
    lemma_listed(0);
    lemma_listed(1);
    lemma_listed(2);
    lemma_listed(3);
    lemma_listed(4);
    lemma_listed(5);
    lemma_listed(6);
    lemma_listed(7);
    lemma_listed(8);
    lemma_listed(9);
    lemma_listed(10);
    lemma_listed(11);
    lemma_listed(12);
    lemma_listed(13);
    lemma_listed(14);
    lemma_listed(15);
    lemma_listed(16);
    lemma_listed(17);
    lemma_listed(18);
    lemma_listed(19);
    lemma_listed(20);
    lemma_listed(21);
}

proof fn lemma_packaging_second()
    ensures
        key::dropped(text::bytes("gguf")) && key::dropped(text::bytes("awq")),
        key::dropped(text::bytes("gptq")) && key::dropped(text::bytes("exl2")),
        key::dropped(text::bytes("mlx")) && key::dropped(text::bytes("bnb")),
        key::dropped(text::bytes("unsloth")) && key::dropped(text::bytes("qat")),
        key::dropped(text::bytes("ud")) && key::dropped(text::bytes("xl")),
        key::dropped(text::bytes("quantized")) && key::dropped(text::bytes("instruct")),
        key::dropped(text::bytes("it")) && key::dropped(text::bytes("chat")),
        key::dropped(text::bytes("sft")) && key::dropped(text::bytes("dpo")),
        key::dropped(text::bytes("hf")) && key::dropped(text::bytes("base")),
        key::dropped(text::bytes("text")) && key::dropped(text::bytes("abliterated")),
        key::dropped(text::bytes("uncensored")) && key::dropped(text::bytes("preview")),
        key::dropped(text::bytes("latest")) && key::dropped(text::bytes("pt")),
        key::dropped(text::bytes("distill")),
        key::drop_words().len() == 47,
{
    lemma_listed(22);
    lemma_listed(23);
    lemma_listed(24);
    lemma_listed(25);
    lemma_listed(26);
    lemma_listed(27);
    lemma_listed(28);
    lemma_listed(29);
    lemma_listed(30);
    lemma_listed(31);
    lemma_listed(32);
    lemma_listed(33);
    lemma_listed(34);
    lemma_listed(35);
    lemma_listed(36);
    lemma_listed(37);
    lemma_listed(38);
    lemma_listed(39);
    lemma_listed(40);
    lemma_listed(41);
    lemma_listed(42);
    lemma_listed(43);
    lemma_listed(44);
    lemma_listed(45);
    lemma_listed(46);
}

/// A submitter's own setup ends a name: `agent`, `enfixed`, `cpu`, `gpu` with a
/// number, and what speaks of a context with a digit in it. Nothing from there on
/// counts, and nothing else ends it.
pub proof fn law_a_setup_ends_a_name(before: Seq<u8>, w: Word, ws: Seq<Word>)
    ensures
        ({
            let gpu = encode_utf8("gpu"@);
            let ends = {
                ||| w.text == encode_utf8("agent"@)
                ||| w.text == encode_utf8("enfixed"@)
                ||| w.text == encode_utf8("cpu"@)
                ||| w.text.len() > 3 && w.text.take(3) == gpu && forall|i: int|
                    3 <= i < w.text.len() ==> 48 <= #[trigger] w.text[i] <= 57
                ||| text::occurs(w.text, encode_utf8("ctx"@)) && exists|i: int|
                    0 <= i < w.text.len() && 48 <= #[trigger] w.text[i] <= 57
            };
            &&& ends ==> key::reduced(before, seq![w] + ws) == Seq::<Seq<u8>>::empty()
            &&& !ends && !key::has_variants(before) ==> key::reduced(before, seq![w] + ws)
                == key::told(w.text) + key::reduced(w.text, ws)
        }),
{
    let all = seq![w] + ws;
    assert(all[0] == w);
    assert(all.drop_first() =~= ws);
    reveal_strlit("gpu");
    text::lemma_ascii("gpu");
    let t = w.text;
    let gpu = text::bytes("gpu");
    if t.len() > 3 {
        assert(t.take(3) == gpu <==> text::starts_with(t, gpu)) by {
            assert(t.take(3) =~= t.subrange(0, 3));
        }
        let rest = t.skip(3);
        if text::all_digits(rest) {
            assert forall|i: int| 3 <= i < t.len() implies 48 <= #[trigger] t[i] <= 57 by {
                assert(rest[i - 3] == t[i]);
            }
        }
        if forall|i: int| 3 <= i < t.len() ==> 48 <= #[trigger] t[i] <= 57 {
            assert forall|i: int| 0 <= i < rest.len() implies text::is_digit(
                #[trigger] rest[i],
            ) by {
                assert(rest[i] == t[i + 3]);
            }
        }
    }
}

/// A family of three letters or more that is glued to its version is parted from
/// it, so that the spellings with and without a dash meet.
pub proof fn law_families_part_from_their_versions(family: Seq<u8>, version: Seq<u8>)
    requires
        family.len() >= 3,
        version.len() > 0,
        forall|i: int|
            0 <= i < family.len() ==> 97 <= #[trigger] family[i] <= 122,
        forall|i: int| 0 <= i < version.len() ==> 48 <= #[trigger] version[i] <= 57,
        !key::dropped(family),
        !key::dropped(version),
        !key::dropped(family + version),
    ensures
        key::told(family + version) == seq![family, version],
{
    let w = family + version;
    let n = family.len() as int;
    lemma_first_digit(w, 0, n);
    assert(w.take(n) =~= family);
    assert(w.skip(n) =~= version);
    assert(key::unless_dropped(family) + key::unless_dropped(version) =~= seq![family, version]);
}

proof fn lemma_first_digit(w: Seq<u8>, from: int, n: int)
    requires
        0 <= from <= n < w.len(),
        forall|i: int| from <= i < n ==> !text::is_digit(#[trigger] w[i]),
        text::is_digit(w[n]),
    ensures
        key::digit_at(w, from) == n,
    decreases n - from,
{
    if from < n {
        lemma_first_digit(w, from + 1, n);
    }
}

/// Release dates of four digits at the end of a name do not count.
pub proof fn law_release_dates_do_not_count(ws: Seq<Seq<u8>>, date: Seq<u8>)
    requires
        date.len() == 4,
        forall|i: int| 0 <= i < 4 ==> 48 <= #[trigger] date[i] <= 57,
    ensures
        key::undated(ws.push(date)) == key::undated(ws),
{
    let all = ws.push(date);
    assert(all.last() == date);
    assert(all.drop_last() =~= ws);
    assert(text::all_digits(date));
}

/// What is no date at the end of a name stays.
pub proof fn law_only_dates_are_taken_off(ws: Seq<Seq<u8>>, w: Seq<u8>)
    requires
        w.len() != 4 || exists|i: int| 0 <= i < 4 && !(48 <= #[trigger] w[i] <= 57),
    ensures
        key::undated(ws.push(w)) == ws.push(w),
{
    let all = ws.push(w);
    assert(all.last() == w);
    if w.len() == 4 {
        let i = choose|i: int| 0 <= i < 4 && !(48 <= #[trigger] w[i] <= 57);
        assert(!text::is_digit(w[i]));
    }
}

/// `meta` before `llama` does not count, and stays everywhere else.
pub proof fn law_the_maker_of_llama_does_not_count(ws: Seq<Seq<u8>>)
    ensures
        key::without_meta(seq![encode_utf8("meta"@), encode_utf8("llama"@)] + ws) == seq![
            encode_utf8("llama"@),
        ] + ws,
        ws.len() > 0 && ws[0] != encode_utf8("meta"@) ==> key::without_meta(ws) == ws,
        ws.len() > 1 && ws[1] != encode_utf8("llama"@) ==> key::without_meta(ws) == ws,
{
    let all = seq![text::bytes("meta"), text::bytes("llama")] + ws;
    assert(all[0] == text::bytes("meta") && all[1] == text::bytes("llama"));
    assert(all.drop_first() =~= seq![text::bytes("llama")] + ws);
}

/// The format that a name speaks of: the four bits of the `K` formats first, then
/// five, six, eight, three and two; then what other packages call four and eight
/// bits; then full precision. A name that speaks of none is taken for `Q4_K_M`.
pub proof fn law_names_tell_their_format(name: Seq<u8>)
    ensures
        ({
            let low = text::lowered(name);
            let has = |w: &str| text::occurs(low, encode_utf8(w@));
            let four = has("q4_k_m") || has("q4_k_s") || has("q4_0") || has("q4km");
            let five = has("q5_k_m") || has("q5_k");
            let other_four = has("mxfp4") || has("int4") || has("4bit");
            let full = has("bf16") || has("fp16") || has("f16");
            community::quant_spec(name) == if four {
                Quant::Q4KM
            } else if five {
                Quant::Q5KM
            } else if has("q6_k") {
                Quant::Q6K
            } else if has("q8_0") {
                Quant::Q8_0
            } else if has("q3_k") {
                Quant::Q3KM
            } else if has("q2_k") {
                Quant::Q2K
            } else if other_four {
                Quant::Q4KM
            } else if has("8bit") {
                Quant::Q8_0
            } else if full {
                Quant::F16
            } else {
                Quant::Q4KM
            }
        }),
{
    reveal_with_fuel(community::marked, 18);
}

/// The runtime that a result names, whatever its case: `llama.cpp` however it is
/// written, Ollama, MLX and vLLM; anything else is none of them.
pub proof fn law_runtimes_are_told_by_name(name: Seq<u8>)
    ensures
        ({
            let low = text::lowered(name);
            let code = community::provider_spec(Some(name));
            &&& low == encode_utf8("llamacpp"@) || low == encode_utf8("llama.cpp"@) ==> code == 1
            &&& low == encode_utf8("ollama"@) ==> code == 2
            &&& low == encode_utf8("mlx"@) ==> code == 3
            &&& low == encode_utf8("vllm"@) ==> code == 4
            &&& code > 0 ==> low == encode_utf8("llamacpp"@) || low == encode_utf8("llama.cpp"@)
                || low == encode_utf8("ollama"@) || low == encode_utf8("mlx"@) || low
                == encode_utf8("vllm"@)
            &&& community::provider_spec(None) == 0
        }),
{
    reveal_strlit("llamacpp");
    reveal_strlit("llama.cpp");
    reveal_strlit("ollama");
    reveal_strlit("mlx");
    reveal_strlit("vllm");
    text::lemma_ascii("llamacpp");
    text::lemma_ascii("llama.cpp");
    text::lemma_ascii("ollama");
    text::lemma_ascii("mlx");
    text::lemma_ascii("vllm");
    assert(text::bytes("ollama")[0] == 111);
    assert(text::bytes("mlx")[0] == 109);
    assert(text::bytes("vllm")[0] == 118);
    assert(text::bytes("llamacpp")[0] == 108);
    assert(text::bytes("llama.cpp")[0] == 108);
}

/// The backend of a submitted machine goes by the maker in its name: Apple, or a
/// unified machine whose name begins with an `m`; Nvidia; AMD; Intel. A machine
/// of none of them has only its processor.
pub proof fn law_makers_tell_the_backend(name: Seq<u8>, unified: bool)
    ensures
        ({
            let low = text::lowered(name);
            let has = |w: &str| text::occurs(low, encode_utf8(w@));
            let apple = has("apple") || (unified && low.len() > 0 && low[0] == 109);
            let nvidia = has("nvidia") || has("geforce") || has("rtx");
            let amd = has("amd") || has("radeon");
            let intel = has("intel") || has("arc");
            community::backend_spec(name, unified) == if apple {
                Backend::Metal
            } else if nvidia {
                Backend::Cuda
            } else if amd {
                Backend::Rocm
            } else if intel {
                Backend::Sycl
            } else {
                Backend::CpuX86
            }
        }),
{
}

} // verus!
