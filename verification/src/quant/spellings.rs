//! How formats are spelled and stored.

use vstd::prelude::*;
use vstd::utf8::*;

use crate::hardware::Backend;
use crate::quant::Quant;
use crate::text;

verus! {

/// The spellings of each format, in any case; nothing else is one.
pub proof fn law_the_spellings_of_formats(s: Seq<u8>)
    ensures
        ({
            let q = Quant::parse_spec(s);
            let is = |w: &str| text::uppered(s) == encode_utf8(w@);
            &&& q == Some(Quant::F16) <==> is("F16") || is("FP16") || is("BF16") || is("F32")
            &&& q == Some(Quant::Q8_0) <==> is("Q8_0") || is("Q8")
            &&& q == Some(Quant::Q6K) <==> is("Q6_K") || is("Q6K") || is("Q6")
            &&& q == Some(Quant::Q5KM) <==> is("Q5_K_M") || is("Q5_K_S") || is("Q5_K")
                || is("Q5_0") || is("Q5")
            &&& q == Some(Quant::Q4KM) <==> is("Q4_K_M") || is("Q4_K_S") || is("Q4_K")
                || is("Q4_0") || is("Q4")
            &&& q == Some(Quant::Q3KM) <==> is("Q3_K_M") || is("Q3_K_S") || is("Q3_K_L")
                || is("Q3_K") || is("Q3")
            &&& q == Some(Quant::Q2K) <==> is("Q2_K") || is("Q2K") || is("Q2")
        }),
{
    reveal_strlit("F16");
    reveal_strlit("FP16");
    reveal_strlit("BF16");
    reveal_strlit("F32");
    reveal_strlit("Q8_0");
    reveal_strlit("Q8");
    reveal_strlit("Q6_K");
    reveal_strlit("Q6K");
    reveal_strlit("Q6");
    reveal_strlit("Q5_K_M");
    reveal_strlit("Q5_K_S");
    reveal_strlit("Q5_K");
    reveal_strlit("Q5_0");
    reveal_strlit("Q5");
    reveal_strlit("Q4_K_M");
    reveal_strlit("Q4_K_S");
    reveal_strlit("Q4_K");
    reveal_strlit("Q4_0");
    reveal_strlit("Q4");
    reveal_strlit("Q3_K_M");
    reveal_strlit("Q3_K_S");
    reveal_strlit("Q3_K_L");
    reveal_strlit("Q3_K");
    reveal_strlit("Q3");
    reveal_strlit("Q2_K");
    reveal_strlit("Q2K");
    reveal_strlit("Q2");
    text::lemma_ascii("F16");
    text::lemma_ascii("FP16");
    text::lemma_ascii("BF16");
    text::lemma_ascii("F32");
    text::lemma_ascii("Q8_0");
    text::lemma_ascii("Q8");
    text::lemma_ascii("Q6_K");
    text::lemma_ascii("Q6K");
    text::lemma_ascii("Q6");
    text::lemma_ascii("Q5_K_M");
    text::lemma_ascii("Q5_K_S");
    text::lemma_ascii("Q5_K");
    text::lemma_ascii("Q5_0");
    text::lemma_ascii("Q5");
    text::lemma_ascii("Q4_K_M");
    text::lemma_ascii("Q4_K_S");
    text::lemma_ascii("Q4_K");
    text::lemma_ascii("Q4_0");
    text::lemma_ascii("Q4");
    text::lemma_ascii("Q3_K_M");
    text::lemma_ascii("Q3_K_S");
    text::lemma_ascii("Q3_K_L");
    text::lemma_ascii("Q3_K");
    text::lemma_ascii("Q3");
    text::lemma_ascii("Q2_K");
    text::lemma_ascii("Q2K");
    text::lemma_ascii("Q2");
    assert(text::bytes("F16")[0] == 70 && text::bytes("F16")[1] == 49);
    assert(text::bytes("FP16")[0] == 70 && text::bytes("FP16")[1] == 80);
    assert(text::bytes("BF16")[0] == 66 && text::bytes("BF16")[1] == 70);
    assert(text::bytes("F32")[0] == 70 && text::bytes("F32")[1] == 51);
    assert(text::bytes("Q8_0")[0] == 81 && text::bytes("Q8_0")[1] == 56);
    assert(text::bytes("Q8")[0] == 81 && text::bytes("Q8")[1] == 56);
    assert(text::bytes("Q6_K")[0] == 81 && text::bytes("Q6_K")[1] == 54);
    assert(text::bytes("Q6K")[0] == 81 && text::bytes("Q6K")[1] == 54);
    assert(text::bytes("Q6")[0] == 81 && text::bytes("Q6")[1] == 54);
    assert(text::bytes("Q5_K_M")[0] == 81 && text::bytes("Q5_K_M")[1] == 53);
    assert(text::bytes("Q5_K_S")[0] == 81 && text::bytes("Q5_K_S")[1] == 53);
    assert(text::bytes("Q5_K")[0] == 81 && text::bytes("Q5_K")[1] == 53);
    assert(text::bytes("Q5_0")[0] == 81 && text::bytes("Q5_0")[1] == 53);
    assert(text::bytes("Q5")[0] == 81 && text::bytes("Q5")[1] == 53);
    assert(text::bytes("Q4_K_M")[0] == 81 && text::bytes("Q4_K_M")[1] == 52);
    assert(text::bytes("Q4_K_S")[0] == 81 && text::bytes("Q4_K_S")[1] == 52);
    assert(text::bytes("Q4_K")[0] == 81 && text::bytes("Q4_K")[1] == 52);
    assert(text::bytes("Q4_0")[0] == 81 && text::bytes("Q4_0")[1] == 52);
    assert(text::bytes("Q4")[0] == 81 && text::bytes("Q4")[1] == 52);
    assert(text::bytes("Q3_K_M")[0] == 81 && text::bytes("Q3_K_M")[1] == 51);
    assert(text::bytes("Q3_K_S")[0] == 81 && text::bytes("Q3_K_S")[1] == 51);
    assert(text::bytes("Q3_K_L")[0] == 81 && text::bytes("Q3_K_L")[1] == 51);
    assert(text::bytes("Q3_K")[0] == 81 && text::bytes("Q3_K")[1] == 51);
    assert(text::bytes("Q3")[0] == 81 && text::bytes("Q3")[1] == 51);
    assert(text::bytes("Q2_K")[0] == 81 && text::bytes("Q2_K")[1] == 50);
    assert(text::bytes("Q2K")[0] == 81 && text::bytes("Q2K")[1] == 50);
    assert(text::bytes("Q2")[0] == 81 && text::bytes("Q2")[1] == 50);
}

/// The numbers that formats and backends are stored as.
pub proof fn law_what_is_stored()
    ensures
        Quant::F16.rank() == 0 && Quant::Q8_0.rank() == 1 && Quant::Q6K.rank() == 2,
        Quant::Q5KM.rank() == 3 && Quant::Q4KM.rank() == 4 && Quant::Q3KM.rank() == 5,
        Quant::Q2K.rank() == 6,
        Backend::Cuda.rank() == 0 && Backend::Metal.rank() == 1 && Backend::Rocm.rank() == 2,
        Backend::Sycl.rank() == 3 && Backend::CpuArm.rank() == 4 && Backend::CpuX86.rank() == 5,
        Backend::Npu.rank() == 6 && Backend::Vulkan.rank() == 7,
{
}

} // verus!
