//! What a catalog answers, and what its records say.

use vstd::arithmetic::power2::*;
use vstd::prelude::*;
use vstd::utf8::*;

use crate::catalog;
use crate::catalog::{CatalogData, ModelData, UseCase};
use crate::quant::Quant;
use crate::text;

verus! {

/// The first number with a property.
proof fn lemma_first_of(p: spec_fn(nat) -> bool, from: nat, end: nat)
    ensures
        match catalog::first(p, from, end) {
            Some(k) => from <= k < end && p(k) && forall|j: nat| from <= j < k ==> !#[trigger] p(j),
            None => forall|j: nat| from <= j < end ==> !#[trigger] p(j),
        },
    decreases end - from,
{
    if from < end && !p(from) {
        lemma_first_of(p, from + 1, end);
    }
}

/// A search gives the first model of that very name, in any case. Where there is
/// none it gives the first whose name holds what was asked for, and nothing only
/// where no name does.
pub proof fn law_what_is_found(c: CatalogData, needle: Seq<u8>)
    ensures
        ({
            let low = text::lowered(needle);
            let named = |i: nat| text::lowered(c.model(i).name()) == low;
            let holds = |i: nat| text::occurs(text::lowered(c.model(i).name()), low);
            match c.find(needle) {
                Some(k) => {
                    &&& k < c.count
                    &&& named(k) ==> forall|j: nat| j < k ==> !#[trigger] named(j)
                    &&& !named(k) ==> {
                        &&& holds(k)
                        &&& forall|j: nat| j < c.count ==> !#[trigger] named(j)
                        &&& forall|j: nat| j < k ==> !#[trigger] holds(j)
                    }
                },
                None => forall|j: nat| j < c.count ==> !#[trigger] named(j) && !holds(j),
            }
        }),
{
    let low = text::lowered(needle);
    let named = |i: nat| text::lowered(c.model(i).name()) == low;
    let holds = |i: nat| text::occurs(text::lowered(c.model(i).name()), low);
    let p = |i: nat| c.named(i, needle);
    let q = |i: nat| c.holds(i, needle);
    lemma_first_of(p, 0, c.count);
    lemma_first_of(q, 0, c.count);
    assert forall|j: nat| named(j) == #[trigger] p(j) by {}
    assert forall|j: nat| #[trigger] named(j) == p(j) by {}
    assert forall|j: nat| #[trigger] holds(j) == q(j) by {}
}

/// The words for a use case, and for no other.
pub proof fn law_words_for_use_cases(s: Seq<u8>)
    ensures
        ({
            let is = |w: &str| s == encode_utf8(w@);
            let u = UseCase::parse_spec(s);
            &&& u == Some(UseCase::General) <==> is("general")
            &&& u == Some(UseCase::Coding) <==> is("coding") || is("code")
            &&& u == Some(UseCase::Reasoning) <==> is("reasoning") || is("reason")
            &&& u == Some(UseCase::Chat) <==> is("chat")
            &&& u == Some(UseCase::Multimodal) <==> is("multimodal") || is("vision")
            &&& u == Some(UseCase::Embedding) <==> is("embedding") || is("embed")
        }),
{
    lemma_letters();
}

/// What tells the words apart.
proof fn lemma_letters()
    ensures
        text::bytes("general")[0] == 103,
        text::bytes("coding")[0] == 99 && text::bytes("coding")[1] == 111,
        text::bytes("code")[0] == 99 && text::bytes("code")[1] == 111,
        text::bytes("reasoning")[0] == 114,
        text::bytes("reason")[0] == 114,
        text::bytes("chat")[0] == 99 && text::bytes("chat")[1] == 104,
        text::bytes("multimodal")[0] == 109,
        text::bytes("vision")[0] == 118,
        text::bytes("embedding")[0] == 101,
        text::bytes("embed")[0] == 101,
{
    reveal_strlit("general");
    reveal_strlit("coding");
    reveal_strlit("code");
    reveal_strlit("reasoning");
    reveal_strlit("reason");
    reveal_strlit("chat");
    reveal_strlit("multimodal");
    reveal_strlit("vision");
    reveal_strlit("embedding");
    reveal_strlit("embed");
    text::lemma_ascii("general");
    text::lemma_ascii("coding");
    text::lemma_ascii("code");
    text::lemma_ascii("reasoning");
    text::lemma_ascii("reason");
    text::lemma_ascii("chat");
    text::lemma_ascii("multimodal");
    text::lemma_ascii("vision");
    text::lemma_ascii("embedding");
    text::lemma_ascii("embed");
}

/// Which formats are published is a bit each, the finest lowest; no bit at all
/// says that nothing is known, and then any will do.
pub proof fn law_published_formats_are_bits(m: ModelData)
    requires
        m.record.len() > 28,
    ensures
        ({
            let mask = m.record[28] as int;
            &&& mask == 0 ==> forall|q: Quant| #[trigger] m.supports_quant(q)
            &&& mask != 0 ==> {
                &&& m.supports_quant(Quant::F16) <==> mask % 2 == 1
                &&& m.supports_quant(Quant::Q8_0) <==> mask / 2 % 2 == 1
                &&& m.supports_quant(Quant::Q6K) <==> mask / 4 % 2 == 1
                &&& m.supports_quant(Quant::Q5KM) <==> mask / 8 % 2 == 1
                &&& m.supports_quant(Quant::Q4KM) <==> mask / 16 % 2 == 1
                &&& m.supports_quant(Quant::Q3KM) <==> mask / 32 % 2 == 1
                &&& m.supports_quant(Quant::Q2K) <==> mask / 64 % 2 == 1
            }
        }),
{
    lemma2_to64();
    let n = m.record[28] as nat;
    assert(n / pow2(0) == n) by {
        assert(n / 1 == n);
    }
    assert(n / pow2(1) == n / 2);
    assert(n / pow2(2) == n / 4);
    assert(n / pow2(3) == n / 8);
    assert(n / pow2(4) == n / 16);
    assert(n / pow2(5) == n / 32);
    assert(n / pow2(6) == n / 64);
}

/// Where the figures of a model lie in its record, the lowest byte first.
pub proof fn law_where_the_figures_lie(m: ModelData)
    requires
        m.record.len() == 32,
    ensures
        ({
            let r = m.record;
            let two = |at: int| r[at] + 256 * r[at + 1];
            let four = |at: int| two(at) + 65_536 * two(at + 2);
            &&& m.params_m() == four(4)
            &&& four(8) != 0 ==> m.active_params_m() == four(8)
            &&& four(8) == 0 ==> m.active_params_m() == m.params_m()
            &&& m.context_length() == four(12)
            &&& m.num_layers() == two(18)
            &&& m.num_kv_heads() == two(20)
            &&& m.head_dim() == two(22)
            &&& m.flags() == two(26)
            &&& m.quality_prior() == r[31]
            &&& m.use_case() == match r[29] {
                1 => UseCase::Coding,
                2 => UseCase::Reasoning,
                3 => UseCase::Chat,
                4 => UseCase::Multimodal,
                5 => UseCase::Embedding,
                _ => UseCase::General,
            }
        }),
{
}

} // verus!
