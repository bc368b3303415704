//! What becomes of an entry of a source list.

use vstd::prelude::*;
use vstd::utf8::*;

use crate::catalog::flags;
use crate::catalog::UseCase;
use crate::pack;
use crate::pack::{GgufSources, SourceModel};
use crate::sort;
use crate::text;

verus! {

/// A text is told by its bytes.
proof fn lemma_same_text(a: Seq<char>, b: Seq<char>)
    ensures
        encode_utf8(a) == encode_utf8(b) <==> a == b,
{
    encode_utf8_decode_utf8(a);
    encode_utf8_decode_utf8(b);
}

/// A tag is one text or another.
proof fn lemma_tagged(m: SourceModel, tag: &str)
    ensures
        m.tagged(tag) <==> (m.pipeline_tag matches Some(t) && t@ == tag@),
{
    match m.pipeline_tag {
        Some(t) => {
            lemma_same_text(t@, tag@);
        },
        None => {},
    }
}

/// An entry earns its place with a name, a million parameters, as many downloads
/// as are asked for, and a pipeline of text: none named, or one of the six that
/// produce or embed it, unless every pipeline will do.
pub proof fn law_what_earns_a_place(m: SourceModel, min_downloads: u64, all_pipelines: bool)
    ensures
        m.worth_keeping(min_downloads, all_pipelines) <==> {
            &&& m.name@.len() > 0
            &&& m.parameters_raw matches Some(p) && p >= 1_000_000
            &&& match m.hf_downloads {
                Some(d) => d >= min_downloads,
                None => min_downloads == 0,
            }
            &&& all_pipelines || match m.pipeline_tag {
                None => true,
                Some(t) => {
                    ||| t@ == "text-generation"@
                    ||| t@ == "text2text-generation"@
                    ||| t@ == "image-text-to-text"@
                    ||| t@ == "feature-extraction"@
                    ||| t@ == "sentence-similarity"@
                    ||| t@ == "fill-mask"@
                },
            }
        },
{
    lemma_tagged(m, "text-generation");
    lemma_tagged(m, "text2text-generation");
    lemma_tagged(m, "image-text-to-text");
    lemma_tagged(m, "feature-extraction");
    lemma_tagged(m, "sentence-similarity");
    lemma_tagged(m, "fill-mask");
}

/// Whatever earns its place gets it where nothing is cut off, and nothing else
/// does: the list holds an entry exactly where the source does, the entry has a
/// name, a million parameters and the downloads, and its pipeline is of text.
pub proof fn law_what_earns_a_place_gets_it(
    models: Seq<SourceModel>,
    min_downloads: u64,
    m: SourceModel,
)
    requires
        models.contains(m),
        m.name@.len() > 0,
    ensures
        pack::selected(models, min_downloads, false, None).contains(&m) <==> {
            &&& m.parameters_raw matches Some(p) && p >= 1_000_000
            &&& match m.hf_downloads {
                Some(d) => d >= min_downloads,
                None => min_downloads == 0,
            }
            &&& match m.pipeline_tag {
                None => true,
                Some(t) => {
                    ||| t@ == "text-generation"@
                    ||| t@ == "text2text-generation"@
                    ||| t@ == "image-text-to-text"@
                    ||| t@ == "feature-extraction"@
                    ||| t@ == "sentence-similarity"@
                    ||| t@ == "fill-mask"@
                },
            }
        },
{
    pack::law_the_most_downloaded_are_kept(models, min_downloads, false, None);
    law_what_earns_a_place(m, min_downloads, false);
}

/// The tag of plain text generation says what no tag says: an entry with it is
/// kept, flagged and classed as the same entry without one.
pub proof fn law_text_generation_is_the_default(
    a: SourceModel,
    b: SourceModel,
    min_downloads: u64,
    all_pipelines: bool,
)
    requires
        a.pipeline_tag matches Some(t) && t@ == "text-generation"@,
        b == (SourceModel { pipeline_tag: None, ..a }),
    ensures
        a.worth_keeping(min_downloads, all_pipelines) == b.worth_keeping(
            min_downloads,
            all_pipelines,
        ),
        a.use_case_spec() == b.use_case_spec(),
        a.flag_word() == b.flag_word(),
{
    reveal(SourceModel::use_case_spec);
    reveal(SourceModel::flag_word);
    law_what_earns_a_place(a, min_downloads, all_pipelines);
    law_what_earns_a_place(b, min_downloads, all_pipelines);
    lemma_tagged(a, "image-text-to-text");
    lemma_tagged(a, "feature-extraction");
    lemma_tagged(a, "sentence-similarity");
    lemma_tagged(a, "fill-mask");
    reveal_strlit("text-generation");
    reveal_strlit("image-text-to-text");
    reveal_strlit("feature-extraction");
    reveal_strlit("sentence-similarity");
    reveal_strlit("fill-mask");
    assert("text-generation"@.len() == 15);
    assert("image-text-to-text"@.len() == 18);
    assert("feature-extraction"@.len() == 18);
    assert("sentence-similarity"@.len() == 19);
    assert("fill-mask"@.len() == 9);
    assert(!a.tagged("image-text-to-text") && !b.tagged("image-text-to-text"));
    assert(!a.embeds() && !b.embeds());
    assert(a.can("vision") == b.can("vision")) by {
        assert(a.capabilities@ == b.capabilities@);
    }
    assert(a.sees() == b.sees());
    assert(a.label() == b.label());
}

/// Parameters are counted in millions, to the nearest one, and in one where
/// there are any. A dense model activates all of them; a sparse one as many as
/// it says, or else its share by experts, eight where it does not say how many
/// and at least two, but no less than a sixteenth.
pub proof fn law_the_size_of_an_entry(m: SourceModel)
    ensures
        ({
            let p = m.params_m() as int;
            let active = m.active_m() as int;
            &&& m.parameters_raw is None ==> p == 0
            &&& m.parameters_raw matches Some(raw) ==> {
                &&& 500_000 <= raw < 4_000_000_000_000_000 ==> -500_000 <= raw - p * 1_000_000
                    < 500_000
                &&& 0 < raw < 500_000 ==> p == 1
                &&& raw == 0 ==> p == 0
            }
            &&& m.is_moe != Some(true) ==> active == p
            &&& m.is_moe == Some(true) ==> {
                &&& m.active_parameters matches Some(raw) ==> {
                    &&& 500_000 <= raw < 4_000_000_000_000_000 ==> -500_000 <= raw - active
                        * 1_000_000 < 500_000
                    &&& 0 < raw < 500_000 ==> active == 1
                }
                &&& m.active_parameters is None || m.active_parameters == Some(0u64) ==> {
                    let experts: int = match m.num_experts {
                        Some(n) => if n < 2 {
                            2
                        } else {
                            n as int
                        },
                        None => 8,
                    };
                    &&& active >= 1
                    &&& active >= p / 16
                    &&& active >= p / experts
                    &&& active == 1 || active == p / 16 || active == p / experts
                }
            }
        }),
{
    reveal(SourceModel::active_m);
    if let Some(raw) = m.parameters_raw {
        lemma_millions(raw);
    }
    if let Some(raw) = m.active_parameters {
        lemma_millions(raw);
    }
    assert(pack::div_round_spec(0, 1_000_000) == 0);
}

/// A count in millions.
proof fn lemma_millions(raw: u64)
    ensures
        ({
            let p = pack::div_round_spec(raw, 1_000_000) as int;
            &&& 500_000 <= raw < 4_000_000_000_000_000 ==> -500_000 <= raw - p * 1_000_000
                < 500_000
            &&& 0 < raw < 500_000 ==> p == 1
            &&& raw == 0 ==> p == 0
        }),
{
}

/// An entry that does not say its window gets 4096, and none gets less than 512.
pub proof fn law_the_window_of_an_entry(m: SourceModel)
    ensures
        m.context_length is None ==> m.context() == 4096,
        m.context_length matches Some(c) ==> m.context() == if c >= 512 {
            c
        } else {
            512
        },
{
}

/// What a model is for: its pipeline decides, then whether it sees, and then the
/// words in its name, code before reasoning before conversation.
pub proof fn law_what_a_model_is_for(m: SourceModel)
    ensures
        ({
            let name = text::lowered(encode_utf8(m.name@));
            let named = |w: &str| text::occurs(name, encode_utf8(w@));
            let tag = match m.pipeline_tag {
                Some(t) => t@,
                None => Seq::empty(),
            };
            let embeds = tag == "feature-extraction"@ || tag == "sentence-similarity"@ || tag
                == "fill-mask"@;
            let sees = tag == "image-text-to-text"@ || exists|i: int|
                0 <= i < m.capabilities@.len() && #[trigger] m.capabilities@[i]@ == "vision"@;
            let codes = named("code") || named("coder") || named("starcoder");
            let reasons = named("-r1") || named("reason") || named("think") || named("qwq");
            let talks = named("chat") || named("instruct");
            let use_case = m.use_case_spec();
            &&& embeds <==> use_case == UseCase::Embedding
            &&& !embeds && sees <==> use_case == UseCase::Multimodal
            &&& !embeds && !sees && codes <==> use_case == UseCase::Coding
            &&& !embeds && !sees && !codes && reasons <==> use_case == UseCase::Reasoning
            &&& !embeds && !sees && !codes && !reasons && talks <==> use_case == UseCase::Chat
            &&& !embeds && !sees && !codes && !reasons && !talks <==> use_case
                == UseCase::General
        }),
{
    reveal(SourceModel::use_case_spec);
    lemma_tags(m);
}

/// The tags, read as texts.
proof fn lemma_tags(m: SourceModel)
    ensures
        ({
            let tag = match m.pipeline_tag {
                Some(t) => t@,
                None => Seq::empty(),
            };
            &&& m.tagged("image-text-to-text") == (tag == "image-text-to-text"@)
            &&& m.tagged("feature-extraction") == (tag == "feature-extraction"@)
            &&& m.tagged("sentence-similarity") == (tag == "sentence-similarity"@)
            &&& m.tagged("fill-mask") == (tag == "fill-mask"@)
        }),
{
    lemma_tagged(m, "image-text-to-text");
    lemma_tagged(m, "feature-extraction");
    lemma_tagged(m, "sentence-similarity");
    lemma_tagged(m, "fill-mask");
    reveal_strlit("image-text-to-text");
    reveal_strlit("feature-extraction");
    reveal_strlit("sentence-similarity");
    reveal_strlit("fill-mask");
    assert("image-text-to-text"@.len() > 0);
    assert("feature-extraction"@.len() > 0);
    assert("sentence-similarity"@.len() > 0);
    assert("fill-mask"@.len() > 0);
}

/// What the flags of a record say of its entry: that it is sparse, that it sees,
/// that it embeds, that it states its layers, heads and head width, that it was
/// tuned by its name, and that conversions of it are listed.
pub proof fn law_the_flags_of_an_entry(m: SourceModel)
    ensures
        ({
            let name = text::lowered(encode_utf8(m.name@));
            let named = |w: &str| text::occurs(name, encode_utf8(w@));
            let tag = match m.pipeline_tag {
                Some(t) => t@,
                None => Seq::empty(),
            };
            let word = m.flag_word();
            &&& word & 1 != 0 <==> m.is_moe == Some(true)
            &&& word & 2 != 0 <==> tag == "image-text-to-text"@ || exists|i: int|
                0 <= i < m.capabilities@.len() && #[trigger] m.capabilities@[i]@ == "vision"@
            &&& word & 4 != 0 <==> tag == "feature-extraction"@ || tag == "sentence-similarity"@
                || tag == "fill-mask"@
            &&& word & 8 != 0 <==> m.num_hidden_layers is Some && m.num_key_value_heads is Some
                && m.head_dim is Some
            &&& word & 16 != 0 <==> named("instruct") || named("-it") || named("chat")
            &&& word & 32 != 0 <==> match m.gguf_sources {
                GgufSources::Absent => false,
                GgufSources::List(n) => n > 0,
                GgufSources::Other => true,
            }
        }),
{
    pack::law_flags_read_back(m);
    lemma_tags(m);
    assert(flags::MOE == 1 && flags::VISION == 2 && flags::EMBEDDING == 4 && flags::ARCH_METADATA
        == 8 && flags::INSTRUCT == 16 && flags::GGUF == 32);
}

/// A catalog is in order: what was downloaded more stands before what was
/// downloaded less, and of two alike the one whose name comes first. No more are
/// kept than asked for, and fewer only where no more earn it.
pub proof fn law_the_order_of_a_catalog(
    models: Seq<SourceModel>,
    min_downloads: u64,
    all_pipelines: bool,
    top: Option<usize>,
    i: int,
    j: int,
)
    ensures
        ({
            let kept = pack::selected(models, min_downloads, all_pipelines, top);
            let all = pack::selected(models, min_downloads, all_pipelines, None);
            let count = |m: &SourceModel|
                match m.hf_downloads {
                    Some(d) => d as int,
                    None => 0,
                };
            &&& 0 <= i < j < kept.len() ==> {
                &&& count(kept[i]) >= count(kept[j])
                &&& count(kept[i]) == count(kept[j]) ==> !text::comes_before(
                    encode_utf8(kept[j].name@),
                    encode_utf8(kept[i].name@),
                )
            }
            &&& top matches Some(n) ==> {
                &&& kept.len() <= n
                &&& all.len() <= n ==> kept == all
                &&& all.len() > n ==> kept == all.take(n as int)
            }
        }),
{
    pack::law_the_most_downloaded_are_kept(models, min_downloads, all_pipelines, top);
    let kept = pack::selected(models, min_downloads, all_pipelines, top);
    if 0 <= i < j < kept.len() {
        assert(!sort::Ranked::precedes(kept[j], kept[i]));
    }
}

} // verus!
