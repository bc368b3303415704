//! Which family a model is of.

use vstd::prelude::*;
use vstd::utf8::*;

use crate::pack;
use crate::text;

verus! {

/// The words of the families, in the order in which they are looked for.
pub open spec fn words() -> Seq<&'static str> {
    seq![
        "llama",
        "qwen",
        "mistral",
        "gemma",
        "phi",
        "deepseek",
        "granite",
        "olmo",
        "falcon",
        "starcoder",
        "codellama",
        "yi",
        "command-r",
        "glm",
        "internlm",
        "minicpm",
        "stablelm",
        "bge",
        "nomic",
        "smollm",
        "tinyllama",
        "exaone",
        "kimi",
        "ernie",
        "grok",
        "nemotron",
        "hunyuan",
    ]
}

/// Whether the word of family `k` stands in a text.
pub open spec fn names(s: Seq<u8>, k: int) -> bool {
    text::occurs(s, encode_utf8(words()[k - 1]@))
}

/// Whether family `i` is the first that a text names.
pub open spec fn first_named(s: Seq<u8>, i: int) -> bool {
    &&& 1 <= i <= 27
    &&& names(s, i)
    &&& forall|k: int| 1 <= k < i ==> !#[trigger] names(s, k)
}

/// A model is of the first family whose word stands in its name, or else in the
/// architecture it states, in lower case; what is stored is the place of the family,
/// from one on, and zero where neither names any.
pub proof fn law_families_are_told_by_their_words(
    name: Seq<u8>,
    architecture: Option<String>,
    i: int,
)
    ensures
        ({
            let none = |s: Seq<u8>| forall|k: int| 1 <= k <= 27 ==> !#[trigger] names(s, k);
            let family = pack::family_spec(name, architecture);
            &&& first_named(name, i) ==> family == i
            &&& none(name) ==> match architecture {
                Some(a) => {
                    let low = text::lowered(encode_utf8(a@));
                    &&& first_named(low, i) ==> family == i
                    &&& none(low) ==> family == 0
                },
                None => family == 0,
            }
        }),
{
    reveal(pack::family_spec);
    lemma_told(name);
    if let Some(a) = architecture {
        lemma_told(text::lowered(encode_utf8(a@)));
    }
}

/// The family that is found in a text.
proof fn lemma_told(s: Seq<u8>)
    ensures
        ({
            let r = pack::family_from(s, 1) as int;
            &&& r > 0 ==> first_named(s, r)
            &&& r == 0 ==> forall|k: int| 1 <= k <= 27 ==> !#[trigger] names(s, k)
        }),
{
    let all = pack::families();
    assert(all.len() == 28);
    assert(all.skip(1) =~= words());
    assert forall|k: int| 1 <= k < 28 implies #[trigger] words()[k - 1] == all[k] by {
        assert(all.skip(1)[k - 1] == all[k]);
    }
    lemma_from(s, 1);
    let r = pack::family_from(s, 1) as int;
    if r > 0 {
        assert(words()[r - 1] == all[r]);
        assert(names(s, r));
    }
    assert forall|k: int| 1 <= k <= 27 && (r == 0 || k < r) implies !#[trigger] names(s, k) by {
        assert(words()[k - 1] == all[k]);
    }
}

/// What is found is the first that is named.
proof fn lemma_from(s: Seq<u8>, from: int)
    requires
        1 <= from <= 28,
    ensures
        ({
            let all = pack::families();
            let r = pack::family_from(s, from) as int;
            &&& r == 0 || from <= r < all.len()
            &&& r > 0 ==> text::occurs(s, encode_utf8(all[r]@))
            &&& forall|k: int|
                #![trigger all[k]]
                from <= k < all.len() && (r == 0 || k < r) ==> !text::occurs(
                    s,
                    encode_utf8(all[k]@),
                )
        }),
    decreases 28 - from,
{
    assert(pack::families().len() == 28);
    if from < 28 {
        lemma_from(s, from + 1);
    }
}

} // verus!
