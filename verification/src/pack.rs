//! Packing a model list into the `.ocb` format.
//!
//! A header, a run of fixed-width records, a string table in which every name
//! stands once, and the measurements and calibrations.

use vstd::prelude::*;
use vstd::utf8::*;

use crate::catalog;
use crate::catalog::flags;
use crate::catalog::{le16, le32, magic_spec, CatalogData, CatalogError, UseCase, FORMAT_VERSION};
use crate::float::{Double, Single};
use crate::sort;
use crate::sort::Ranked;
use crate::text;

pub mod entries;
pub mod families;
pub mod reputation;

verus! {

/// What a source says of GGUF conversions.
#[derive(Clone, Copy, PartialEq, Eq, Structural, Debug)]
pub enum GgufSources {
    /// Nothing, or null.
    Absent,
    /// A list of so many.
    List(usize),
    /// Something else.
    Other,
}

/// One entry of a source list. A field that is missing makes an estimate
/// coarser; it does not drop the model.
pub struct SourceModel {
    pub name: String,
    pub parameters_raw: Option<u64>,
    pub active_parameters: Option<u64>,
    pub context_length: Option<u32>,
    pub hidden_size: Option<u32>,
    pub num_hidden_layers: Option<u32>,
    pub num_key_value_heads: Option<u32>,
    pub head_dim: Option<u32>,
    pub vocab_size: Option<u32>,
    pub is_moe: Option<bool>,
    pub num_experts: Option<u32>,
    pub capabilities: Vec<String>,
    pub pipeline_tag: Option<String>,
    pub architecture: Option<String>,
    pub hf_downloads: Option<u64>,
    pub gguf_sources: GgufSources,
    /// The prior that goes into the record, 0 to 255.
    pub quality_prior: u8,
}

/// One aggregated measurement.
#[derive(Clone, Copy, PartialEq, Eq, Structural, Debug)]
pub struct PackedMeasurement {
    pub hw_key: u32,
    pub model_index: u32,
    pub tps_x10: u16,
    pub ttft_ms: u16,
    pub quant: u8,
    pub runs: u8,
    pub provider: u8,
}

/// Why a list was not packed.
#[derive(Clone, Copy, PartialEq, Eq, Structural, Debug)]
pub enum PackError {
    /// The catalog would be longer than its own offsets can tell.
    TooLarge,
}

// --- what an entry comes to -------------------------------------------------

pub open spec fn or_zero(v: Option<u64>) -> u64 {
    match v {
        Some(x) => x,
        None => 0,
    }
}

pub open spec fn or_zero32(v: Option<u32>) -> u32 {
    match v {
        Some(x) => x,
        None => 0,
    }
}

/// `value / by` to the nearest, a half going up, in the low 32 bits; at least
/// one for anything at all.
pub open spec fn div_round_spec(value: u64, by: u64) -> u32 {
    let q = ((value + by / 2) / by as int) % 0x1_0000_0000;
    if q == 0 && value > 0 {
        1
    } else {
        q as u32
    }
}

pub open spec fn clamp16_spec(v: u32) -> u16 {
    if v > 0xffff {
        0xffff
    } else {
        v as u16
    }
}

impl SourceModel {
    pub open spec fn label(self) -> Seq<u8> {
        encode_utf8(self.name@)
    }

    pub open spec fn lower_label(self) -> Seq<u8> {
        text::lowered(self.label())
    }

    pub open spec fn tagged(self, tag: &str) -> bool {
        self.pipeline_tag matches Some(t) && encode_utf8(t@) == text::bytes(tag)
    }

    pub open spec fn can(self, what: &str) -> bool {
        exists|i: int|
            0 <= i < self.capabilities@.len() && #[trigger] self.capabilities@[i]@ == what@
    }

    pub open spec fn downloads(self) -> u64 {
        or_zero(self.hf_downloads)
    }

    pub open spec fn says(self, word: &str) -> bool {
        text::occurs(self.lower_label(), text::bytes(word))
    }

    pub open spec fn embeds(self) -> bool {
        self.tagged("feature-extraction") || self.tagged("sentence-similarity") || self.tagged(
            "fill-mask",
        )
    }

    pub open spec fn sees(self) -> bool {
        self.can("vision") || self.tagged("image-text-to-text")
    }

    pub open spec fn sparse(self) -> bool {
        self.is_moe == Some(true)
    }

    pub open spec fn params_m(self) -> u32 {
        div_round_spec(or_zero(self.parameters_raw), 1_000_000)
    }

    /// Millions of active parameters. A sparse model that does not say still
    /// activates only a slice: its share by experts, but no less than a
    /// sixteenth.
    #[verifier::opaque]
    pub open spec fn active_m(self) -> u32 {
        let stated = div_round_spec(or_zero(self.active_parameters), 1_000_000);
        let experts = match self.num_experts {
            Some(n) => if n < 2 {
                2
            } else {
                n
            },
            None => 8,
        };
        let share = self.params_m() / experts;
        let least = self.params_m() / 16;
        if !self.sparse() {
            self.params_m()
        } else if stated > 0 {
            stated
        } else if share >= least && share >= 1 {
            share
        } else if least >= 1 {
            least
        } else {
            1
        }
    }

    pub open spec fn has_arch(self) -> bool {
        self.num_hidden_layers is Some && self.num_key_value_heads is Some && self.head_dim is Some
    }

    pub open spec fn has_gguf(self) -> bool {
        match self.gguf_sources {
            GgufSources::Absent => false,
            GgufSources::List(n) => n > 0,
            GgufSources::Other => true,
        }
    }

    pub open spec fn tuned(self) -> bool {
        self.says("instruct") || self.says("-it") || self.says("chat")
    }

    /// The flag word of the record.
    #[verifier::opaque]
    pub open spec fn flag_word(self) -> u16 {
        (bit(self.sparse(), flags::MOE) + bit(self.sees(), flags::VISION) + bit(
            self.embeds(),
            flags::EMBEDDING,
        ) + bit(self.has_arch(), flags::ARCH_METADATA) + bit(self.tuned(), flags::INSTRUCT) + bit(
            self.has_gguf(),
            flags::GGUF,
        )) as u16
    }

    pub open spec fn context(self) -> u32 {
        match self.context_length {
            Some(c) => if c < 512 {
                512
            } else {
                c
            },
            None => 4096,
        }
    }

    #[verifier::opaque]
    pub open spec fn use_case_spec(self) -> UseCase {
        if self.embeds() {
            UseCase::Embedding
        } else if self.sees() {
            UseCase::Multimodal
        } else if self.says("coder") || self.says("code") || self.says("starcoder") {
            UseCase::Coding
        } else if self.says("-r1") || self.says("reason") || self.says("think") || self.says(
            "qwq",
        ) {
            UseCase::Reasoning
        } else if self.says("chat") || self.says("instruct") {
            UseCase::Chat
        } else {
            UseCase::General
        }
    }

    /// Whether an entry earns a place: a name, a million parameters, enough
    /// downloads, and a pipeline that produces or embeds text.
    pub open spec fn worth_keeping(self, min_downloads: u64, all_pipelines: bool) -> bool {
        &&& self.name@.len() > 0
        &&& or_zero(self.parameters_raw) >= 1_000_000
        &&& self.downloads() >= min_downloads
        &&& all_pipelines || self.pipeline_tag is None || self.tagged("text-generation")
            || self.tagged("text2text-generation") || self.tagged("image-text-to-text")
            || self.embeds()
    }
}

pub open spec fn bit(on: bool, flag: u16) -> int {
    if on {
        flag as int
    } else {
        0
    }
}

/// The families that are recognised by name; the place in this list is what is
/// stored, and zero is none of them.
pub open spec fn families() -> Seq<&'static str> {
    seq![
        "other",
        "llama",
        "qwen",
        "mistral",
        "gemma",
        "phi",
        "deepseek",
        "granite",
        "olmo",
        "falcon",
        "starcoder",
        "codellama",
        "yi",
        "command-r",
        "glm",
        "internlm",
        "minicpm",
        "stablelm",
        "bge",
        "nomic",
        "smollm",
        "tinyllama",
        "exaone",
        "kimi",
        "ernie",
        "grok",
        "nemotron",
        "hunyuan",
    ]
}

/// The first family, from a place in the list on, that a text names.
pub open spec fn family_from(s: Seq<u8>, from: int) -> u8
    decreases families().len() - from,
{
    if from < 0 || from >= families().len() {
        0
    } else if text::occurs(s, text::bytes(families()[from])) {
        from as u8
    } else {
        family_from(s, from + 1)
    }
}

/// The family of a name, or else of an architecture, which is often just the
/// block layout.
#[verifier::opaque]
pub open spec fn family_spec(name: Seq<u8>, architecture: Option<String>) -> u8 {
    let by_name = family_from(name, 1);
    if by_name > 0 {
        by_name
    } else {
        match architecture {
            Some(a) => family_from(text::lowered(encode_utf8(a@)), 1),
            None => 0,
        }
    }
}

/// The prior of so many downloads and likes, given their logarithms to base
/// ten. It is popularity, not quality, so the scorer bounds what it can do.
pub open spec fn prior_spec(downloads_log: Double, likes_log: Double) -> u8 {
    let one = Double::nearest(1, 1);
    let d = downloads_log.div_spec(Double::nearest(8, 1)).min_spec(one);
    let l = likes_log.div_spec(Double::nearest(4, 1)).min_spec(one);
    d.mul_spec(Double::nearest(75, 100)).add_spec(
        l.mul_spec(Double::nearest(25, 100)),
    ).mul_spec(Double::nearest(255, 1)).whole(255) as u8
}

// --- the layout -------------------------------------------------------------

/// Byte `k` of a number, the lowest first.
#[verifier::opaque]
pub open spec fn byte(v: nat, k: nat) -> u8 {
    (if k == 0 {
        v % 256
    } else if k == 1 {
        v / 0x100 % 256
    } else if k == 2 {
        v / 0x1_0000 % 256
    } else {
        v / 0x100_0000 % 256
    }) as u8
}

/// The bytes of a record with these fields.
pub open spec fn record_bytes(
    off: u32,
    params: u32,
    active: u32,
    ctx: u32,
    hidden: u16,
    layers: u16,
    heads: u16,
    dim: u16,
    vocab: u16,
    word: u16,
    use_case: u8,
    family: u8,
    prior: u8,
) -> Seq<u8> {
    seq![
        byte(off as nat, 0),
        byte(off as nat, 1),
        byte(off as nat, 2),
        byte(off as nat, 3),
        byte(params as nat, 0),
        byte(params as nat, 1),
        byte(params as nat, 2),
        byte(params as nat, 3),
        byte(active as nat, 0),
        byte(active as nat, 1),
        byte(active as nat, 2),
        byte(active as nat, 3),
        byte(ctx as nat, 0),
        byte(ctx as nat, 1),
        byte(ctx as nat, 2),
        byte(ctx as nat, 3),
        byte(hidden as nat, 0),
        byte(hidden as nat, 1),
        byte(layers as nat, 0),
        byte(layers as nat, 1),
        byte(heads as nat, 0),
        byte(heads as nat, 1),
        byte(dim as nat, 0),
        byte(dim as nat, 1),
        byte(vocab as nat, 0),
        byte(vocab as nat, 1),
        byte(word as nat, 0),
        byte(word as nat, 1),
        // No list of published formats is known: assume the standard ones.
        0u8,
        use_case,
        family,
        prior,
    ]
}

/// The record of a model whose name lies at `off`.
#[verifier::opaque]
pub open spec fn record_spec(m: SourceModel, off: u32) -> Seq<u8> {
    record_bytes(
        off,
        m.params_m(),
        m.active_m(),
        m.context(),
        clamp16_spec(or_zero32(m.hidden_size)),
        clamp16_spec(or_zero32(m.num_hidden_layers)),
        clamp16_spec(or_zero32(m.num_key_value_heads)),
        clamp16_spec(or_zero32(m.head_dim)),
        clamp16_spec(or_zero32(m.vocab_size) / 1000),
        m.flag_word(),
        m.use_case_spec().rank() as u8,
        family_spec(m.lower_label(), m.architecture),
        m.quality_prior,
    )
}

/// The first model of the same name as model `i`.
pub open spec fn first_named(models: Seq<&SourceModel>, i: int, from: int) -> int
    decreases i - from,
{
    if from >= i || models[from].label() == models[i].label() {
        from
    } else {
        first_named(models, i, from + 1)
    }
}

/// The string table of the first `n` models: every name once, ended by a zero.
pub open spec fn table_spec(models: Seq<&SourceModel>, n: nat) -> Seq<u8>
    decreases n,
{
    if n == 0 {
        Seq::empty()
    } else if first_named(models, n - 1, 0) < n - 1 {
        table_spec(models, (n - 1) as nat)
    } else {
        table_spec(models, (n - 1) as nat) + models[n - 1].label().push(0)
    }
}

/// Where the name of model `i` lies in the string table.
pub open spec fn offset_spec(models: Seq<&SourceModel>, i: int) -> nat {
    table_spec(models, first_named(models, i, 0) as nat).len()
}

pub open spec fn records_spec(models: Seq<&SourceModel>, n: nat) -> Seq<u8>
    decreases n,
{
    if n == 0 {
        Seq::empty()
    } else {
        records_spec(models, (n - 1) as nat) + record_spec(
            *models[n - 1],
            offset_spec(models, n - 1) as u32,
        )
    }
}

pub open spec fn measurement_spec(m: PackedMeasurement) -> Seq<u8> {
    seq![
        byte(m.hw_key as nat, 0),
        byte(m.hw_key as nat, 1),
        byte(m.hw_key as nat, 2),
        byte(m.hw_key as nat, 3),
        byte(m.model_index as nat, 0),
        byte(m.model_index as nat, 1),
        byte(m.model_index as nat, 2),
        byte(m.model_index as nat, 3),
        byte(m.tps_x10 as nat, 0),
        byte(m.tps_x10 as nat, 1),
        byte(m.ttft_ms as nat, 0),
        byte(m.ttft_ms as nat, 1),
        m.quant,
        m.runs,
        m.provider,
        0u8,
    ]
}

pub open spec fn measurements_spec(ms: Seq<PackedMeasurement>, n: nat) -> Seq<u8>
    decreases n,
{
    if n == 0 {
        Seq::empty()
    } else {
        measurements_spec(ms, (n - 1) as nat) + measurement_spec(ms[n - 1])
    }
}

pub open spec fn calibration_spec(c: (u32, u16, u8)) -> Seq<u8> {
    seq![
        byte(c.0 as nat, 0),
        byte(c.0 as nat, 1),
        byte(c.0 as nat, 2),
        byte(c.0 as nat, 3),
        byte(c.1 as nat, 0),
        byte(c.1 as nat, 1),
        c.2,
        0u8,
    ]
}

pub open spec fn calibrations_spec(cs: Seq<(u32, u16, u8)>, n: nat) -> Seq<u8>
    decreases n,
{
    if n == 0 {
        Seq::empty()
    } else {
        calibrations_spec(cs, (n - 1) as nat) + calibration_spec(cs[n - 1])
    }
}

/// A header for sections that follow one another.
#[verifier::opaque]
pub open spec fn header_spec(count: nat, strings: nat, measurements: nat, calibrations: nat) -> Seq<
    u8,
> {
    let str_off = 48 + 32 * count;
    let meas_off = str_off + strings;
    let cal_off = meas_off + 16 * measurements;
    magic_spec() + seq![
        byte(2, 0),
        byte(2, 1),
        byte(32, 0),
        byte(32, 1),
        byte(count, 0),
        byte(count, 1),
        byte(count, 2),
        byte(count, 3),
        byte(48, 0),
        byte(48, 1),
        byte(48, 2),
        byte(48, 3),
        byte(str_off, 0),
        byte(str_off, 1),
        byte(str_off, 2),
        byte(str_off, 3),
        byte(strings, 0),
        byte(strings, 1),
        byte(strings, 2),
        byte(strings, 3),
        byte(meas_off, 0),
        byte(meas_off, 1),
        byte(meas_off, 2),
        byte(meas_off, 3),
        byte(measurements, 0),
        byte(measurements, 1),
        byte(measurements, 2),
        byte(measurements, 3),
        byte(cal_off, 0),
        byte(cal_off, 1),
        byte(cal_off, 2),
        byte(cal_off, 3),
        byte(calibrations, 0),
        byte(calibrations, 1),
        byte(calibrations, 2),
        byte(calibrations, 3),
        0u8,
        0u8,
        0u8,
        0u8,
        0u8,
        0u8,
        0u8,
        0u8,
    ]
}

/// The bytes of a catalog.
pub open spec fn packed(
    models: Seq<&SourceModel>,
    ms: Seq<PackedMeasurement>,
    cs: Seq<(u32, u16, u8)>,
) -> Seq<u8> {
    let strings = table_spec(models, models.len());
    header_spec(models.len(), strings.len(), ms.len(), cs.len()) + records_spec(
        models,
        models.len(),
    ) + strings + measurements_spec(ms, ms.len()) + calibrations_spec(cs, cs.len())
}

/// How long a catalog is.
pub open spec fn packed_len(
    models: Seq<&SourceModel>,
    ms: Seq<PackedMeasurement>,
    cs: Seq<(u32, u16, u8)>,
) -> nat {
    48 + 32 * models.len() + table_spec(models, models.len()).len() + 16 * ms.len() + 8 * cs.len()
}

// --- entries ----------------------------------------------------------------

fn tag_is(m: &SourceModel, tag: &str) -> (r: bool)
    ensures
        r == m.tagged(tag),
{
    match &m.pipeline_tag {
        Some(t) => text::equal(t.as_str().as_bytes(), tag.as_bytes()),
        None => false,
    }
}

fn embeds(m: &SourceModel) -> (r: bool)
    ensures
        r == m.embeds(),
{
    tag_is(m, "feature-extraction") || tag_is(m, "sentence-similarity") || tag_is(m, "fill-mask")
}

fn has_capability(m: &SourceModel, what: &str) -> (r: bool)
    ensures
        r == m.can(what),
{
    let mut i: usize = 0;
    while i < m.capabilities.len()
        invariant
            i <= m.capabilities@.len(),
            forall|k: int| 0 <= k < i ==> #[trigger] m.capabilities@[k]@ != what@,
        decreases m.capabilities.len() - i,
    {
        if text::same(m.capabilities[i].as_str(), what) {
            return true;
        }
        i = i + 1;
    }
    false
}

fn sees(m: &SourceModel) -> (r: bool)
    ensures
        r == m.sees(),
{
    has_capability(m, "vision") || tag_is(m, "image-text-to-text")
}

fn says(m: &SourceModel, word: &str) -> (r: bool)
    ensures
        r == m.says(word),
{
    text::lower_contains(m.name.as_str().as_bytes(), word.as_bytes())
}

/// Whether a source entry earns a place. Source lists carry a long tail of
/// near-empty test uploads, which cost flash and can only dilute a ranking.
pub fn keep(m: &SourceModel, min_downloads: u64, all_pipelines: bool) -> (r: bool)
    ensures
        r == m.worth_keeping(min_downloads, all_pipelines),
{
    if m.name.as_str().is_empty() {
        return false;
    }
    let params: u64 = match m.parameters_raw {
        Some(p) => p,
        None => 0,
    };
    let downloads: u64 = match m.hf_downloads {
        Some(d) => d,
        None => 0,
    };
    if params < 1_000_000 || downloads < min_downloads {
        return false;
    }
    all_pipelines || m.pipeline_tag.is_none() || tag_is(m, "text-generation") || tag_is(
        m,
        "text2text-generation",
    ) || tag_is(m, "image-text-to-text") || embeds(m)
}

pub fn use_case_for(m: &SourceModel) -> (r: UseCase)
    ensures
        r == m.use_case_spec(),
{
    proof {
        reveal(SourceModel::use_case_spec);
    }
    if embeds(m) {
        UseCase::Embedding
    } else if sees(m) {
        UseCase::Multimodal
    } else if says(m, "coder") || says(m, "code") || says(m, "starcoder") {
        UseCase::Coding
    } else if says(m, "-r1") || says(m, "reason") || says(m, "think") || says(m, "qwq") {
        UseCase::Reasoning
    } else if says(m, "chat") || says(m, "instruct") {
        UseCase::Chat
    } else {
        UseCase::General
    }
}

fn family_table() -> (r: [&'static str; 28])
    ensures
        r@ == families(),
{
    let r: [&'static str; 28] = [
        "other",
        "llama",
        "qwen",
        "mistral",
        "gemma",
        "phi",
        "deepseek",
        "granite",
        "olmo",
        "falcon",
        "starcoder",
        "codellama",
        "yi",
        "command-r",
        "glm",
        "internlm",
        "minicpm",
        "stablelm",
        "bge",
        "nomic",
        "smollm",
        "tinyllama",
        "exaone",
        "kimi",
        "ernie",
        "grok",
        "nemotron",
        "hunyuan",
    ];
    assert(r@ =~= families());
    r
}

fn family_in(s: &[u8]) -> (r: u8)
    ensures
        r == family_from(text::lowered(s@), 1),
{
    let table: [&'static str; 28] = family_table();
    let mut i: usize = 1;
    while i < 28
        invariant
            1 <= i <= 28,
            table@ == families(),
            family_from(text::lowered(s@), 1) == family_from(text::lowered(s@), i as int),
        decreases 28 - i,
    {
        if text::lower_contains(s, table[i].as_bytes()) {
            return i as u8;
        }
        i = i + 1;
    }
    0
}

/// The family of a model, by its name in any case first and its architecture
/// second.
pub fn family_for(name: &str, architecture: &Option<String>) -> (r: u8)
    ensures
        r == family_spec(text::lowered(text::bytes(name)), *architecture),
{
    proof {
        reveal(family_spec);
    }
    let by_name: u8 = family_in(name.as_bytes());
    if by_name > 0 {
        return by_name;
    }
    match architecture {
        Some(a) => family_in(a.as_str().as_bytes()),
        None => 0,
    }
}

/// The prior of a model from the base-ten logarithms of its downloads, which
/// count up to a hundred million, and of its likes, which count up to ten
/// thousand.
pub fn reputation_prior(downloads_log: Double, likes_log: Double) -> (r: u8)
    ensures
        r == prior_spec(downloads_log, likes_log),
{
    let one: Double = Double::ratio(1, 1);
    let d: Double = downloads_log.over(Double::ratio(8, 1)).min(one);
    let l: Double = likes_log.over(Double::ratio(4, 1)).min(one);
    let combined: Double = d.times(Double::ratio(75, 100)).plus(l.times(Double::ratio(25, 100)));
    combined.times(Double::ratio(255, 1)).to_u8()
}

fn div_round(value: u64, by: u64) -> (r: u32)
    requires
        by > 0,
    ensures
        r == div_round_spec(value, by),
{
    let q: u128 = ((value as u128 + (by / 2) as u128) / by as u128) % 0x1_0000_0000;
    if q == 0 && value > 0 {
        1
    } else {
        q as u32
    }
}

fn clamp16(v: u32) -> (r: u16)
    ensures
        r == clamp16_spec(v),
{
    if v > 0xffff {
        0xffff
    } else {
        v as u16
    }
}

fn value_or(v: Option<u32>, other: u32) -> (r: u32)
    ensures
        r == match v {
            Some(x) => x,
            None => other,
        },
{
    match v {
        Some(x) => x,
        None => other,
    }
}

// --- choosing ---------------------------------------------------------------

impl<'a> Ranked for &'a SourceModel {
    /// Most downloaded first, and then by name.
    open spec fn precedes(self, other: &'a SourceModel) -> bool {
        self.downloads() > other.downloads() || (self.downloads() == other.downloads()
            && text::comes_before(self.label(), other.label()))
    }

    proof fn order(a: &'a SourceModel, b: &'a SourceModel, c: &'a SourceModel) {
        text::lemma_comes_before(a.label(), b.label(), c.label());
        text::lemma_comes_before(b.label(), a.label(), c.label());
    }

    fn goes_before(&self, other: &&'a SourceModel) -> (r: bool) {
        let a: u64 = match self.hf_downloads {
            Some(d) => d,
            None => 0,
        };
        let b: u64 = match other.hf_downloads {
            Some(d) => d,
            None => 0,
        };
        a > b || (a == b && text::is_before(
            self.name.as_str().as_bytes(),
            other.name.as_str().as_bytes(),
        ))
    }
}

/// The entries worth keeping, as they came.
pub open spec fn kept_spec<'a>(
    models: Seq<SourceModel>,
    min_downloads: u64,
    all_pipelines: bool,
    n: nat,
) -> Seq<&'a SourceModel>
    decreases n,
{
    if n == 0 {
        Seq::empty()
    } else {
        let before = kept_spec(models, min_downloads, all_pipelines, (n - 1) as nat);
        if models[n - 1].worth_keeping(min_downloads, all_pipelines) {
            before.push(&models[n - 1])
        } else {
            before
        }
    }
}

/// The entries worth keeping, most downloaded first, at most `top` of them.
pub open spec fn selected<'a>(
    models: Seq<SourceModel>,
    min_downloads: u64,
    all_pipelines: bool,
    top: Option<usize>,
) -> Seq<&'a SourceModel> {
    let all = sort::sorted(kept_spec(models, min_downloads, all_pipelines, models.len()));
    match top {
        Some(n) => if n < all.len() {
            all.take(n as int)
        } else {
            all
        },
        None => all,
    }
}

/// Choose what goes into a catalog. Most downloaded first, so that one cut hard
/// for a small flash keeps the models people use.
pub fn select<'a>(
    models: &'a Vec<SourceModel>,
    min_downloads: u64,
    all_pipelines: bool,
    top: Option<usize>,
) -> (r: Vec<&'a SourceModel>)
    ensures
        r@ == selected(models@, min_downloads, all_pipelines, top),
{
    let mut kept: Vec<&'a SourceModel> = Vec::new();
    let mut i: usize = 0;
    while i < models.len()
        invariant
            i <= models@.len(),
            kept@ == kept_spec(models@, min_downloads, all_pipelines, i as nat),
        decreases models.len() - i,
    {
        if keep(&models[i], min_downloads, all_pipelines) {
            kept.push(&models[i]);
        }
        i = i + 1;
    }
    let mut all: Vec<&'a SourceModel> = sort::sort(kept);
    if let Some(n) = top {
        if n < all.len() {
            all.truncate(n);
        }
    }
    all
}

// --- writing ----------------------------------------------------------------

fn push_u16(out: &mut Vec<u8>, v: u16)
    ensures
        final(out)@ == old(out)@ + seq![byte(v as nat, 0), byte(v as nat, 1)],
{
    let ghost before: Seq<u8> = out@;
    proof {
        reveal(byte);
    }
    out.push((v % 256) as u8);
    out.push((v / 0x100) as u8);
    assert(out@ =~= before + seq![byte(v as nat, 0), byte(v as nat, 1)]);
}

fn push_u32(out: &mut Vec<u8>, v: u32)
    ensures
        final(out)@ == old(out)@ + seq![
            byte(v as nat, 0),
            byte(v as nat, 1),
            byte(v as nat, 2),
            byte(v as nat, 3),
        ],
{
    let ghost before: Seq<u8> = out@;
    proof {
        reveal(byte);
    }
    out.push((v % 256) as u8);
    out.push((v / 0x100 % 256) as u8);
    out.push((v / 0x1_0000 % 256) as u8);
    out.push((v / 0x100_0000 % 256) as u8);
    assert(out@ =~= before + seq![
        byte(v as nat, 0),
        byte(v as nat, 1),
        byte(v as nat, 2),
        byte(v as nat, 3),
    ]);
}

fn active_params(m: &SourceModel, params: u32) -> (r: u32)
    requires
        params == m.params_m(),
    ensures
        r == m.active_m(),
{
    proof {
        reveal(SourceModel::active_m);
    }
    let sparse: bool = match m.is_moe {
        Some(b) => b,
        None => false,
    };
    if !sparse {
        return params;
    }
    let stated: u32 = div_round(
        match m.active_parameters {
            Some(a) => a,
            None => 0,
        },
        1_000_000,
    );
    if stated > 0 {
        return stated;
    }
    let experts: u32 = match m.num_experts {
        Some(n) => if n < 2 {
            2
        } else {
            n
        },
        None => 8,
    };
    let share: u32 = params / experts;
    let least: u32 = params / 16;
    if share >= least && share >= 1 {
        share
    } else if least >= 1 {
        least
    } else {
        1
    }
}

fn flag_word(m: &SourceModel) -> (r: u16)
    ensures
        r == m.flag_word(),
{
    proof {
        reveal(SourceModel::flag_word);
    }
    let mut word: u16 = 0;
    if m.is_moe.is_some() && m.is_moe.unwrap() {
        word = word + flags::MOE;
    }
    if sees(m) {
        word = word + flags::VISION;
    }
    if embeds(m) {
        word = word + flags::EMBEDDING;
    }
    if m.num_hidden_layers.is_some() && m.num_key_value_heads.is_some() && m.head_dim.is_some() {
        word = word + flags::ARCH_METADATA;
    }
    if says(m, "instruct") || says(m, "-it") || says(m, "chat") {
        word = word + flags::INSTRUCT;
    }
    let gguf: bool = match m.gguf_sources {
        GgufSources::Absent => false,
        GgufSources::List(n) => n > 0,
        GgufSources::Other => true,
    };
    if gguf {
        word = word + flags::GGUF;
    }
    word
}

fn push_record(out: &mut Vec<u8>, m: &SourceModel, off: u32)
    ensures
        final(out)@ == old(out)@ + record_spec(*m, off),
{
    let params: u32 = div_round(
        match m.parameters_raw {
            Some(p) => p,
            None => 0,
        },
        1_000_000,
    );
    let context: u32 = match m.context_length {
        Some(c) => if c < 512 {
            512
        } else {
            c
        },
        None => 4096,
    };
    proof {
        reveal(record_spec);
    }
    push_fields(
        out,
        off,
        params,
        active_params(m, params),
        context,
        clamp16(value_or(m.hidden_size, 0)),
        clamp16(value_or(m.num_hidden_layers, 0)),
        clamp16(value_or(m.num_key_value_heads, 0)),
        clamp16(value_or(m.head_dim, 0)),
        clamp16(value_or(m.vocab_size, 0) / 1000),
        flag_word(m),
        use_case_for(m).code(),
        family_for(m.name.as_str(), &m.architecture),
        m.quality_prior,
    );
}

fn push_fields(
    out: &mut Vec<u8>,
    off: u32,
    params: u32,
    active: u32,
    ctx: u32,
    hidden: u16,
    layers: u16,
    heads: u16,
    dim: u16,
    vocab: u16,
    word: u16,
    use_case: u8,
    family: u8,
    prior: u8,
)
    ensures
        final(out)@ == old(out)@ + record_bytes(
            off,
            params,
            active,
            ctx,
            hidden,
            layers,
            heads,
            dim,
            vocab,
            word,
            use_case,
            family,
            prior,
        ),
{
    let ghost before: Seq<u8> = out@;
    push_u32(out, off);
    push_u32(out, params);
    push_u32(out, active);
    push_u32(out, ctx);
    push_u16(out, hidden);
    push_u16(out, layers);
    push_u16(out, heads);
    push_u16(out, dim);
    push_u16(out, vocab);
    push_u16(out, word);
    out.push(0);
    out.push(use_case);
    out.push(family);
    out.push(prior);
    assert(out@ =~= before + record_bytes(
        off,
        params,
        active,
        ctx,
        hidden,
        layers,
        heads,
        dim,
        vocab,
        word,
        use_case,
        family,
        prior,
    ));
}

fn push_measurement(out: &mut Vec<u8>, m: &PackedMeasurement)
    ensures
        final(out)@ == old(out)@ + measurement_spec(*m),
{
    let ghost before: Seq<u8> = out@;
    push_u32(out, m.hw_key);
    push_u32(out, m.model_index);
    push_u16(out, m.tps_x10);
    push_u16(out, m.ttft_ms);
    out.push(m.quant);
    out.push(m.runs);
    out.push(m.provider);
    out.push(0);
    assert(out@ =~= before + measurement_spec(*m));
}

fn push_calibration(out: &mut Vec<u8>, c: &(u32, u16, u8))
    ensures
        final(out)@ == old(out)@ + calibration_spec(*c),
{
    let ghost before: Seq<u8> = out@;
    push_u32(out, c.0);
    push_u16(out, c.1);
    out.push(c.2);
    out.push(0);
    assert(out@ =~= before + calibration_spec(*c));
}

/// The first entry of the same name.
fn first_of_name(models: &[&SourceModel], i: usize) -> (r: usize)
    requires
        i < models@.len(),
    ensures
        r == first_named(models@, i as int, 0),
        r <= i,
{
    let name: &[u8] = models[i].name.as_str().as_bytes();
    let mut j: usize = 0;
    while j < i && !text::equal(models[j].name.as_str().as_bytes(), name)
        invariant
            j <= i < models@.len(),
            name@ == models@[i as int].label(),
            first_named(models@, i as int, 0) == first_named(models@, i as int, j as int),
        decreases i - j,
    {
        j = j + 1;
    }
    j
}

proof fn lemma_first_named(models: Seq<&SourceModel>, i: int, from: int)
    requires
        0 <= from <= i < models.len(),
    ensures
        ({
            let j = first_named(models, i, from);
            &&& from <= j <= i
            &&& models[j].label() == models[i].label()
            &&& forall|k: int|
                from <= k < j ==> (#[trigger] models[k]).label() != models[i].label()
        }),
    decreases i - from,
{
    if from < i && models[from].label() != models[i].label() {
        lemma_first_named(models, i, from + 1);
    }
}

/// The first of a name is its own first.
proof fn lemma_first_is_first(models: Seq<&SourceModel>, i: int)
    requires
        0 <= i < models.len(),
    ensures
        ({
            let j = first_named(models, i, 0);
            0 <= j <= i && first_named(models, j, 0) == j && models[j].label() == models[i].label()
        }),
{
    lemma_first_named(models, i, 0);
    let j = first_named(models, i, 0);
    lemma_first_named(models, j, 0);
    let k = first_named(models, j, 0);
    if k < j {
        assert(models[k].label() == models[i].label());
    }
}

/// A string table only grows.
proof fn lemma_table_grows(models: Seq<&SourceModel>, a: nat, b: nat)
    requires
        a <= b,
    ensures
        table_spec(models, a).len() <= table_spec(models, b).len(),
        table_spec(models, b).take(table_spec(models, a).len() as int) == table_spec(models, a),
    decreases b,
{
    let s = table_spec(models, a);
    let t = table_spec(models, b);
    if a == b {
        assert(t.take(s.len() as int) =~= s);
    } else {
        lemma_table_grows(models, a, (b - 1) as nat);
        let u = table_spec(models, (b - 1) as nat);
        assert(t.take(s.len() as int) =~= u.take(s.len() as int));
    }
}

proof fn lemma_lengths(
    models: Seq<&SourceModel>,
    n: nat,
    ms: Seq<PackedMeasurement>,
    m: nat,
    cs: Seq<(u32, u16, u8)>,
    c: nat,
)
    ensures
        records_spec(models, n).len() == 32 * n,
        measurements_spec(ms, m).len() == 16 * m,
        calibrations_spec(cs, c).len() == 8 * c,
    decreases n + m + c,
{
    if n > 0 {
        reveal(record_spec);
        lemma_lengths(models, (n - 1) as nat, ms, m, cs, c);
    } else if m > 0 {
        lemma_lengths(models, n, ms, (m - 1) as nat, cs, c);
    } else if c > 0 {
        lemma_lengths(models, n, ms, m, cs, (c - 1) as nat);
    }
}

fn push_header(out: &mut Vec<u8>, count: u32, strings: u32, measurements: u32, calibrations: u32)
    requires
        48 + 32 * count + strings + 16 * measurements + 8 * calibrations <= u32::MAX,
    ensures
        final(out)@ == old(out)@ + header_spec(
            count as nat,
            strings as nat,
            measurements as nat,
            calibrations as nat,
        ),
{
    proof {
        reveal(header_spec);
    }
    let ghost before: Seq<u8> = out@;
    let str_off: u32 = 48 + 32 * count;
    let meas_off: u32 = str_off + strings;
    let cal_off: u32 = meas_off + 16 * measurements;
    let magic: [u8; 4] = catalog::magic();
    text::append(out, magic.as_slice());
    push_u16(out, FORMAT_VERSION);
    push_u16(out, 32);
    push_u32(out, count);
    push_u32(out, 48);
    push_u32(out, str_off);
    push_u32(out, strings);
    push_u32(out, meas_off);
    push_u32(out, measurements);
    push_u32(out, cal_off);
    push_u32(out, calibrations);
    out.push(0);
    out.push(0);
    out.push(0);
    out.push(0);
    out.push(0);
    out.push(0);
    out.push(0);
    out.push(0);
    assert(out@ =~= before + header_spec(
        count as nat,
        strings as nat,
        measurements as nat,
        calibrations as nat,
    ));
}

/// Pack a list of models, with what was measured of them. Every name is stored
/// once, however often it occurs.
pub fn pack(
    models: &[&SourceModel],
    measurements: &[PackedMeasurement],
    calibrations: &[(u32, u16, u8)],
) -> (r: Result<Vec<u8>, PackError>)
    ensures
        match r {
            Ok(v) => packed_len(models@, measurements@, calibrations@) <= u32::MAX && v@ == packed(
                models@,
                measurements@,
                calibrations@,
            ),
            Err(e) => packed_len(models@, measurements@, calibrations@) > u32::MAX && e
                == PackError::TooLarge,
        },
{
    let mut strings: Vec<u8> = Vec::new();
    let mut records: Vec<u8> = Vec::new();
    let mut offsets: Vec<u32> = Vec::new();
    let mut i: usize = 0;
    while i < models.len()
        invariant
            i <= models@.len(),
            strings@ == table_spec(models@, i as nat),
            records@ == records_spec(models@, i as nat),
            offsets@.len() == i,
            forall|k: int| 0 <= k < i ==> #[trigger] offsets@[k] == offset_spec(models@, k),
        decreases models.len() - i,
    {
        let j: usize = first_of_name(models, i);
        proof {
            lemma_first_is_first(models@, i as int);
        }
        if strings.len() > 0xffff_ffff {
            proof {
                lemma_table_grows(models@, i as nat, models@.len());
            }
            return Err(PackError::TooLarge);
        }
        let off: u32 = if j < i {
            offsets[j]
        } else {
            let at: u32 = strings.len() as u32;
            let ghost before: Seq<u8> = strings@;
            text::append(&mut strings, models[i].name.as_str().as_bytes());
            strings.push(0);
            assert(strings@ =~= before + models@[i as int].label().push(0));
            at
        };
        offsets.push(off);
        push_record(&mut records, models[i], off);
        i = i + 1;
    }
    let size: u128 = 48 + 32 * models.len() as u128 + strings.len() as u128 + 16
        * measurements.len() as u128 + 8 * calibrations.len() as u128;
    if size > 0xffff_ffff {
        return Err(PackError::TooLarge);
    }
    let mut out: Vec<u8> = Vec::new();
    push_header(
        &mut out,
        models.len() as u32,
        strings.len() as u32,
        measurements.len() as u32,
        calibrations.len() as u32,
    );
    text::append(&mut out, records.as_slice());
    text::append(&mut out, strings.as_slice());
    let ghost front: Seq<u8> = out@;
    let mut k: usize = 0;
    assert(front + measurements_spec(measurements@, 0) =~= front);
    while k < measurements.len()
        invariant
            k <= measurements@.len(),
            out@ == front + measurements_spec(measurements@, k as nat),
        decreases measurements.len() - k,
    {
        push_measurement(&mut out, &measurements[k]);
        assert(front + measurements_spec(measurements@, (k + 1) as nat) =~= (front
            + measurements_spec(measurements@, k as nat)) + measurement_spec(
            measurements@[k as int],
        ));
        k = k + 1;
    }
    let ghost middle: Seq<u8> = out@;
    let mut l: usize = 0;
    assert(middle + calibrations_spec(calibrations@, 0) =~= middle);
    while l < calibrations.len()
        invariant
            l <= calibrations@.len(),
            out@ == middle + calibrations_spec(calibrations@, l as nat),
        decreases calibrations.len() - l,
    {
        push_calibration(&mut out, &calibrations[l]);
        assert(middle + calibrations_spec(calibrations@, (l + 1) as nat) =~= (middle
            + calibrations_spec(calibrations@, l as nat)) + calibration_spec(
            calibrations@[l as int],
        ));
        l = l + 1;
    }
    assert(out@ =~= packed(models@, measurements@, calibrations@));
    Ok(out)
}

// --- laws -------------------------------------------------------------------

/// Four bytes of a number read back as the number.
proof fn lemma_bytes32(v: nat)
    requires
        v <= u32::MAX,
    ensures
        byte(v, 0) + 0x100 * byte(v, 1) + 0x1_0000 * byte(v, 2) + 0x100_0000 * byte(v, 3) == v,
{
    reveal(byte);
    let a = v / 0x100;
    let b = a / 0x100;
    let c = b / 0x100;
    assert(v / 0x1_0000 == b && v / 0x100_0000 == c);
    assert(c < 256);
}

/// Two bytes of a number read back as the number.
proof fn lemma_bytes16(v: nat)
    requires
        v <= u16::MAX,
    ensures
        byte(v, 0) + 256 * byte(v, 1) == v,
{
    reveal(byte);
    assert(v / 0x100 < 256);
}

/// A number at a place of a text, from its four bytes there.
proof fn lemma_le32_at(s: Seq<u8>, at: int, v: nat)
    requires
        v <= u32::MAX,
        0 <= at,
        at + 4 <= s.len(),
        s[at] == byte(v, 0),
        s[at + 1] == byte(v, 1),
        s[at + 2] == byte(v, 2),
        s[at + 3] == byte(v, 3),
    ensures
        le32(s, at) == v,
{
    lemma_bytes32(v);
}

proof fn lemma_le16_at(s: Seq<u8>, at: int, v: nat)
    requires
        v <= u16::MAX,
        0 <= at,
        at + 2 <= s.len(),
        s[at] == byte(v, 0),
        s[at + 1] == byte(v, 1),
    ensures
        le16(s, at) == v,
{
    lemma_bytes16(v);
}

/// What the header of a packed catalog says.
proof fn lemma_header(s: Seq<u8>, count: nat, strings: nat, measurements: nat, calibrations: nat)
    requires
        48 + 32 * count + strings + 16 * measurements + 8 * calibrations <= u32::MAX,
        s.len() >= 48,
        s.subrange(0, 48) == header_spec(count, strings, measurements, calibrations),
    ensures
        s.subrange(0, 4) == magic_spec(),
        le16(s, 4) == 2,
        le16(s, 6) == 32,
        le32(s, 8) == count,
        le32(s, 12) == 48,
        le32(s, 16) == 48 + 32 * count,
        le32(s, 20) == strings,
        le32(s, 24) == 48 + 32 * count + strings,
        le32(s, 28) == measurements,
        le32(s, 32) == 48 + 32 * count + strings + 16 * measurements,
        le32(s, 36) == calibrations,
{
    reveal(header_spec);
    let h = header_spec(count, strings, measurements, calibrations);
    assert(h.len() == 48);
    assert forall|i: int| 0 <= i < 48 implies s[i] == h[i] by {
        assert(s.subrange(0, 48)[i] == s[i]);
    }
    assert(s.subrange(0, 4) =~= magic_spec());
    lemma_le16_at(s, 4, 2);
    lemma_le16_at(s, 6, 32);
    lemma_le32_at(s, 8, count);
    lemma_le32_at(s, 12, 48);
    lemma_le32_at(s, 16, 48 + 32 * count);
    lemma_le32_at(s, 20, strings);
    lemma_le32_at(s, 24, 48 + 32 * count + strings);
    lemma_le32_at(s, 28, measurements);
    lemma_le32_at(s, 32, 48 + 32 * count + strings + 16 * measurements);
    lemma_le32_at(s, 36, calibrations);
}

/// The sections of a packed catalog.
pub open spec fn sections(
    models: Seq<&SourceModel>,
    ms: Seq<PackedMeasurement>,
    cs: Seq<(u32, u16, u8)>,
) -> CatalogData {
    CatalogData {
        records: records_spec(models, models.len()),
        strings: table_spec(models, models.len()),
        measurements: measurements_spec(ms, ms.len()),
        calibrations: calibrations_spec(cs, cs.len()),
        count: models.len(),
    }
}

/// Parts that were joined stand where their lengths say.
proof fn lemma_joined(h: Seq<u8>, r: Seq<u8>, t: Seq<u8>, m: Seq<u8>, c: Seq<u8>)
    ensures
        ({
            let s = h + r + t + m + c;
            let a = h.len() as int;
            let b = a + r.len();
            let d = b + t.len();
            let e = d + m.len();
            let f = e + c.len();
            &&& s.len() == f
            &&& s.subrange(0, a) == h
            &&& s.subrange(a, b) == r
            &&& s.subrange(b, d) == t
            &&& s.subrange(d, e) == m
            &&& s.subrange(e, f) == c
        }),
{
    let s = h + r + t + m + c;
    let a = h.len() as int;
    let b = a + r.len();
    let d = b + t.len();
    let e = d + m.len();
    let f = e + c.len();
    assert(s.subrange(0, a) =~= h);
    assert(s.subrange(a, b) =~= r);
    assert(s.subrange(b, d) =~= t);
    assert(s.subrange(d, e) =~= m);
    assert(s.subrange(e, f) =~= c);
}

/// A packed catalog is one that parses, into the sections that were packed.
pub proof fn law_packed_catalogs_parse(
    models: Seq<&SourceModel>,
    ms: Seq<PackedMeasurement>,
    cs: Seq<(u32, u16, u8)>,
)
    requires
        packed_len(models, ms, cs) <= u32::MAX,
    ensures
        catalog::parse_spec(packed(models, ms, cs)) == Ok::<CatalogData, CatalogError>(
            sections(models, ms, cs),
        ),
        packed(models, ms, cs).len() == packed_len(models, ms, cs),
{
    let c = sections(models, ms, cs);
    let h = header_spec(models.len(), c.strings.len(), ms.len(), cs.len());
    let s = packed(models, ms, cs);
    lemma_lengths(models, models.len(), ms, ms.len(), cs, cs.len());
    assert(h.len() == 48) by {
        reveal(header_spec);
    }
    lemma_joined(h, c.records, c.strings, c.measurements, c.calibrations);
    lemma_header(s, models.len(), c.strings.len(), ms.len(), cs.len());
    assert(models.len() == 0 ==> c.records =~= Seq::empty());
    assert(c.strings.len() == 0 ==> c.strings =~= Seq::empty());
    assert(ms.len() == 0 ==> c.measurements =~= Seq::empty());
    assert(cs.len() == 0 ==> c.calibrations =~= Seq::empty());
}

/// The record of model `i` stands where it is looked for.
proof fn lemma_record_at(models: Seq<&SourceModel>, n: nat, i: int)
    requires
        0 <= i < n <= models.len(),
    ensures
        records_spec(models, n).len() == 32 * n,
        records_spec(models, n).subrange(32 * i, 32 * i + 32) == record_spec(
            *models[i],
            offset_spec(models, i) as u32,
        ),
    decreases n,
{
    reveal(record_spec);
    let all = records_spec(models, n);
    let before = records_spec(models, (n - 1) as nat);
    let last = record_spec(*models[n - 1], offset_spec(models, n - 1) as u32);
    assert(last.len() == 32);
    lemma_lengths(models, n, Seq::empty(), 0, Seq::empty(), 0);
    lemma_lengths(models, (n - 1) as nat, Seq::empty(), 0, Seq::empty(), 0);
    if i == n - 1 {
        assert(all.subrange(32 * i, 32 * i + 32) =~= last);
    } else {
        lemma_record_at(models, (n - 1) as nat, i);
        assert(all.subrange(32 * i, 32 * i + 32) =~= before.subrange(32 * i, 32 * i + 32));
    }
}

/// A name that holds no zero byte is read back from the string table.
proof fn lemma_name_at(models: Seq<&SourceModel>, i: int)
    requires
        0 <= i < models.len(),
        table_spec(models, models.len()).len() <= u32::MAX,
        forall|k: int| 0 <= k < models[i].label().len() ==> #[trigger] models[i].label()[k] != 0,
    ensures
        offset_spec(models, i) <= u32::MAX,
        catalog::cstr(table_spec(models, models.len()), offset_spec(models, i) as int)
            == models[i].label(),
{
    let strings = table_spec(models, models.len());
    let name = models[i].label();
    lemma_first_is_first(models, i);
    let j = first_named(models, i, 0);
    let off = offset_spec(models, i) as int;
    lemma_table_grows(models, j as nat, models.len());
    lemma_table_grows(models, (j + 1) as nat, models.len());
    let upto = table_spec(models, (j + 1) as nat);
    assert(upto == table_spec(models, j as nat) + name.push(0));
    assert forall|k: int| 0 <= k < name.len() implies strings[off + k] == name[k] by {
        assert(strings.take(upto.len() as int)[off + k] == upto[off + k]);
    }
    assert(strings[off + name.len()] == 0) by {
        assert(strings.take(upto.len() as int)[off + name.len()] == upto[off + name.len()]);
    }
    assert forall|k: int| off <= k < off + name.len() implies #[trigger] strings[k] != 0 by {
        assert(strings[off + (k - off)] == name[k - off]);
    }
    lemma_zero_from(strings, off, off + name.len());
    assert(strings.subrange(off, off + name.len()) =~= name);
    encode_utf8_valid_utf8(models[i].name@);
}

proof fn lemma_zero_from(s: Seq<u8>, from: int, at: int)
    requires
        0 <= from <= at < s.len(),
        s[at] == 0,
        forall|k: int| from <= k < at ==> #[trigger] s[k] != 0,
    ensures
        catalog::zero_from(s, from) == at,
    decreases at - from,
{
    if from < at {
        lemma_zero_from(s, from + 1, at);
    }
}

/// A record reads back as the fields it was made of.
proof fn lemma_record_fields(
    off: u32,
    params: u32,
    active: u32,
    ctx: u32,
    hidden: u16,
    layers: u16,
    heads: u16,
    dim: u16,
    vocab: u16,
    word: u16,
    use_case: u8,
    family: u8,
    prior: u8,
)
    ensures
        ({
            let r = record_bytes(
                off,
                params,
                active,
                ctx,
                hidden,
                layers,
                heads,
                dim,
                vocab,
                word,
                use_case,
                family,
                prior,
            );
            &&& le32(r, 0) == off
            &&& le32(r, 4) == params
            &&& le32(r, 8) == active
            &&& le32(r, 12) == ctx
            &&& le16(r, 16) == hidden
            &&& le16(r, 18) == layers
            &&& le16(r, 20) == heads
            &&& le16(r, 22) == dim
            &&& le16(r, 24) == vocab
            &&& le16(r, 26) == word
            &&& r[28] == 0
            &&& r[29] == use_case
            &&& r[30] == family
            &&& r[31] == prior
        }),
{
    let r = record_bytes(
        off,
        params,
        active,
        ctx,
        hidden,
        layers,
        heads,
        dim,
        vocab,
        word,
        use_case,
        family,
        prior,
    );
    lemma_le32_at(r, 0, off as nat);
    lemma_le32_at(r, 4, params as nat);
    lemma_le32_at(r, 8, active as nat);
    lemma_le32_at(r, 12, ctx as nat);
    lemma_le16_at(r, 16, hidden as nat);
    lemma_le16_at(r, 18, layers as nat);
    lemma_le16_at(r, 20, heads as nat);
    lemma_le16_at(r, 22, dim as nat);
    lemma_le16_at(r, 24, vocab as nat);
    lemma_le16_at(r, 26, word as nat);
}

/// What is packed reads back: every model of a packed catalog has the name and
/// the figures of its entry. (A name that holds a zero byte ends there.)
#[verifier::rlimit(30)]
#[verifier::spinoff_prover]
pub proof fn law_models_read_back(
    models: Seq<&SourceModel>,
    ms: Seq<PackedMeasurement>,
    cs: Seq<(u32, u16, u8)>,
    i: int,
)
    requires
        packed_len(models, ms, cs) <= u32::MAX,
        0 <= i < models.len(),
        forall|k: int| 0 <= k < models[i].label().len() ==> #[trigger] models[i].label()[k] != 0,
    ensures
        catalog::parse_spec(packed(models, ms, cs)) matches Ok(c) && ({
            let read = c.model(i as nat);
            let m = models[i];
            &&& c.count == models.len()
            &&& read.name() == m.label()
            &&& read.params_m() == m.params_m()
            &&& read.active_params_m() == m.active_m()
            &&& read.context_length() == m.context()
            &&& read.num_layers() == clamp16_spec(or_zero32(m.num_hidden_layers))
            &&& read.num_kv_heads() == clamp16_spec(or_zero32(m.num_key_value_heads))
            &&& read.head_dim() == clamp16_spec(or_zero32(m.head_dim))
            &&& read.flags() == m.flag_word()
            &&& read.use_case() == m.use_case_spec()
            &&& read.quality_prior() == m.quality_prior
            &&& forall|q: crate::quant::Quant| #[trigger] read.supports_quant(q)
        }),
{
    law_packed_catalogs_parse(models, ms, cs);
    lemma_read_back(models, ms, cs, i);
    lemma_record_says(*models[i], offset_spec(models, i) as u32);
}

/// The record and the name of a packed model are where they are read.
#[verifier::spinoff_prover]
proof fn lemma_read_back(
    models: Seq<&SourceModel>,
    ms: Seq<PackedMeasurement>,
    cs: Seq<(u32, u16, u8)>,
    i: int,
)
    requires
        packed_len(models, ms, cs) <= u32::MAX,
        0 <= i < models.len(),
        forall|k: int| 0 <= k < models[i].label().len() ==> #[trigger] models[i].label()[k] != 0,
    ensures
        ({
            let read = sections(models, ms, cs).model(i as nat);
            &&& read.record == record_spec(*models[i], offset_spec(models, i) as u32)
            &&& read.name() == models[i].label()
        }),
{
    let off = offset_spec(models, i) as u32;
    lemma_record_at(models, models.len(), i);
    lemma_name_at(models, i);
    let read = sections(models, ms, cs).model(i as nat);
    assert(read.record =~= record_spec(*models[i], off));
    lemma_record_says(*models[i], off);
}

/// The record of an entry says what the entry says.
proof fn lemma_record_says(m: SourceModel, off: u32)
    ensures
        ({
            let r = record_spec(m, off);
            &&& le32(r, 0) == off
            &&& le32(r, 4) == m.params_m()
            &&& le32(r, 8) == m.active_m()
            &&& m.active_m() == 0 ==> m.params_m() == 0
            &&& le32(r, 12) == m.context()
            &&& le16(r, 18) == clamp16_spec(or_zero32(m.num_hidden_layers))
            &&& le16(r, 20) == clamp16_spec(or_zero32(m.num_key_value_heads))
            &&& le16(r, 22) == clamp16_spec(or_zero32(m.head_dim))
            &&& le16(r, 26) == m.flag_word()
            &&& r[28] == 0
            &&& UseCase::at(r[29]) == m.use_case_spec()
            &&& r[31] == m.quality_prior
        }),
{
    reveal(record_spec);
    reveal(SourceModel::active_m);
    lemma_record_fields(
        off,
        m.params_m(),
        m.active_m(),
        m.context(),
        clamp16_spec(or_zero32(m.hidden_size)),
        clamp16_spec(or_zero32(m.num_hidden_layers)),
        clamp16_spec(or_zero32(m.num_key_value_heads)),
        clamp16_spec(or_zero32(m.head_dim)),
        clamp16_spec(or_zero32(m.vocab_size) / 1000),
        m.flag_word(),
        m.use_case_spec().rank() as u8,
        family_spec(m.lower_label(), m.architecture),
        m.quality_prior,
    );
}

/// The flags of a record say what its entry is.
pub proof fn law_flags_read_back(m: SourceModel)
    ensures
        m.flag_word() & flags::MOE != 0 <==> m.sparse(),
        m.flag_word() & flags::VISION != 0 <==> m.sees(),
        m.flag_word() & flags::EMBEDDING != 0 <==> m.embeds(),
        m.flag_word() & flags::ARCH_METADATA != 0 <==> m.has_arch(),
        m.flag_word() & flags::INSTRUCT != 0 <==> m.tuned(),
        m.flag_word() & flags::GGUF != 0 <==> m.has_gguf(),
{
    reveal(SourceModel::flag_word);
    lemma_flag_bits(m.sparse(), m.sees(), m.embeds(), m.has_arch(), m.tuned(), m.has_gguf());
}

proof fn lemma_flag_bits(a: bool, b: bool, c: bool, d: bool, e: bool, f: bool)
    ensures
        ({
            let w = (bit(a, 1) + bit(b, 2) + bit(c, 4) + bit(d, 8) + bit(e, 16) + bit(
                f,
                32,
            )) as u16;
            &&& w & 1 != 0 <==> a
            &&& w & 2 != 0 <==> b
            &&& w & 4 != 0 <==> c
            &&& w & 8 != 0 <==> d
            &&& w & 16 != 0 <==> e
            &&& w & 32 != 0 <==> f
        }),
{
    let w = (bit(a, 1) + bit(b, 2) + bit(c, 4) + bit(d, 8) + bit(e, 16) + bit(f, 32)) as u16;
    assert((w & 1 != 0) == (w % 2 == 1)) by (bit_vector);
    assert((w & 2 != 0) == (w / 2 % 2 == 1)) by (bit_vector);
    assert((w & 4 != 0) == (w / 4 % 2 == 1)) by (bit_vector);
    assert((w & 8 != 0) == (w / 8 % 2 == 1)) by (bit_vector);
    assert((w & 16 != 0) == (w / 16 % 2 == 1)) by (bit_vector);
    assert((w & 32 != 0) == (w / 32 % 2 == 1)) by (bit_vector);
}

/// The key a measurement is found under.
pub open spec fn key_of(m: PackedMeasurement) -> int {
    m.hw_key * 0x1_0000_0000 + m.model_index
}

proof fn lemma_measurement_at(ms: Seq<PackedMeasurement>, n: nat, i: int)
    requires
        0 <= i < n <= ms.len(),
    ensures
        measurements_spec(ms, n).len() == 16 * n,
        measurements_spec(ms, n).subrange(16 * i, 16 * i + 16) == measurement_spec(ms[i]),
    decreases n,
{
    let all = measurements_spec(ms, n);
    let before = measurements_spec(ms, (n - 1) as nat);
    let none: Seq<&SourceModel> = Seq::empty();
    lemma_lengths(none, 0, ms, n, Seq::empty(), 0);
    lemma_lengths(none, 0, ms, (n - 1) as nat, Seq::empty(), 0);
    if i == n - 1 {
        assert(all.subrange(16 * i, 16 * i + 16) =~= measurement_spec(ms[i]));
    } else {
        lemma_measurement_at(ms, (n - 1) as nat, i);
        assert(all.subrange(16 * i, 16 * i + 16) =~= before.subrange(16 * i, 16 * i + 16));
    }
}

/// Every measurement of a packed catalog reads back.
proof fn lemma_measurement_reads_back(
    models: Seq<&SourceModel>,
    ms: Seq<PackedMeasurement>,
    cs: Seq<(u32, u16, u8)>,
    i: int,
)
    requires
        0 <= i < ms.len(),
    ensures
        ({
            let c = sections(models, ms, cs);
            let m = ms[i];
            &&& c.measurement_total() == ms.len()
            &&& c.measurement_key(i) == key_of(m)
            &&& c.measurement_at(i) == (catalog::Measurement {
                tps_x10: m.tps_x10,
                ttft_ms: m.ttft_ms,
                quant: crate::quant::Quant::at(m.quant as nat),
                runs: m.runs,
                provider: catalog::Provider::at(m.provider),
            })
        }),
{
    let c = sections(models, ms, cs);
    let m = ms[i];
    let all = c.measurements;
    lemma_measurement_at(ms, ms.len(), i);
    let part = measurement_spec(m);
    let at = 16 * i;
    assert forall|k: int| 0 <= k < 16 implies all[at + k] == part[k] by {
        assert(all.subrange(at, at + 16)[k] == all[at + k]);
    }
    lemma_le32_at(all, at, m.hw_key as nat);
    lemma_le32_at(all, at + 4, m.model_index as nat);
    lemma_le16_at(all, at + 8, m.tps_x10 as nat);
    lemma_le16_at(all, at + 10, m.ttft_ms as nat);
}

/// Measurements that are packed in order of machine and model are found: the
/// reader gives back what was packed, and nothing for a pairing that was not.
pub proof fn law_measurements_read_back(
    models: Seq<&SourceModel>,
    ms: Seq<PackedMeasurement>,
    cs: Seq<(u32, u16, u8)>,
    hw_key: u32,
    model_index: u32,
)
    requires
        packed_len(models, ms, cs) <= u32::MAX,
        hw_key != 0,
        forall|a: int, b: int|
            0 <= a < b < ms.len() ==> key_of(#[trigger] ms[a]) < key_of(#[trigger] ms[b]),
    ensures
        catalog::parse_spec(packed(models, ms, cs)) matches Ok(c) && match c.measurement(
            hw_key,
            model_index,
        ) {
            Some(found) => exists|i: int|
                {
                    &&& 0 <= i < ms.len()
                    &&& (#[trigger] ms[i]).hw_key == hw_key
                    &&& ms[i].model_index == model_index
                    &&& found.tps_x10 == ms[i].tps_x10
                    &&& found.ttft_ms == ms[i].ttft_ms
                    &&& found.quant == crate::quant::Quant::at(ms[i].quant as nat)
                    &&& found.runs == ms[i].runs
                    &&& found.provider == catalog::Provider::at(ms[i].provider)
                },
            None => forall|i: int|
                0 <= i < ms.len() ==> !((#[trigger] ms[i]).hw_key == hw_key && ms[i].model_index
                    == model_index),
        },
{
    law_packed_catalogs_parse(models, ms, cs);
    let c = sections(models, ms, cs);
    let none: Seq<&SourceModel> = Seq::empty();
    lemma_lengths(none, 0, ms, ms.len(), Seq::empty(), 0);
    assert forall|a: int, b: int|
        0 <= a < b < c.measurement_total() implies #[trigger] c.measurement_key(a)
        < #[trigger] c.measurement_key(b) by {
        lemma_measurement_reads_back(models, ms, cs, a);
        lemma_measurement_reads_back(models, ms, cs, b);
    }
    if exists|i: int|
        0 <= i < ms.len() && (#[trigger] ms[i]).hw_key == hw_key && ms[i].model_index
            == model_index {
        let i = choose|i: int|
            0 <= i < ms.len() && (#[trigger] ms[i]).hw_key == hw_key && ms[i].model_index
                == model_index;
        lemma_measurement_reads_back(models, ms, cs, i);
        catalog::law_every_measurement_is_found(c, hw_key, model_index, i);
    } else {
        assert forall|i: int| 0 <= i < c.measurement_total() implies #[trigger] c.measurement_key(i)
            != hw_key * 0x1_0000_0000 + model_index by {
            lemma_measurement_reads_back(models, ms, cs, i);
        }
        catalog::law_no_measurement_is_invented(c, hw_key, model_index);
    }
}

proof fn lemma_calibration_at(cs: Seq<(u32, u16, u8)>, n: nat, i: int)
    requires
        0 <= i < n <= cs.len(),
    ensures
        calibrations_spec(cs, n).len() == 8 * n,
        calibrations_spec(cs, n).subrange(8 * i, 8 * i + 8) == calibration_spec(cs[i]),
    decreases n,
{
    let all = calibrations_spec(cs, n);
    let before = calibrations_spec(cs, (n - 1) as nat);
    let none: Seq<&SourceModel> = Seq::empty();
    lemma_lengths(none, 0, Seq::empty(), 0, cs, n);
    lemma_lengths(none, 0, Seq::empty(), 0, cs, (n - 1) as nat);
    if i == n - 1 {
        assert(all.subrange(8 * i, 8 * i + 8) =~= calibration_spec(cs[i]));
    } else {
        lemma_calibration_at(cs, (n - 1) as nat, i);
        assert(all.subrange(8 * i, 8 * i + 8) =~= before.subrange(8 * i, 8 * i + 8));
    }
}

/// Every factor of a packed catalog reads back.
proof fn lemma_calibration_reads_back(
    models: Seq<&SourceModel>,
    ms: Seq<PackedMeasurement>,
    cs: Seq<(u32, u16, u8)>,
    i: int,
)
    requires
        0 <= i < cs.len(),
    ensures
        ({
            let c = sections(models, ms, cs);
            &&& c.calibration_total() == cs.len()
            &&& c.calibration_key(i) == cs[i].0
            &&& c.calibration_at(i) == (thousandths(cs[i].1), cs[i].2)
        }),
{
    let c = sections(models, ms, cs);
    let all = c.calibrations;
    lemma_calibration_at(cs, cs.len(), i);
    let part = calibration_spec(cs[i]);
    let at = 8 * i;
    assert forall|k: int| 0 <= k < 8 implies all[at + k] == part[k] by {
        assert(all.subrange(at, at + 8)[k] == all[at + k]);
    }
    lemma_le32_at(all, at, cs[i].0 as nat);
    lemma_le16_at(all, at + 4, cs[i].1 as nat);
}

/// A factor that is stored in thousandths.
pub open spec fn thousandths(v: u16) -> Single {
    Single::nearest(v as nat, 1).div_spec(Single::nearest(1000, 1))
}

/// Factors that are packed in order of machine are found: the reader gives back
/// what was packed, and nothing for a machine that there is no factor of.
pub proof fn law_calibrations_read_back(
    models: Seq<&SourceModel>,
    ms: Seq<PackedMeasurement>,
    cs: Seq<(u32, u16, u8)>,
    hw_key: u32,
)
    requires
        packed_len(models, ms, cs) <= u32::MAX,
        hw_key != 0,
        forall|a: int, b: int| 0 <= a < b < cs.len() ==> (#[trigger] cs[a]).0 < (#[trigger] cs[b]).0,
    ensures
        catalog::parse_spec(packed(models, ms, cs)) matches Ok(c) && match c.calibration(hw_key) {
            Some(found) => exists|i: int|
                {
                    &&& 0 <= i < cs.len()
                    &&& (#[trigger] cs[i]).0 == hw_key
                    &&& found == (thousandths(cs[i].1), cs[i].2)
                },
            None => forall|i: int| 0 <= i < cs.len() ==> (#[trigger] cs[i]).0 != hw_key,
        },
{
    law_packed_catalogs_parse(models, ms, cs);
    let c = sections(models, ms, cs);
    let none: Seq<&SourceModel> = Seq::empty();
    lemma_lengths(none, 0, Seq::empty(), 0, cs, cs.len());
    assert forall|a: int, b: int|
        0 <= a < b < c.calibration_total() implies #[trigger] c.calibration_key(a)
        < #[trigger] c.calibration_key(b) by {
        lemma_calibration_reads_back(models, ms, cs, a);
        lemma_calibration_reads_back(models, ms, cs, b);
    }
    if exists|i: int| 0 <= i < cs.len() && (#[trigger] cs[i]).0 == hw_key {
        let i = choose|i: int| 0 <= i < cs.len() && (#[trigger] cs[i]).0 == hw_key;
        lemma_calibration_reads_back(models, ms, cs, i);
        catalog::law_every_calibration_is_found(c, hw_key, i);
    } else {
        assert forall|i: int| 0 <= i < c.calibration_total() implies #[trigger] c.calibration_key(i)
            != hw_key by {
            lemma_calibration_reads_back(models, ms, cs, i);
        }
        catalog::law_no_calibration_is_invented(c, hw_key);
    }
}

proof fn lemma_kept(
    models: Seq<SourceModel>,
    min_downloads: u64,
    all_pipelines: bool,
    n: nat,
    m: SourceModel,
)
    requires
        n <= models.len(),
    ensures
        kept_spec(models, min_downloads, all_pipelines, n).contains(&m) <==> (models.take(
            n as int,
        ).contains(m) && m.worth_keeping(min_downloads, all_pipelines)),
    decreases n,
{
    let kept = kept_spec(models, min_downloads, all_pipelines, n);
    if n > 0 {
        let before = kept_spec(models, min_downloads, all_pipelines, (n - 1) as nat);
        let last = models[n - 1];
        lemma_kept(models, min_downloads, all_pipelines, (n - 1) as nat, m);
        assert(models.take(n as int) =~= models.take(n - 1).push(last));
        broadcast use vstd::seq_lib::group_seq_properties;

        assert(models.take(n as int).contains(m) <==> models.take(n - 1).contains(m) || m == last);
        assert(before.push(&last).contains(&m) <==> before.contains(&m) || m == last);
    } else {
        assert(models.take(0) =~= Seq::empty());
    }
}

/// A catalog holds entries worth keeping, the most downloaded first, and what
/// was left out was no more downloaded than anything that is in it.
pub proof fn law_the_most_downloaded_are_kept(
    models: Seq<SourceModel>,
    min_downloads: u64,
    all_pipelines: bool,
    top: Option<usize>,
)
    ensures
        sort::in_order(selected(models, min_downloads, all_pipelines, top)),
        forall|m: SourceModel|
            #[trigger] selected(models, min_downloads, all_pipelines, top).contains(&m)
                ==> models.contains(m) && m.worth_keeping(min_downloads, all_pipelines),
        forall|m: SourceModel, i: int|
            models.contains(m) && m.worth_keeping(min_downloads, all_pipelines) && !(#[trigger] selected(
                models,
                min_downloads,
                all_pipelines,
                top,
            ).contains(&m)) && 0 <= i < selected(models, min_downloads, all_pipelines, top).len()
                ==> m.downloads() <= (#[trigger] selected(
                models,
                min_downloads,
                all_pipelines,
                top,
            )[i]).downloads(),
        top is None ==> forall|m: SourceModel|
            models.contains(m) && #[trigger] m.worth_keeping(min_downloads, all_pipelines)
                ==> selected(models, min_downloads, all_pipelines, top).contains(&m),
{
    let kept = kept_spec(models, min_downloads, all_pipelines, models.len());
    let all = sort::sorted(kept);
    let out = selected(models, min_downloads, all_pipelines, top);
    sort::law_sorted_is_in_order(kept);
    sort::law_sorted_is_a_permutation(kept);
    assert(models.take(models.len() as int) =~= models);
    assert forall|m: SourceModel| all.contains(&m) <==> kept.contains(&m) by {
        broadcast use vstd::seq_lib::group_to_multiset_ensures;

        assert(all.to_multiset().count(&m) == kept.to_multiset().count(&m));
    }
    assert forall|m: SourceModel| #[trigger] out.contains(&m) implies models.contains(m)
        && m.worth_keeping(min_downloads, all_pipelines) by {
        let i = choose|i: int| 0 <= i < out.len() && out[i] == &m;
        assert(all[i] == &m);
        lemma_kept(models, min_downloads, all_pipelines, models.len(), m);
    }
    assert forall|m: SourceModel, i: int|
        models.contains(m) && m.worth_keeping(min_downloads, all_pipelines) && !(
        #[trigger] out.contains(&m)) && 0 <= i < out.len() implies m.downloads() <= (
    #[trigger] out[i]).downloads() by {
        lemma_kept(models, min_downloads, all_pipelines, models.len(), m);
        assert(all.contains(&m));
        let j = choose|j: int| 0 <= j < all.len() && all[j] == &m;
        if j < out.len() {
            assert(out[j] == &m);
        }
        assert(out[i] == all[i]);
        assert(!all[j].precedes(all[i]));
    }
    assert forall|m: SourceModel|
        top is None && models.contains(m) && #[trigger] m.worth_keeping(
            min_downloads,
            all_pipelines,
        ) implies out.contains(&m) by {
        lemma_kept(models, min_downloads, all_pipelines, models.len(), m);
    }
}

/// A name is stored once: models of the same name point to the same place, and
/// a further one adds nothing to the string table.
pub proof fn law_names_are_stored_once(models: Seq<&SourceModel>, i: int, j: int)
    requires
        0 <= i < j < models.len(),
        models[i].label() == models[j].label(),
    ensures
        offset_spec(models, i) == offset_spec(models, j),
        table_spec(models, (j + 1) as nat) == table_spec(models, j as nat),
{
    lemma_first_named(models, i, 0);
    lemma_first_named(models, j, 0);
    let (a, b) = (first_named(models, i, 0), first_named(models, j, 0));
    if a < b {
        assert(models[a].label() != models[j].label());
    } else if b < a {
        assert(models[b].label() != models[i].label());
    }
}

} // verus!
