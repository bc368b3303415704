//! Reader for the packed `.ocb` catalog.
//!
//! Fixed-width records and a string table, read in place: a [`Catalog`] borrows
//! the bytes and every accessor decodes straight out of them, so a catalog of
//! thousands of models can sit in flash and be ranked without a heap.
//!
//! Little-endian throughout.

use vstd::prelude::*;
use vstd::utf8::*;

use crate::float::Single;
use crate::quant::Quant;
use crate::text;

pub mod flags;
pub mod layout;
pub mod lookup;
pub mod names;

pub use names::{base_name, same_weights};

verus! {

/// The layout version this reader knows: records, strings, measurements and
/// calibrations.
pub const FORMAT_VERSION: u16 = 2;

pub const HEADER_LEN: usize = 48;

pub const RECORD_LEN: usize = 32;

/// Bytes of one measurement.
pub const MEASUREMENT_LEN: usize = 16;

/// Bytes of one calibration.
pub const CALIBRATION_LEN: usize = 8;

/// The four bytes every catalog begins with: `OCB1`.
pub open spec fn magic_spec() -> Seq<u8> {
    seq![79u8, 67, 66, 49]
}

/// The four bytes every catalog begins with: `OCB1`.
pub fn magic() -> (r: [u8; 4])
    ensures
        r@ == magic_spec(),
{
    let r: [u8; 4] = [79, 67, 66, 49];
    assert(r@ =~= magic_spec());
    r
}

#[derive(Clone, Copy, PartialEq, Eq, Structural, Debug)]
pub enum CatalogError {
    TooShort,
    BadMagic,
    UnsupportedVersion(u16),
    /// The record width in the header is not the one this reader decodes.
    BadRecordSize(u16),
    /// A section runs past the end of the bytes.
    Truncated,
}

// --- little-endian numbers --------------------------------------------------

pub open spec fn le16(s: Seq<u8>, at: int) -> u16 {
    (s[at] + 256 * s[at + 1]) as u16
}

pub open spec fn le32(s: Seq<u8>, at: int) -> u32 {
    (s[at] + 0x100 * s[at + 1] + 0x1_0000 * s[at + 2] + 0x100_0000 * s[at + 3]) as u32
}

fn u16le(buf: &[u8], at: usize) -> (r: u16)
    requires
        at + 2 <= buf.len(),
    ensures
        r == le16(buf@, at as int),
{
    buf[at] as u16 + 256 * buf[at + 1] as u16
}

fn u32le(buf: &[u8], at: usize) -> (r: u32)
    requires
        at + 4 <= buf.len(),
    ensures
        r == le32(buf@, at as int),
{
    buf[at] as u32 + 0x100 * buf[at + 1] as u32 + 0x1_0000 * buf[at + 2] as u32 + 0x100_0000
        * buf[at + 3] as u32
}

// --- the identity of a machine ----------------------------------------------

/// What a machine's name is known by: its letters and digits, in lower case.
pub open spec fn identity(name: Seq<u8>) -> Seq<u8>
    decreases name.len(),
{
    if name.len() == 0 {
        Seq::empty()
    } else if text::is_alphanumeric(name.last()) {
        identity(name.drop_last()).push(text::lower(name.last()))
    } else {
        identity(name.drop_last())
    }
}

/// The 32-bit FNV-1a hash.
pub open spec fn fnv1a(s: Seq<u8>) -> u32
    decreases s.len(),
{
    if s.len() == 0 {
        0x811c_9dc5
    } else {
        (((fnv1a(s.drop_last()) ^ (s.last() as u32)) as int * 0x0100_0193) % 0x1_0000_0000) as u32
    }
}

/// The key of a machine's name; zero is kept for "not identified".
pub open spec fn hw_key_spec(name: Seq<u8>) -> u32 {
    let hash = fnv1a(identity(name));
    if hash == 0 {
        1
    } else {
        hash
    }
}

/// The identifier that measurements are attached to a machine by. Case,
/// spaces and punctuation do not count, so `NVIDIA GeForce RTX 4090` and
/// `nvidia geforce rtx-4090` are one machine. The packer and whoever asks later
/// must agree on it, so there is this one definition.
pub fn hw_key(name: &str) -> (r: u32)
    ensures
        r == hw_key_spec(text::bytes(name)),
        r != 0,
{
    hw_key_bytes(name.as_bytes())
}

pub fn hw_key_bytes(name: &[u8]) -> (r: u32)
    ensures
        r == hw_key_spec(name@),
        r != 0,
{
    let mut hash: u32 = 0x811c_9dc5;
    let mut i: usize = 0;
    while i < name.len()
        invariant
            i <= name.len(),
            hash == fnv1a(identity(name@.take(i as int))),
        decreases name.len() - i,
    {
        let b: u8 = name[i];
        let ghost seen: Seq<u8> = name@.take(i + 1);
        assert(seen.drop_last() =~= name@.take(i as int));
        if text::digit(b) || text::letter(b) {
            let low: u8 = text::to_lower(b);
            let mixed: u32 = hash ^ (low as u32);
            proof {
                let id = identity(seen.drop_last());
                assert(id.push(low).drop_last() =~= id);
            }
            hash = ((mixed as u64 * 0x0100_0193) % 0x1_0000_0000) as u32;
        }
        i = i + 1;
    }
    assert(name@.take(i as int) =~= name@);
    if hash == 0 {
        1
    } else {
        hash
    }
}

/// Names that differ only in case and in what is no letter or digit are one
/// machine.
pub proof fn law_hw_key_by_identity(a: Seq<u8>, b: Seq<u8>)
    requires
        identity(a) == identity(b),
    ensures
        hw_key_spec(a) == hw_key_spec(b),
        hw_key_spec(a) != 0,
{
}

/// Case does not count in a machine's name.
pub proof fn law_hw_key_ignores_case(name: Seq<u8>)
    ensures
        hw_key_spec(text::lowered(name)) == hw_key_spec(name),
    decreases name.len(),
{
    lemma_identity_lowered(name);
}

proof fn lemma_identity_lowered(name: Seq<u8>)
    ensures
        identity(text::lowered(name)) == identity(name),
    decreases name.len(),
{
    if name.len() > 0 {
        assert(text::lowered(name).drop_last() =~= text::lowered(name.drop_last()));
        lemma_identity_lowered(name.drop_last());
    }
}

/// A byte that is no letter or digit does not count in a machine's name,
/// wherever it stands.
pub proof fn law_hw_key_ignores_punctuation(head: Seq<u8>, b: u8, tail: Seq<u8>)
    requires
        !text::is_alphanumeric(b),
    ensures
        hw_key_spec(head.push(b) + tail) == hw_key_spec(head + tail),
{
    lemma_identity_skips(head, b, tail);
}

proof fn lemma_identity_skips(head: Seq<u8>, b: u8, tail: Seq<u8>)
    requires
        !text::is_alphanumeric(b),
    ensures
        identity(head.push(b) + tail) == identity(head + tail),
    decreases tail.len(),
{
    let long = head.push(b) + tail;
    let short = head + tail;
    if tail.len() == 0 {
        assert(long =~= head.push(b));
        assert(short =~= head);
        assert(long.drop_last() =~= head);
    } else {
        assert(long.drop_last() =~= head.push(b) + tail.drop_last());
        assert(short.drop_last() =~= head + tail.drop_last());
        lemma_identity_skips(head, b, tail.drop_last());
    }
}

// --- what the catalog speaks of ---------------------------------------------

/// The runtime that produced a measurement. A throughput cannot be read
/// without it.
#[derive(Clone, Copy, PartialEq, Eq, Structural, Debug)]
pub enum Provider {
    Unknown,
    LlamaCpp,
    Ollama,
    Mlx,
    Vllm,
}

impl Provider {
    pub open spec fn name_spec(self) -> &'static str {
        match self {
            Provider::Unknown => "unknown",
            Provider::LlamaCpp => "llama.cpp",
            Provider::Ollama => "ollama",
            Provider::Mlx => "mlx",
            Provider::Vllm => "vllm",
        }
    }

    /// The runtime stored as `v`.
    pub open spec fn at(v: u8) -> Provider {
        if v == 1 {
            Provider::LlamaCpp
        } else if v == 2 {
            Provider::Ollama
        } else if v == 3 {
            Provider::Mlx
        } else if v == 4 {
            Provider::Vllm
        } else {
            Provider::Unknown
        }
    }

    pub fn name(self) -> (r: &'static str)
        ensures
            r@ == self.name_spec()@,
    {
        match self {
            Provider::Unknown => "unknown",
            Provider::LlamaCpp => "llama.cpp",
            Provider::Ollama => "ollama",
            Provider::Mlx => "mlx",
            Provider::Vllm => "vllm",
        }
    }

    pub fn from_u8(v: u8) -> (r: Provider)
        ensures
            r == Provider::at(v),
    {
        match v {
            1 => Provider::LlamaCpp,
            2 => Provider::Ollama,
            3 => Provider::Mlx,
            4 => Provider::Vllm,
            _ => Provider::Unknown,
        }
    }
}

/// A throughput that somebody recorded on real hardware. Where there is one it
/// is reported in place of a formula, never averaged with it.
#[derive(Clone, Copy, PartialEq, Eq, Structural, Debug)]
pub struct Measurement {
    /// Decode throughput in tenths of a token per second.
    pub tps_x10: u16,
    /// Milliseconds to the first token. Zero means it was not recorded.
    pub ttft_ms: u16,
    /// The quantization that was run, where it could be told.
    pub quant: Option<Quant>,
    /// How many submitted runs stand behind the figure.
    pub runs: u8,
    pub provider: Provider,
}

impl Measurement {
    /// Tokens per second.
    pub fn tps(&self) -> (r: Single)
        ensures
            r == Single::nearest(self.tps_x10 as nat, 1).div_spec(Single::nearest(10, 1)),
    {
        Single::from_u32(self.tps_x10 as u32).over(Single::from_u32(10))
    }
}

/// What a model is for. Drives the scoring weights.
#[derive(Clone, Copy, PartialEq, Eq, Structural, Debug)]
pub enum UseCase {
    General,
    Coding,
    Reasoning,
    Chat,
    Multimodal,
    Embedding,
}

impl UseCase {
    pub open spec fn name_spec(self) -> &'static str {
        match self {
            UseCase::General => "general",
            UseCase::Coding => "coding",
            UseCase::Reasoning => "reasoning",
            UseCase::Chat => "chat",
            UseCase::Multimodal => "multimodal",
            UseCase::Embedding => "embedding",
        }
    }

    /// The number a use case is stored as.
    pub open spec fn rank(self) -> nat {
        match self {
            UseCase::General => 0,
            UseCase::Coding => 1,
            UseCase::Reasoning => 2,
            UseCase::Chat => 3,
            UseCase::Multimodal => 4,
            UseCase::Embedding => 5,
        }
    }

    /// The use case stored as `v`; anything unknown is general.
    pub open spec fn at(v: u8) -> UseCase {
        if v == 1 {
            UseCase::Coding
        } else if v == 2 {
            UseCase::Reasoning
        } else if v == 3 {
            UseCase::Chat
        } else if v == 4 {
            UseCase::Multimodal
        } else if v == 5 {
            UseCase::Embedding
        } else {
            UseCase::General
        }
    }

    pub open spec fn parse_spec(s: Seq<u8>) -> Option<UseCase> {
        if s == text::bytes("general") {
            Some(UseCase::General)
        } else if s == text::bytes("coding") || s == text::bytes("code") {
            Some(UseCase::Coding)
        } else if s == text::bytes("reasoning") || s == text::bytes("reason") {
            Some(UseCase::Reasoning)
        } else if s == text::bytes("chat") {
            Some(UseCase::Chat)
        } else if s == text::bytes("multimodal") || s == text::bytes("vision") {
            Some(UseCase::Multimodal)
        } else if s == text::bytes("embedding") || s == text::bytes("embed") {
            Some(UseCase::Embedding)
        } else {
            None
        }
    }

    pub fn name(self) -> (r: &'static str)
        ensures
            r@ == self.name_spec()@,
    {
        match self {
            UseCase::General => "general",
            UseCase::Coding => "coding",
            UseCase::Reasoning => "reasoning",
            UseCase::Chat => "chat",
            UseCase::Multimodal => "multimodal",
            UseCase::Embedding => "embedding",
        }
    }

    /// The number a use case is stored as.
    pub fn code(self) -> (r: u8)
        ensures
            r == self.rank(),
            UseCase::at(r) == self,
    {
        match self {
            UseCase::General => 0,
            UseCase::Coding => 1,
            UseCase::Reasoning => 2,
            UseCase::Chat => 3,
            UseCase::Multimodal => 4,
            UseCase::Embedding => 5,
        }
    }

    pub fn from_u8(v: u8) -> (r: UseCase)
        ensures
            r == UseCase::at(v),
    {
        match v {
            1 => UseCase::Coding,
            2 => UseCase::Reasoning,
            3 => UseCase::Chat,
            4 => UseCase::Multimodal,
            5 => UseCase::Embedding,
            _ => UseCase::General,
        }
    }

    pub fn parse(s: &str) -> (r: Option<UseCase>)
        ensures
            r == UseCase::parse_spec(text::bytes(s)),
    {
        UseCase::parse_bytes(s.as_bytes())
    }

    pub fn parse_bytes(s: &[u8]) -> (r: Option<UseCase>)
        ensures
            r == UseCase::parse_spec(s@),
    {
        if text::is(s, "general") {
            Some(UseCase::General)
        } else if text::is(s, "coding") || text::is(s, "code") {
            Some(UseCase::Coding)
        } else if text::is(s, "reasoning") || text::is(s, "reason") {
            Some(UseCase::Reasoning)
        } else if text::is(s, "chat") {
            Some(UseCase::Chat)
        } else if text::is(s, "multimodal") || text::is(s, "vision") {
            Some(UseCase::Multimodal)
        } else if text::is(s, "embedding") || text::is(s, "embed") {
            Some(UseCase::Embedding)
        } else {
            None
        }
    }
}

// --- the model of a catalog -------------------------------------------------

/// The sections of a catalog.
#[verifier::ext_equal]
pub struct CatalogData {
    pub records: Seq<u8>,
    pub strings: Seq<u8>,
    pub measurements: Seq<u8>,
    pub calibrations: Seq<u8>,
    pub count: nat,
}

/// One record of a catalog and the string table its name lies in.
#[verifier::ext_equal]
pub struct ModelData {
    pub record: Seq<u8>,
    pub strings: Seq<u8>,
    pub index: nat,
}

/// The bytes of a section, or `None` where it runs past the end.
pub open spec fn section_spec(data: Seq<u8>, offset: nat, count: nat, stride: nat) -> Option<
    Seq<u8>,
> {
    if count == 0 {
        Some(Seq::empty())
    } else if offset + count * stride <= data.len() {
        Some(data.subrange(offset as int, (offset + count * stride) as int))
    } else {
        None
    }
}

/// What the bytes of a catalog hold, or why they are refused.
pub open spec fn parse_spec(data: Seq<u8>) -> Result<CatalogData, CatalogError> {
    if data.len() < HEADER_LEN {
        Err(CatalogError::TooShort)
    } else if data.subrange(0, 4) != magic_spec() {
        Err(CatalogError::BadMagic)
    } else if le16(data, 4) != FORMAT_VERSION {
        Err(CatalogError::UnsupportedVersion(le16(data, 4)))
    } else if le16(data, 6) != RECORD_LEN {
        Err(CatalogError::BadRecordSize(le16(data, 6)))
    } else {
        let count = le32(data, 8) as nat;
        let records = section_spec(data, le32(data, 12) as nat, count, RECORD_LEN as nat);
        let strings = section_spec(data, le32(data, 16) as nat, le32(data, 20) as nat, 1);
        let measurements = section_spec(
            data,
            le32(data, 24) as nat,
            le32(data, 28) as nat,
            MEASUREMENT_LEN as nat,
        );
        let calibrations = section_spec(
            data,
            le32(data, 32) as nat,
            le32(data, 36) as nat,
            CALIBRATION_LEN as nat,
        );
        match (records, strings, measurements, calibrations) {
            (Some(records), Some(strings), Some(measurements), Some(calibrations)) => Ok(
                CatalogData { records, strings, measurements, calibrations, count },
            ),
            _ => Err(CatalogError::Truncated),
        }
    }
}

/// Where the first zero byte at or after `from` stands, or the end.
pub open spec fn zero_from(s: Seq<u8>, from: int) -> int
    decreases s.len() - from,
{
    if from < 0 || from >= s.len() || s[from] == 0 {
        from
    } else {
        zero_from(s, from + 1)
    }
}

/// The zero-terminated text at an offset of a string table; nothing where the
/// offset lies outside it or the bytes are no text.
pub open spec fn cstr(strings: Seq<u8>, off: int) -> Seq<u8> {
    if off >= strings.len() {
        Seq::empty()
    } else {
        let raw = strings.subrange(off, zero_from(strings, off));
        if valid_utf8(raw) {
            raw
        } else {
            Seq::empty()
        }
    }
}

impl ModelData {
    pub open spec fn name(self) -> Seq<u8> {
        cstr(self.strings, le32(self.record, 0) as int)
    }

    pub open spec fn params_m(self) -> u32 {
        le32(self.record, 4)
    }

    pub open spec fn active_params_m(self) -> u32 {
        if le32(self.record, 8) == 0 {
            self.params_m()
        } else {
            le32(self.record, 8)
        }
    }

    pub open spec fn context_length(self) -> u32 {
        le32(self.record, 12)
    }

    pub open spec fn num_layers(self) -> u16 {
        le16(self.record, 18)
    }

    pub open spec fn num_kv_heads(self) -> u16 {
        le16(self.record, 20)
    }

    pub open spec fn head_dim(self) -> u16 {
        le16(self.record, 22)
    }

    pub open spec fn flags(self) -> u16 {
        le16(self.record, 26)
    }

    pub open spec fn has_flag(self, flag: u16) -> bool {
        self.flags() & flag != 0
    }

    /// Whether a format is published for the model. A mask of zero says that
    /// nothing is known, which counts as every format.
    pub open spec fn supports_quant(self, q: Quant) -> bool {
        self.record[28] == 0 || (self.record[28] as nat / vstd::arithmetic::power2::pow2(q.rank()))
            % 2 == 1
    }

    pub open spec fn use_case(self) -> UseCase {
        UseCase::at(self.record[29])
    }

    pub open spec fn quality_prior(self) -> u8 {
        self.record[31]
    }

    pub open spec fn params_b(self) -> Single {
        Single::nearest(self.params_m() as nat, 1).div_spec(Single::nearest(1000, 1))
    }

    pub open spec fn active_params_b(self) -> Single {
        Single::nearest(self.active_params_m() as nat, 1).div_spec(Single::nearest(1000, 1))
    }
}

impl CatalogData {
    /// The shape every parsed catalog has.
    pub open spec fn wf(self) -> bool {
        &&& self.records.len() == self.count * RECORD_LEN
        &&& self.measurements.len() % MEASUREMENT_LEN as nat == 0
        &&& self.calibrations.len() % CALIBRATION_LEN as nat == 0
        &&& self.count <= u32::MAX
    }

    pub open spec fn model(self, index: nat) -> ModelData {
        ModelData {
            record: self.records.subrange(
                (index * RECORD_LEN) as int,
                (index * RECORD_LEN + RECORD_LEN) as int,
            ),
            strings: self.strings,
            index,
        }
    }

    /// The machine and model of a measurement, as one number.
    pub open spec fn measurement_key(self, i: int) -> int {
        le32(self.measurements, i * MEASUREMENT_LEN) * 0x1_0000_0000 + le32(
            self.measurements,
            i * MEASUREMENT_LEN + 4,
        )
    }

    pub open spec fn measurement_at(self, i: int) -> Measurement {
        let at = i * MEASUREMENT_LEN;
        Measurement {
            tps_x10: le16(self.measurements, at + 8),
            ttft_ms: le16(self.measurements, at + 10),
            quant: Quant::at(self.measurements[at + 12] as nat),
            runs: self.measurements[at + 13],
            provider: Provider::at(self.measurements[at + 14]),
        }
    }

    pub open spec fn measurement_total(self) -> nat {
        self.measurements.len() / MEASUREMENT_LEN as nat
    }

    pub open spec fn calibration_key(self, i: int) -> int {
        le32(self.calibrations, i * CALIBRATION_LEN) as int
    }

    pub open spec fn calibration_at(self, i: int) -> (Single, u8) {
        let at = i * CALIBRATION_LEN;
        (
            Single::nearest(le16(self.calibrations, at + 4) as nat, 1).div_spec(
                Single::nearest(1000, 1),
            ),
            self.calibrations[at + 6],
        )
    }

    pub open spec fn calibration_total(self) -> nat {
        self.calibrations.len() / CALIBRATION_LEN as nat
    }

    /// The measurement of a model on a machine.
    pub open spec fn measurement(self, hw_key: u32, model_index: u32) -> Option<Measurement> {
        if hw_key == 0 {
            None
        } else {
            match search(
                |i: int| self.measurement_key(i),
                hw_key * 0x1_0000_0000 + model_index,
                0,
                self.measurement_total() as int,
            ) {
                Some(i) => Some(self.measurement_at(i)),
                None => None,
            }
        }
    }

    /// The correction factor of a machine and how many measurements it is from.
    pub open spec fn calibration(self, hw_key: u32) -> Option<(Single, u8)> {
        if hw_key == 0 {
            None
        } else {
            match search(
                |i: int| self.calibration_key(i),
                hw_key as int,
                0,
                self.calibration_total() as int,
            ) {
                Some(i) => Some(self.calibration_at(i)),
                None => None,
            }
        }
    }

    /// The first model with this very name, or else the first whose name holds
    /// it, in any case.
    pub open spec fn find(self, needle: Seq<u8>) -> Option<nat> {
        match first(|i: nat| self.named(i, needle), 0, self.count) {
            Some(i) => Some(i),
            None => first(|i: nat| self.holds(i, needle), 0, self.count),
        }
    }

    pub open spec fn named(self, i: nat, needle: Seq<u8>) -> bool {
        text::lowered(self.model(i).name()) == text::lowered(needle)
    }

    pub open spec fn holds(self, i: nat, needle: Seq<u8>) -> bool {
        text::occurs(text::lowered(self.model(i).name()), text::lowered(needle))
    }
}

/// The first number from `from` up to `end` that has a property.
pub open spec fn first(p: spec_fn(nat) -> bool, from: nat, end: nat) -> Option<nat>
    decreases end - from,
{
    if from >= end {
        None
    } else if p(from) {
        Some(from)
    } else {
        first(p, from + 1, end)
    }
}

/// Where binary search over `lo..hi` finds a key.
pub open spec fn search(key: spec_fn(int) -> int, needle: int, lo: int, hi: int) -> Option<int>
    decreases hi - lo,
{
    if lo >= hi {
        None
    } else {
        let mid = (lo + hi) / 2;
        if key(mid) < needle {
            search(key, needle, mid + 1, hi)
        } else if key(mid) > needle {
            search(key, needle, lo, mid)
        } else {
            Some(mid)
        }
    }
}

// --- the catalog ------------------------------------------------------------

/// A parsed catalog, borrowing its bytes.
#[derive(Clone, Copy, Debug)]
pub struct Catalog<'a> {
    records: &'a [u8],
    strings: &'a [u8],
    measurements: &'a [u8],
    calibrations: &'a [u8],
    count: u32,
}

impl<'a> View for Catalog<'a> {
    type V = CatalogData;

    closed spec fn view(&self) -> CatalogData {
        CatalogData {
            records: self.records@,
            strings: self.strings@,
            measurements: self.measurements@,
            calibrations: self.calibrations@,
            count: self.count as nat,
        }
    }
}

/// Bind one section, refusing what would read past the bytes. All bounds are
/// tested here, once, so a truncated or corrupt catalog is turned away at the
/// door.
fn section<'a>(data: &'a [u8], offset: usize, count: usize, stride: usize) -> (r: Option<&'a [u8]>)
    requires
        0 < stride <= 32,
    ensures
        match r {
            Some(s) => section_spec(data@, offset as nat, count as nat, stride as nat) == Some(s@),
            None => section_spec(data@, offset as nat, count as nat, stride as nat) is None,
        },
{
    if count == 0 {
        let empty: &'a [u8] = vstd::slice::slice_subrange(data, 0, 0);
        assert(empty@ =~= Seq::empty());
        return Some(empty);
    }
    let size: usize = data.len();
    let len: usize = match count.checked_mul(stride) {
        Some(l) => l,
        None => return None,
    };
    let end: usize = match offset.checked_add(len) {
        Some(e) => e,
        None => return None,
    };
    if end > size {
        return None;
    }
    Some(vstd::slice::slice_subrange(data, offset, end))
}

impl<'a> Catalog<'a> {
    #[verifier::type_invariant]
    closed spec fn inv(self) -> bool {
        self@.wf()
    }

    /// Test the header and bind the sections.
    pub fn parse(data: &'a [u8]) -> (r: Result<Catalog<'a>, CatalogError>)
        ensures
            match r {
                Ok(c) => parse_spec(data@) == Ok::<CatalogData, CatalogError>(c@),
                Err(e) => parse_spec(data@) == Err::<CatalogData, CatalogError>(e),
            },
    {
        if data.len() < HEADER_LEN {
            return Err(CatalogError::TooShort);
        }
        if !text::equal(vstd::slice::slice_subrange(data, 0, 4), magic().as_slice()) {
            return Err(CatalogError::BadMagic);
        }
        let version: u16 = u16le(data, 4);
        if version != FORMAT_VERSION {
            return Err(CatalogError::UnsupportedVersion(version));
        }
        let width: u16 = u16le(data, 6);
        if width as usize != RECORD_LEN {
            return Err(CatalogError::BadRecordSize(width));
        }
        let count: u32 = u32le(data, 8);
        let records: Option<&'a [u8]> = section(
            data,
            u32le(data, 12) as usize,
            count as usize,
            RECORD_LEN,
        );
        let strings: Option<&'a [u8]> = section(
            data,
            u32le(data, 16) as usize,
            u32le(data, 20) as usize,
            1,
        );
        let measurements: Option<&'a [u8]> = section(
            data,
            u32le(data, 24) as usize,
            u32le(data, 28) as usize,
            MEASUREMENT_LEN,
        );
        let calibrations: Option<&'a [u8]> = section(
            data,
            u32le(data, 32) as usize,
            u32le(data, 36) as usize,
            CALIBRATION_LEN,
        );
        match (records, strings, measurements, calibrations) {
            (Some(records), Some(strings), Some(measurements), Some(calibrations)) => Ok(
                Catalog { records, strings, measurements, calibrations, count },
            ),
            _ => Err(CatalogError::Truncated),
        }
    }

    /// How many measurements the catalog holds.
    pub fn measurement_count(&self) -> (r: usize)
        ensures
            r == self@.measurement_total(),
    {
        self.measurements.len() / MEASUREMENT_LEN
    }

    /// How many machines have a correction factor.
    pub fn calibration_count(&self) -> (r: usize)
        ensures
            r == self@.calibration_total(),
    {
        self.calibrations.len() / CALIBRATION_LEN
    }

    /// The measurement of this model on this machine. The section is kept
    /// sorted by machine and model, so this is a binary search.
    pub fn measurement(&self, hw_key: u32, model_index: u32) -> (r: Option<Measurement>)
        ensures
            r == self@.measurement(hw_key, model_index),
    {
        if hw_key == 0 {
            return None;
        }
        let needle: u64 = hw_key as u64 * 0x1_0000_0000 + model_index as u64;
        let mut lo: usize = 0;
        let mut hi: usize = self.measurement_count();
        let size: usize = self.measurements.len();
        let ghost total: int = hi as int;
        let ghost key = |i: int| self@.measurement_key(i);
        while lo < hi
            invariant
                hi <= total,
                total * 16 <= size == self.measurements@.len(),
                self@.measurements == self.measurements@,
                key == (|i: int| self@.measurement_key(i)),
                total == self@.measurement_total(),
                hw_key != 0,
                needle == hw_key * 0x1_0000_0000 + model_index,
                search(key, needle as int, lo as int, hi as int) == search(
                    key,
                    needle as int,
                    0,
                    total,
                ),
            decreases hi - lo,
        {
            let mid: usize = lo + (hi - lo) / 2;
            let at: usize = mid * MEASUREMENT_LEN;
            let found: u64 = u32le(self.measurements, at) as u64 * 0x1_0000_0000 + u32le(
                self.measurements,
                at + 4,
            ) as u64;
            assert(found == key(mid as int));
            if found < needle {
                lo = mid + 1;
            } else if found > needle {
                hi = mid;
            } else {
                return Some(
                    Measurement {
                        tps_x10: u16le(self.measurements, at + 8),
                        ttft_ms: u16le(self.measurements, at + 10),
                        quant: Quant::from_u8(self.measurements[at + 12]),
                        runs: self.measurements[at + 13],
                        provider: Provider::from_u8(self.measurements[at + 14]),
                    },
                );
            }
        }
        None
    }

    /// The correction factor of this machine, if anything was ever measured on
    /// it often enough, and how many measurements it comes from. A formula that
    /// ran optimistic on every model measured is taken to do so on the others.
    pub fn calibration(&self, hw_key: u32) -> (r: Option<(Single, u8)>)
        ensures
            r == self@.calibration(hw_key),
    {
        if hw_key == 0 {
            return None;
        }
        let mut lo: usize = 0;
        let mut hi: usize = self.calibration_count();
        let size: usize = self.calibrations.len();
        let ghost total: int = hi as int;
        let ghost key = |i: int| self@.calibration_key(i);
        while lo < hi
            invariant
                hi <= total,
                total * 8 <= size == self.calibrations@.len(),
                self@.calibrations == self.calibrations@,
                key == (|i: int| self@.calibration_key(i)),
                total == self@.calibration_total(),
                hw_key != 0,
                search(key, hw_key as int, lo as int, hi as int) == search(
                    key,
                    hw_key as int,
                    0,
                    total,
                ),
            decreases hi - lo,
        {
            let mid: usize = lo + (hi - lo) / 2;
            let at: usize = mid * CALIBRATION_LEN;
            let found: u32 = u32le(self.calibrations, at);
            assert(found == key(mid as int));
            if found < hw_key {
                lo = mid + 1;
            } else if found > hw_key {
                hi = mid;
            } else {
                let factor: Single = Single::from_u32(
                    u16le(self.calibrations, at + 4) as u32,
                ).over(Single::from_u32(1000));
                return Some((factor, self.calibrations[at + 6]));
            }
        }
        None
    }

    /// How many models the catalog holds.
    pub fn len(&self) -> (r: usize)
        ensures
            r == self@.count,
    {
        proof {
            use_type_invariant(self);
        }
        self.count as usize
    }

    pub fn is_empty(&self) -> (r: bool)
        ensures
            r == (self@.count == 0),
    {
        self.count == 0
    }

    /// The model at a position.
    pub fn get(&self, index: usize) -> (r: Option<Model<'a>>)
        ensures
            r is Some <==> index < self@.count,
            r matches Some(m) ==> m@ == self@.model(index as nat),
    {
        proof {
            use_type_invariant(self);
        }
        if index >= self.count as usize {
            return None;
        }
        let size: usize = self.records.len();
        assert(index * 32 + 32 <= size) by (nonlinear_arith)
            requires
                size == self.count * 32,
                index < self.count,
        ;
        let at: usize = index * RECORD_LEN;
        Some(
            Model {
                raw: vstd::slice::slice_subrange(self.records, at, at + RECORD_LEN),
                strings: self.strings,
                index: index as u32,
            },
        )
    }

    /// Walk the models in order.
    pub fn iter(&self) -> (r: ModelIter<'a>)
        ensures
            r@ == (self@, 0nat),
    {
        ModelIter { catalog: *self, next: 0 }
    }

    /// Search the names for a text in any case. A model of this very name is
    /// preferred to one whose name merely holds it, wherever they stand.
    pub fn find(&self, needle: &str) -> (r: Option<Model<'a>>)
        ensures
            match r {
                Some(m) => self@.find(text::bytes(needle)) == Some(m@.index) && m@ == self@.model(
                    m@.index,
                ),
                None => self@.find(text::bytes(needle)) is None,
            },
    {
        self.find_bytes(needle.as_bytes())
    }

    pub fn find_bytes(&self, needle: &[u8]) -> (r: Option<Model<'a>>)
        ensures
            match r {
                Some(m) => self@.find(needle@) == Some(m@.index) && m@ == self@.model(m@.index),
                None => self@.find(needle@) is None,
            },
    {
        let ghost named = |i: nat| self@.named(i, needle@);
        let ghost holds = |i: nat| self@.holds(i, needle@);
        let mut partial: Option<Model<'a>> = None;
        let n: usize = self.len();
        let mut i: usize = 0;
        while i < n
            invariant
                i <= n,
                n == self@.count,
                named == (|i: nat| self@.named(i, needle@)),
                holds == (|i: nat| self@.holds(i, needle@)),
                first(named, 0, n as nat) == first(named, i as nat, n as nat),
                match partial {
                    Some(m) => first(holds, 0, n as nat) == Some(m@.index) && m@ == self@.model(
                        m@.index,
                    ),
                    None => first(holds, 0, n as nat) == first(holds, i as nat, n as nat),
                },
            decreases n - i,
        {
            if let Some(model) = self.get(i) {
                let name: &[u8] = model.name().as_bytes();
                if text::equal_ignoring_case(name, needle) {
                    assert(named(i as nat));
                    return Some(model);
                }
                assert(!named(i as nat));
                if partial.is_none() {
                    if text::contains_ignoring_case(name, needle) {
                        assert(holds(i as nat));
                        partial = Some(model);
                    } else {
                        assert(!holds(i as nat));
                    }
                }
            }
            i = i + 1;
        }
        partial
    }
}

/// A walk over the models of a catalog.
pub struct ModelIter<'a> {
    catalog: Catalog<'a>,
    next: usize,
}

impl<'a> View for ModelIter<'a> {
    type V = (CatalogData, nat);

    closed spec fn view(&self) -> (CatalogData, nat) {
        (self.catalog@, self.next as nat)
    }
}

impl<'a> ModelIter<'a> {
    #[verifier::type_invariant]
    closed spec fn inv(self) -> bool {
        self.next <= self.catalog@.count <= usize::MAX
    }

    /// The next model, if any is left.
    pub fn next(&mut self) -> (r: Option<Model<'a>>)
        ensures
            r is Some <==> old(self)@.1 < old(self)@.0.count,
            r matches Some(m) ==> m@ == old(self)@.0.model(old(self)@.1),
            final(self)@ == (
                old(self)@.0,
                old(self)@.1 + if r is Some {
                    1nat
                } else {
                    0nat
                },
            ),
    {
        let item: Option<Model<'a>> = self.catalog.get(self.next);
        if item.is_some() {
            self.next = self.next + 1;
        }
        item
    }

    /// How many models are left.
    pub fn remaining(&self) -> (r: usize)
        ensures
            r == if self@.1 < self@.0.count {
                self@.0.count - self@.1
            } else {
                0
            },
    {
        self.catalog.len().saturating_sub(self.next)
    }
}

// --- one model --------------------------------------------------------------

/// One entry of a catalog, decoded on access.
#[derive(Clone, Copy, Debug)]
pub struct Model<'a> {
    raw: &'a [u8],
    strings: &'a [u8],
    index: u32,
}

impl<'a> View for Model<'a> {
    type V = ModelData;

    closed spec fn view(&self) -> ModelData {
        ModelData { record: self.raw@, strings: self.strings@, index: self.index as nat }
    }
}

impl<'a> Model<'a> {
    #[verifier::type_invariant]
    closed spec fn inv(self) -> bool {
        self.raw@.len() == RECORD_LEN
    }

    /// The position in the catalog, which measurements are keyed by.
    pub fn index(&self) -> (r: u32)
        ensures
            r == self@.index,
    {
        self.index
    }

    pub fn name(&self) -> (r: &'a str)
        ensures
            text::bytes(r) == self@.name(),
    {
        proof {
            use_type_invariant(self);
        }
        read_cstr(self.strings, u32le(self.raw, 0) as usize)
    }

    /// Parameters in millions. Zero means that the catalog did not know.
    pub fn params_m(&self) -> (r: u32)
        ensures
            r == self@.params_m(),
    {
        proof {
            use_type_invariant(self);
        }
        u32le(self.raw, 4)
    }

    /// Parameters read per decoded token: all of them in a dense model, the
    /// router and the active experts in a sparse one.
    pub fn active_params_m(&self) -> (r: u32)
        ensures
            r == self@.active_params_m(),
    {
        proof {
            use_type_invariant(self);
        }
        let active: u32 = u32le(self.raw, 8);
        if active == 0 {
            self.params_m()
        } else {
            active
        }
    }

    /// The native context window in tokens.
    pub fn context_length(&self) -> (r: u32)
        ensures
            r == self@.context_length(),
    {
        proof {
            use_type_invariant(self);
        }
        u32le(self.raw, 12)
    }

    pub fn hidden_size(&self) -> (r: u16)
        ensures
            r == le16(self@.record, 16),
    {
        proof {
            use_type_invariant(self);
        }
        u16le(self.raw, 16)
    }

    pub fn num_layers(&self) -> (r: u16)
        ensures
            r == self@.num_layers(),
    {
        proof {
            use_type_invariant(self);
        }
        u16le(self.raw, 18)
    }

    pub fn num_kv_heads(&self) -> (r: u16)
        ensures
            r == self@.num_kv_heads(),
    {
        proof {
            use_type_invariant(self);
        }
        u16le(self.raw, 20)
    }

    pub fn head_dim(&self) -> (r: u16)
        ensures
            r == self@.head_dim(),
    {
        proof {
            use_type_invariant(self);
        }
        u16le(self.raw, 22)
    }

    /// Vocabulary size in thousands of tokens.
    pub fn vocab_k(&self) -> (r: u16)
        ensures
            r == le16(self@.record, 24),
    {
        proof {
            use_type_invariant(self);
        }
        u16le(self.raw, 24)
    }

    pub fn flags(&self) -> (r: u16)
        ensures
            r == self@.flags(),
    {
        proof {
            use_type_invariant(self);
        }
        u16le(self.raw, 26)
    }

    pub fn has_flag(&self, flag: u16) -> (r: bool)
        ensures
            r == self@.has_flag(flag),
    {
        self.flags() & flag != 0
    }

    pub fn is_moe(&self) -> (r: bool)
        ensures
            r == self@.has_flag(flags::MOE),
    {
        self.has_flag(flags::MOE)
    }

    /// Whether layer and head counts came from the model's configuration, so
    /// that a cache figure is never taken for more than it is.
    pub fn has_arch_metadata(&self) -> (r: bool)
        ensures
            r == self@.has_flag(flags::ARCH_METADATA),
    {
        self.has_flag(flags::ARCH_METADATA)
    }

    /// The formats known to be published: bit `n` stands for the format stored
    /// as `n`.
    pub fn quant_mask(&self) -> (r: u8)
        ensures
            r == self@.record[28],
    {
        proof {
            use_type_invariant(self);
        }
        self.raw[28]
    }

    pub fn supports_quant(&self, q: Quant) -> (r: bool)
        ensures
            r == self@.supports_quant(q),
    {
        let mask: u8 = self.quant_mask();
        let weight: u8 = match q {
            Quant::F16 => 1,
            Quant::Q8_0 => 2,
            Quant::Q6K => 4,
            Quant::Q5KM => 8,
            Quant::Q4KM => 16,
            Quant::Q3KM => 32,
            Quant::Q2K => 64,
        };
        proof {
            vstd::arithmetic::power2::lemma2_to64();
        }
        mask == 0 || (mask / weight) % 2 == 1
    }

    pub fn use_case(&self) -> (r: UseCase)
        ensures
            r == self@.use_case(),
    {
        proof {
            use_type_invariant(self);
        }
        UseCase::from_u8(self.raw[29])
    }

    pub fn family_id(&self) -> (r: u8)
        ensures
            r == self@.record[30],
    {
        proof {
            use_type_invariant(self);
        }
        self.raw[30]
    }

    /// A curated quality prior that shifts the quality score, so that a
    /// well-regarded small model can pass a mediocre larger one.
    pub fn quality_prior(&self) -> (r: u8)
        ensures
            r == self@.quality_prior(),
    {
        proof {
            use_type_invariant(self);
        }
        self.raw[31]
    }

    /// Parameters in billions.
    pub fn params_b(&self) -> (r: Single)
        ensures
            r == self@.params_b(),
    {
        Single::from_u32(self.params_m()).over(Single::from_u32(1000))
    }

    /// Active parameters in billions.
    pub fn active_params_b(&self) -> (r: Single)
        ensures
            r == self@.active_params_b(),
    {
        Single::from_u32(self.active_params_m()).over(Single::from_u32(1000))
    }
}

/// Read a zero-terminated text. A bad offset or bad bytes give an empty name: a
/// corrupt catalog comes to useless output, not to a failure.
fn read_cstr<'a>(strings: &'a [u8], off: usize) -> (r: &'a str)
    ensures
        text::bytes(r) == cstr(strings@, off as int),
{
    if off >= strings.len() {
        return text::nothing();
    }
    let mut end: usize = off;
    while end < strings.len() && strings[end] != 0
        invariant
            off <= end <= strings.len(),
            zero_from(strings@, off as int) == zero_from(strings@, end as int),
        decreases strings.len() - end,
    {
        end = end + 1;
    }
    match text::utf8(vstd::slice::slice_subrange(strings, off, end)) {
        Some(s) => s,
        None => text::nothing(),
    }
}

// --- laws -------------------------------------------------------------------

proof fn lemma_search_finds(key: spec_fn(int) -> int, needle: int, lo: int, hi: int, i: int)
    requires
        lo <= i < hi,
        key(i) == needle,
        forall|a: int, b: int| lo <= a < b < hi ==> #[trigger] key(a) < #[trigger] key(b),
    ensures
        search(key, needle, lo, hi) == Some(i),
    decreases hi - lo,
{
    let mid = (lo + hi) / 2;
    if key(mid) < needle {
        lemma_search_finds(key, needle, mid + 1, hi, i);
    } else if key(mid) > needle {
        lemma_search_finds(key, needle, lo, mid, i);
    }
}

proof fn lemma_search_misses(key: spec_fn(int) -> int, needle: int, lo: int, hi: int)
    requires
        forall|a: int| lo <= a < hi ==> #[trigger] key(a) != needle,
    ensures
        search(key, needle, lo, hi) is None,
    decreases hi - lo,
{
    if lo < hi {
        let mid = (lo + hi) / 2;
        assert(key(mid) != needle);
        lemma_search_misses(key, needle, mid + 1, hi);
        lemma_search_misses(key, needle, lo, mid);
    }
}

impl CatalogData {
    /// Measurements stand in increasing order of machine and model.
    pub open spec fn measurements_sorted(self) -> bool {
        forall|a: int, b: int|
            0 <= a < b < self.measurement_total() ==> #[trigger] self.measurement_key(a)
                < #[trigger] self.measurement_key(b)
    }

    /// Calibrations stand in increasing order of machine.
    pub open spec fn calibrations_sorted(self) -> bool {
        forall|a: int, b: int|
            0 <= a < b < self.calibration_total() ==> #[trigger] self.calibration_key(a)
                < #[trigger] self.calibration_key(b)
    }
}

/// In a sorted section every measurement is found under its own machine and
/// model.
pub proof fn law_every_measurement_is_found(c: CatalogData, hw_key: u32, model_index: u32, i: int)
    requires
        c.measurements_sorted(),
        hw_key != 0,
        0 <= i < c.measurement_total(),
        c.measurement_key(i) == hw_key * 0x1_0000_0000 + model_index,
    ensures
        c.measurement(hw_key, model_index) == Some(c.measurement_at(i)),
{
    let key = |k: int| c.measurement_key(k);
    assert forall|a: int, b: int| 0 <= a < b < c.measurement_total() implies #[trigger] key(a)
        < #[trigger] key(b) by {
        assert(c.measurement_key(a) < c.measurement_key(b));
    }
    lemma_search_finds(
        key,
        hw_key * 0x1_0000_0000 + model_index,
        0,
        c.measurement_total() as int,
        i,
    );
}

/// A pairing that nobody measured finds nothing, and neither does a machine
/// that was never identified.
pub proof fn law_no_measurement_is_invented(c: CatalogData, hw_key: u32, model_index: u32)
    requires
        hw_key == 0 || forall|i: int|
            0 <= i < c.measurement_total() ==> #[trigger] c.measurement_key(i) != hw_key
                * 0x1_0000_0000 + model_index,
    ensures
        c.measurement(hw_key, model_index) is None,
{
    if hw_key != 0 {
        let key = |k: int| c.measurement_key(k);
        lemma_search_misses(
            key,
            hw_key * 0x1_0000_0000 + model_index,
            0,
            c.measurement_total() as int,
        );
    }
}

/// In a sorted section every calibration is found under its own machine.
pub proof fn law_every_calibration_is_found(c: CatalogData, hw_key: u32, i: int)
    requires
        c.calibrations_sorted(),
        hw_key != 0,
        0 <= i < c.calibration_total(),
        c.calibration_key(i) == hw_key,
    ensures
        c.calibration(hw_key) == Some(c.calibration_at(i)),
{
    let key = |k: int| c.calibration_key(k);
    assert forall|a: int, b: int| 0 <= a < b < c.calibration_total() implies #[trigger] key(a)
        < #[trigger] key(b) by {
        assert(c.calibration_key(a) < c.calibration_key(b));
    }
    lemma_search_finds(key, hw_key as int, 0, c.calibration_total() as int, i);
}

/// A machine that nothing was measured on has no correction factor, and neither
/// has one that was never identified.
pub proof fn law_no_calibration_is_invented(c: CatalogData, hw_key: u32)
    requires
        hw_key == 0 || forall|i: int|
            0 <= i < c.calibration_total() ==> #[trigger] c.calibration_key(i) != hw_key,
    ensures
        c.calibration(hw_key) is None,
{
    if hw_key != 0 {
        let key = |k: int| c.calibration_key(k);
        lemma_search_misses(key, hw_key as int, 0, c.calibration_total() as int);
    }
}

/// Whatever the bytes, what is parsed has sections of whole records.
pub proof fn law_parsed_catalogs_are_well_formed(data: Seq<u8>)
    ensures
        parse_spec(data) matches Ok(c) ==> c.wf(),
{
}

/// A name that stands in the catalog is found whatever else holds it: the match
/// is a model of this very name.
pub proof fn law_find_prefers_an_exact_match(c: CatalogData, needle: Seq<u8>, i: nat)
    requires
        i < c.count,
        c.named(i, needle),
    ensures
        c.find(needle) matches Some(k) && k <= i && c.named(k, needle),
{
    lemma_first(|k: nat| c.named(k, needle), 0, c.count, i);
}

proof fn lemma_first(p: spec_fn(nat) -> bool, from: nat, end: nat, i: nat)
    requires
        from <= i < end,
        p(i),
    ensures
        first(p, from, end) matches Some(k) && from <= k <= i && p(k),
    decreases end - from,
{
    if !p(from) {
        lemma_first(p, from + 1, end, i);
    }
}

/// A corrupt name is no name: an offset past the string table, or bytes that are
/// no text, give the empty string.
pub proof fn law_corrupt_names_are_empty(m: ModelData)
    ensures
        le32(m.record, 0) >= m.strings.len() ==> m.name().len() == 0,
        valid_utf8(m.name()),
{
}

} // verus!
