//! Quantization formats and the hierarchy the engine walks.
//!
//! The bits per weight are whole-file rates: the block formats store scales and
//! minima beside the packed values, so a "4-bit" file comes to nearly five bits
//! per weight, and a tight pairing is decided by that difference.

use vstd::prelude::*;

use crate::float::Single;
use crate::text;

pub mod spellings;

verus! {

/// A quantization format, ordered best quality first.
#[derive(Clone, Copy, PartialEq, Eq, Structural, PartialOrd, Ord, Debug)]
pub enum Quant {
    F16,
    Q8_0,
    Q6K,
    Q5KM,
    Q4KM,
    Q3KM,
    Q2K,
}

impl Quant {
    /// The position in the hierarchy, best quality first.
    pub open spec fn rank(self) -> nat {
        match self {
            Quant::F16 => 0,
            Quant::Q8_0 => 1,
            Quant::Q6K => 2,
            Quant::Q5KM => 3,
            Quant::Q4KM => 4,
            Quant::Q3KM => 5,
            Quant::Q2K => 6,
        }
    }

    /// The format at a position in the hierarchy.
    pub open spec fn at(rank: nat) -> Option<Quant> {
        if rank == 0 {
            Some(Quant::F16)
        } else if rank == 1 {
            Some(Quant::Q8_0)
        } else if rank == 2 {
            Some(Quant::Q6K)
        } else if rank == 3 {
            Some(Quant::Q5KM)
        } else if rank == 4 {
            Some(Quant::Q4KM)
        } else if rank == 5 {
            Some(Quant::Q3KM)
        } else if rank == 6 {
            Some(Quant::Q2K)
        } else {
            None
        }
    }

    /// Bits per weight, in hundredths.
    pub open spec fn centibits(self) -> nat {
        match self {
            Quant::F16 => 1600,
            Quant::Q8_0 => 850,
            Quant::Q6K => 656,
            Quant::Q5KM => 567,
            Quant::Q4KM => 483,
            Quant::Q3KM => 391,
            Quant::Q2K => 335,
        }
    }

    pub open spec fn bits_spec(self) -> Single {
        Single::nearest(self.centibits(), 100)
    }

    /// Output quality kept, in thousandths.
    pub open spec fn quality_permille(self) -> nat {
        match self {
            Quant::F16 => 1000,
            Quant::Q8_0 => 998,
            Quant::Q6K => 995,
            Quant::Q5KM => 988,
            Quant::Q4KM => 972,
            Quant::Q3KM => 922,
            Quant::Q2K => 810,
        }
    }

    pub open spec fn quality_spec(self) -> Single {
        Single::nearest(self.quality_permille(), 1000)
    }

    /// Decode speed against `Q4_K_M`, in hundredths.
    pub open spec fn speed_percent(self) -> nat {
        match self {
            Quant::F16 => 52,
            Quant::Q8_0 => 78,
            Quant::Q6K => 90,
            Quant::Q5KM => 96,
            Quant::Q4KM => 100,
            Quant::Q3KM => 104,
            Quant::Q2K => 108,
        }
    }

    pub open spec fn speed_spec(self) -> Single {
        Single::nearest(self.speed_percent(), 100)
    }

    pub open spec fn name_spec(self) -> &'static str {
        match self {
            Quant::F16 => "F16",
            Quant::Q8_0 => "Q8_0",
            Quant::Q6K => "Q6_K",
            Quant::Q5KM => "Q5_K_M",
            Quant::Q4KM => "Q4_K_M",
            Quant::Q3KM => "Q3_K_M",
            Quant::Q2K => "Q2_K",
        }
    }

    /// The spellings of file names and model cards, in any case.
    pub open spec fn parse_spec(s: Seq<u8>) -> Option<Quant> {
        let up = text::uppered(s);
        if up == text::bytes("F16") || up == text::bytes("FP16") || up == text::bytes("BF16")
            || up == text::bytes("F32") {
            Some(Quant::F16)
        } else if up == text::bytes("Q8_0") || up == text::bytes("Q8") {
            Some(Quant::Q8_0)
        } else if up == text::bytes("Q6_K") || up == text::bytes("Q6K") || up == text::bytes(
            "Q6",
        ) {
            Some(Quant::Q6K)
        } else if up == text::bytes("Q5_K_M") || up == text::bytes("Q5_K_S") || up
            == text::bytes("Q5_K") || up == text::bytes("Q5_0") || up == text::bytes("Q5") {
            Some(Quant::Q5KM)
        } else if up == text::bytes("Q4_K_M") || up == text::bytes("Q4_K_S") || up
            == text::bytes("Q4_K") || up == text::bytes("Q4_0") || up == text::bytes("Q4") {
            Some(Quant::Q4KM)
        } else if up == text::bytes("Q3_K_M") || up == text::bytes("Q3_K_S") || up
            == text::bytes("Q3_K_L") || up == text::bytes("Q3_K") || up == text::bytes("Q3") {
            Some(Quant::Q3KM)
        } else if up == text::bytes("Q2_K") || up == text::bytes("Q2K") || up == text::bytes(
            "Q2",
        ) {
            Some(Quant::Q2K)
        } else {
            None
        }
    }

    /// Every format, best quality first: the order in which the engine tries
    /// them.
    pub fn hierarchy() -> (r: [Quant; 7])
        ensures
            forall|i: int| 0 <= i < 7 ==> #[trigger] r@[i].rank() == i,
    {
        [
            Quant::F16,
            Quant::Q8_0,
            Quant::Q6K,
            Quant::Q5KM,
            Quant::Q4KM,
            Quant::Q3KM,
            Quant::Q2K,
        ]
    }

    /// The number a format is stored as: its place in the hierarchy.
    pub fn code(self) -> (r: u8)
        ensures
            r == self.rank(),
    {
        match self {
            Quant::F16 => 0,
            Quant::Q8_0 => 1,
            Quant::Q6K => 2,
            Quant::Q5KM => 3,
            Quant::Q4KM => 4,
            Quant::Q3KM => 5,
            Quant::Q2K => 6,
        }
    }

    /// Effective bits per weight over the whole file.
    pub fn bits_per_weight(self) -> (r: Single)
        ensures
            r == self.bits_spec(),
    {
        let n: u32 = match self {
            Quant::F16 => 1600,
            Quant::Q8_0 => 850,
            Quant::Q6K => 656,
            Quant::Q5KM => 567,
            Quant::Q4KM => 483,
            Quant::Q3KM => 391,
            Quant::Q2K => 335,
        };
        Single::ratio(n, 100)
    }

    pub fn name(self) -> (r: &'static str)
        ensures
            r@ == self.name_spec()@,
    {
        match self {
            Quant::F16 => "F16",
            Quant::Q8_0 => "Q8_0",
            Quant::Q6K => "Q6_K",
            Quant::Q5KM => "Q5_K_M",
            Quant::Q4KM => "Q4_K_M",
            Quant::Q3KM => "Q3_K_M",
            Quant::Q2K => "Q2_K",
        }
    }

    /// The share of full-precision output quality that is kept, as a
    /// multiplier on the quality score. It falls off steeply below four bits.
    pub fn quality_factor(self) -> (r: Single)
        ensures
            r == self.quality_spec(),
    {
        let n: u32 = match self {
            Quant::F16 => 1000,
            Quant::Q8_0 => 998,
            Quant::Q6K => 995,
            Quant::Q5KM => 988,
            Quant::Q4KM => 972,
            Quant::Q3KM => 922,
            Quant::Q2K => 810,
        };
        Single::ratio(n, 1000)
    }

    /// Decode speed against `Q4_K_M` at equal model size. Fewer bits move fewer
    /// bytes but cost more unpacking, so this is not proportional to the width.
    pub fn speed_multiplier(self) -> (r: Single)
        ensures
            r == self.speed_spec(),
    {
        let n: u32 = match self {
            Quant::F16 => 52,
            Quant::Q8_0 => 78,
            Quant::Q6K => 90,
            Quant::Q5KM => 96,
            Quant::Q4KM => 100,
            Quant::Q3KM => 104,
            Quant::Q2K => 108,
        };
        Single::ratio(n, 100)
    }

    /// The format stored as `v`.
    pub fn from_u8(v: u8) -> (r: Option<Quant>)
        ensures
            r == Quant::at(v as nat),
    {
        match v {
            0 => Some(Quant::F16),
            1 => Some(Quant::Q8_0),
            2 => Some(Quant::Q6K),
            3 => Some(Quant::Q5KM),
            4 => Some(Quant::Q4KM),
            5 => Some(Quant::Q3KM),
            6 => Some(Quant::Q2K),
            _ => None,
        }
    }

    /// Read the spellings that appear in file names and model cards.
    pub fn parse(s: &str) -> (r: Option<Quant>)
        ensures
            r == Quant::parse_spec(text::bytes(s)),
    {
        Quant::parse_bytes(s.as_bytes())
    }

    pub fn parse_bytes(s: &[u8]) -> (r: Option<Quant>)
        ensures
            r == Quant::parse_spec(s@),
    {
        if spelled(s, "F16") || spelled(s, "FP16") || spelled(s, "BF16") || spelled(s, "F32") {
            Some(Quant::F16)
        } else if spelled(s, "Q8_0") || spelled(s, "Q8") {
            Some(Quant::Q8_0)
        } else if spelled(s, "Q6_K") || spelled(s, "Q6K") || spelled(s, "Q6") {
            Some(Quant::Q6K)
        } else if spelled(s, "Q5_K_M") || spelled(s, "Q5_K_S") || spelled(s, "Q5_K") || spelled(
            s,
            "Q5_0",
        ) || spelled(s, "Q5") {
            Some(Quant::Q5KM)
        } else if spelled(s, "Q4_K_M") || spelled(s, "Q4_K_S") || spelled(s, "Q4_K") || spelled(
            s,
            "Q4_0",
        ) || spelled(s, "Q4") {
            Some(Quant::Q4KM)
        } else if spelled(s, "Q3_K_M") || spelled(s, "Q3_K_S") || spelled(s, "Q3_K_L") || spelled(
            s,
            "Q3_K",
        ) || spelled(s, "Q3") {
            Some(Quant::Q3KM)
        } else if spelled(s, "Q2_K") || spelled(s, "Q2K") || spelled(s, "Q2") {
            Some(Quant::Q2K)
        } else {
            None
        }
    }
}

/// Whether a text in upper case is a word.
fn spelled(s: &[u8], word: &str) -> (r: bool)
    ensures
        r == (text::uppered(s@) == text::bytes(word)),
{
    text::equal_in_upper(s, word.as_bytes())
}

/// The element width of the key-value cache. Halving the cache is often what
/// makes a long-context pairing usable, so it is a choice of its own.
#[derive(Clone, Copy, PartialEq, Eq, Structural, Debug)]
pub enum KvQuant {
    F16,
    Q8,
    Q4,
}

impl KvQuant {
    /// Twice the bytes of an element.
    pub open spec fn half_bytes(self) -> nat {
        match self {
            KvQuant::F16 => 4,
            KvQuant::Q8 => 2,
            KvQuant::Q4 => 1,
        }
    }

    pub open spec fn bytes_spec(self) -> Single {
        Single::nearest(self.half_bytes(), 2)
    }

    pub open spec fn name_spec(self) -> &'static str {
        match self {
            KvQuant::F16 => "f16",
            KvQuant::Q8 => "q8_0",
            KvQuant::Q4 => "q4_0",
        }
    }

    pub fn bytes_per_element(self) -> (r: Single)
        ensures
            r == self.bytes_spec(),
    {
        let n: u32 = match self {
            KvQuant::F16 => 4,
            KvQuant::Q8 => 2,
            KvQuant::Q4 => 1,
        };
        Single::ratio(n, 2)
    }

    pub fn name(self) -> (r: &'static str)
        ensures
            r@ == self.name_spec()@,
    {
        match self {
            KvQuant::F16 => "f16",
            KvQuant::Q8 => "q8_0",
            KvQuant::Q4 => "q4_0",
        }
    }
}

/// A stored format reads back as itself.
pub proof fn law_quant_codes_round_trip(q: Quant)
    ensures
        Quant::at(q.rank()) == Some(q),
{
}

/// A format's own name is one of its spellings.
pub proof fn law_quant_names_parse(q: Quant)
    ensures
        Quant::parse_spec(text::bytes(q.name_spec())) == Some(q),
{
    reveal_strlit("F16");
    reveal_strlit("FP16");
    reveal_strlit("BF16");
    reveal_strlit("F32");
    reveal_strlit("Q8_0");
    reveal_strlit("Q8");
    reveal_strlit("Q6_K");
    reveal_strlit("Q6K");
    reveal_strlit("Q6");
    reveal_strlit("Q5_K_M");
    reveal_strlit("Q5_K_S");
    reveal_strlit("Q5_K");
    reveal_strlit("Q5_0");
    reveal_strlit("Q5");
    reveal_strlit("Q4_K_M");
    reveal_strlit("Q4_K_S");
    reveal_strlit("Q4_K");
    reveal_strlit("Q4_0");
    reveal_strlit("Q4");
    reveal_strlit("Q3_K_M");
    reveal_strlit("Q3_K_S");
    reveal_strlit("Q3_K_L");
    reveal_strlit("Q3_K");
    reveal_strlit("Q3");
    reveal_strlit("Q2_K");
    reveal_strlit("Q2K");
    reveal_strlit("Q2");
    let s = text::bytes(q.name_spec());
    text::lemma_ascii("F16");
    text::lemma_ascii("FP16");
    text::lemma_ascii("BF16");
    text::lemma_ascii("F32");
    text::lemma_ascii("Q8_0");
    text::lemma_ascii("Q8");
    text::lemma_ascii("Q6_K");
    text::lemma_ascii("Q6K");
    text::lemma_ascii("Q6");
    text::lemma_ascii("Q5_K_M");
    text::lemma_ascii("Q5_K_S");
    text::lemma_ascii("Q5_K");
    text::lemma_ascii("Q5_0");
    text::lemma_ascii("Q5");
    text::lemma_ascii("Q4_K_M");
    text::lemma_ascii("Q4_K_S");
    text::lemma_ascii("Q4_K");
    text::lemma_ascii("Q4_0");
    text::lemma_ascii("Q4");
    text::lemma_ascii("Q3_K_M");
    text::lemma_ascii("Q3_K_S");
    text::lemma_ascii("Q3_K_L");
    text::lemma_ascii("Q3_K");
    text::lemma_ascii("Q3");
    text::lemma_ascii("Q2_K");
    text::lemma_ascii("Q2K");
    text::lemma_ascii("Q2");
    assert(text::uppered(s) =~= s);
    assert(s[0] == q.name_spec()@[0] as u8);
    if s.len() > 1 {
        assert(s[1] == q.name_spec()@[1] as u8);
    }
}

} // verus!
