//! Where everything of a catalog lies, and what makes a machine's key.

use vstd::prelude::*;

use crate::catalog;
use crate::catalog::{CatalogData, CatalogError, Provider};
use crate::float::about;
use crate::float::Single;
use crate::quant::Quant;

verus! {

/// What is a catalog and what is not, by its first 48 bytes: the letters `OCB1`,
/// the version, which is 2, the width of a record, which is 32, the number of
/// records, and where the four sections begin and how much is in them, the lowest
/// byte of a number first. Records are 32 bytes, measurements 16 and calibrations
/// 8. Every section that is not empty must lie inside the bytes.
pub proof fn law_what_is_a_catalog(data: Seq<u8>)
    ensures
        ({
            let two = |at: int| data[at] + 256 * data[at + 1];
            let four = |at: int| two(at) + 65_536 * two(at + 2);
            let inside = |at: int, n: int, width: int| n == 0 || at + n * width <= data.len();
            let magic = data[0] == 79 && data[1] == 67 && data[2] == 66 && data[3] == 49;
            let complete = inside(four(12), four(8), 32) && inside(four(16), four(20), 1)
                && inside(four(24), four(28), 16) && inside(four(32), four(36), 8);
            let read = catalog::parse_spec(data);
            &&& data.len() < 48 ==> read == Err::<CatalogData, _>(CatalogError::TooShort)
            &&& data.len() >= 48 && !magic ==> read == Err::<CatalogData, _>(
                CatalogError::BadMagic,
            )
            &&& data.len() >= 48 && magic && two(4) != 2 ==> read == Err::<CatalogData, _>(
                CatalogError::UnsupportedVersion(two(4) as u16),
            )
            &&& data.len() >= 48 && magic && two(4) == 2 && two(6) != 32 ==> read == Err::<
                CatalogData,
                _,
            >(CatalogError::BadRecordSize(two(6) as u16))
            &&& data.len() >= 48 && magic && two(4) == 2 && two(6) == 32 && !complete ==> read
                == Err::<CatalogData, _>(CatalogError::Truncated)
            &&& data.len() >= 48 && magic && two(4) == 2 && two(6) == 32 && complete ==> read is Ok
        }),
{
    if data.len() >= 48 {
        assert(data.subrange(0, 4) =~= seq![data[0], data[1], data[2], data[3]]);
        let m = catalog::magic_spec();
        assert(m =~= seq![79u8, 67u8, 66u8, 49u8]);
        let h = data.subrange(0, 4);
        assert(h[0] == data[0] && h[1] == data[1] && h[2] == data[2] && h[3] == data[3]);
        if h == m {
            assert(data[0] == 79 && data[1] == 67 && data[2] == 66 && data[3] == 49);
        }
    }
}

/// What a catalog holds is what its sections say: model `i` is the `i`-th record,
/// measurement and calibration `i` the `i`-th of theirs.
pub proof fn law_where_the_sections_lie(data: Seq<u8>, i: int)
    requires
        catalog::parse_spec(data) is Ok,
        0 <= i,
    ensures
        ({
            let two = |at: int| data[at] + 256 * data[at + 1];
            let four = |at: int| two(at) + 65_536 * two(at + 2);
            let c = catalog::parse_spec(data)->Ok_0;
            &&& c.count == four(8)
            &&& c.measurement_total() == four(28)
            &&& c.calibration_total() == four(36)
            &&& c.strings == if four(20) == 0 {
                Seq::empty()
            } else {
                data.subrange(four(16), four(16) + four(20))
            }
            &&& i < four(8) ==> c.model(i as nat).record == data.subrange(
                four(12) + 32 * i,
                four(12) + 32 * i + 32,
            ) && c.model(i as nat).strings == c.strings && c.model(i as nat).index == i
            &&& i < four(28) ==> {
                let at = four(24) + 16 * i;
                let m = c.measurement_at(i);
                &&& c.measurement_key(i) == four(at) * 0x1_0000_0000 + four(at + 4)
                &&& m.tps_x10 == two(at + 8)
                &&& m.ttft_ms == two(at + 10)
                &&& m.runs == data[at + 13]
                &&& m.quant == match data[at + 12] {
                    0 => Some(Quant::F16),
                    1 => Some(Quant::Q8_0),
                    2 => Some(Quant::Q6K),
                    3 => Some(Quant::Q5KM),
                    4 => Some(Quant::Q4KM),
                    5 => Some(Quant::Q3KM),
                    6 => Some(Quant::Q2K),
                    _ => None,
                }
                &&& m.provider == match data[at + 14] {
                    1 => Provider::LlamaCpp,
                    2 => Provider::Ollama,
                    3 => Provider::Mlx,
                    4 => Provider::Vllm,
                    _ => Provider::Unknown,
                }
            }
            &&& i < four(36) ==> {
                let at = four(32) + 8 * i;
                &&& c.calibration_key(i) == four(at)
                &&& about::about(c.calibration_at(i).0, two(at + 4), 1000, 4)
                &&& c.calibration_at(i).1 == data[at + 6]
            }
        }),
{
    let c = catalog::parse_spec(data)->Ok_0;
    let (ro, mo, co) = (
        catalog::le32(data, 12) as int,
        catalog::le32(data, 24) as int,
        catalog::le32(data, 32) as int,
    );
    if i < catalog::le32(data, 8) {
        let n = catalog::le32(data, 8) as int;
        assert(c.records == data.subrange(ro, ro + n * 32));
        assert(c.model(i as nat).record =~= data.subrange(ro + 32 * i, ro + 32 * i + 32));
    }
    if i < catalog::le32(data, 28) {
        let n = catalog::le32(data, 28) as int;
        let at = mo + 16 * i;
        assert(c.measurements == data.subrange(mo, mo + n * 16));
        assert forall|k: int| 0 <= k < 16 implies #[trigger] c.measurements[i * 16 + k] == data[at
            + k] by {}
        assert(c.measurements[i * 16 + 0] == data[at + 0]);
    }
    if i < catalog::le32(data, 36) {
        let n = catalog::le32(data, 36) as int;
        let at = co + 8 * i;
        assert(c.calibrations == data.subrange(co, co + n * 8));
        let f = catalog::le16(c.calibrations, i * 8 + 4) as nat;
        about::lemma_exact(f);
        about::lemma_exact(1000);
        about::lemma_wide(f as int, 1000);
        let (a, b) = (Single::nearest(f, 1), Single::nearest(1000, 1));
        about::lemma_over(a, f as int, 1, 0, b, 1000, 1, 0);
    }
}

/// A machine's key goes by the letters and digits of its name: each of them
/// counts, in lower case, and nothing else does. They are hashed by FNV-1a.
pub proof fn law_what_makes_a_key(name: Seq<u8>, b: u8)
    ensures
        ({
            let id = catalog::identity(name);
            let next = catalog::identity(name.push(b));
            &&& 97 <= b <= 122 || 48 <= b <= 57 ==> next == id.push(b)
            &&& 65 <= b <= 90 ==> next == id.push((b + 32) as u8)
            &&& !(97 <= b <= 122 || 48 <= b <= 57 || 65 <= b <= 90) ==> next == id
            &&& catalog::fnv1a(Seq::<u8>::empty()) == 2_166_136_261u32
            &&& catalog::fnv1a(id.push(b)) == ((catalog::fnv1a(id) ^ (b as u32)) * 16_777_619)
                % 4_294_967_296
            &&& catalog::fnv1a(id) != 0 ==> catalog::hw_key_spec(name) == catalog::fnv1a(id)
            &&& catalog::fnv1a(id) == 0 ==> catalog::hw_key_spec(name) == 1
        }),
{
    let id = catalog::identity(name);
    assert(name.push(b).drop_last() =~= name);
    assert(id.push(b).drop_last() =~= id);
}

} // verus!
