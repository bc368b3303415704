//! What a submission says.

use vstd::arithmetic::power2::*;
use vstd::prelude::*;
use vstd::utf8::*;

use crate::catalog;
use crate::catalog::{CatalogData, ModelData};
use crate::community;
use crate::community::gather;
use crate::community::key;
use crate::community::{MachineData, SubmittedHardware, SubmittedResult};
use crate::fit;
use crate::fit::Opts;
use crate::float;
use crate::float::{Double, Single};
use crate::hardware;
use crate::hardware::Hardware;
use crate::quant::{KvQuant, Quant};
use crate::rounding;
use crate::speed;
use crate::text;

verus! {

/// A result counts where it states a throughput above zero and the catalog has a
/// model with its key: the first such model, on the machine of the submission, in
/// the format that the name tells. A run that is not counted counts as one.
pub proof fn law_what_a_result_says(c: CatalogData, m: MachineData, r: SubmittedResult)
    ensures
        ({
            let name = encode_utf8(r.model@);
            let states = r.avg_tps matches Some(v) && Double::nearest(0, 1).below(v);
            let known = exists|i: nat|
                i < c.count && key::normalized((#[trigger] c.model(i)).name()) == key::normalized(
                    name,
                );
            let sample = gather::sample_spec(c, m, r);
            &&& sample is Some <==> states && known
            &&& gather::missed(c, r) is Some <==> states && !known
            &&& gather::missed(c, r) matches Some(k) ==> k == key::normalized(name)
            &&& sample matches Some(s) ==> {
                &&& s.hw_key == m.key
                &&& r.avg_tps == Some(s.tps)
                &&& r.avg_ttft_ms matches Some(t) ==> s.ttft == t
                &&& r.avg_ttft_ms is None ==> s.ttft == Double::nearest(0, 1)
                &&& r.num_runs matches Some(n) ==> s.runs == n
                &&& r.num_runs is None ==> s.runs == 1
                &&& s.quant == community::quant_spec(name).rank()
                &&& s.provider == community::provider_spec(community::bytes_of(r.provider))
                &&& c.count <= u32::MAX ==> {
                    &&& s.model_index < c.count
                    &&& key::normalized(c.model(s.model_index as nat).name()) == key::normalized(
                        name,
                    )
                    &&& forall|j: nat|
                        j < s.model_index ==> key::normalized((#[trigger] c.model(j)).name())
                            != key::normalized(name)
                }
            }
        }),
{
    lemma_found(c, key::normalized(encode_utf8(r.model@)), 0);
}

/// The first model with a key.
proof fn lemma_found(c: CatalogData, k: Seq<u8>, from: nat)
    ensures
        match gather::found_from(c, k, from) {
            Some(i) => from <= i < c.count && key::normalized(c.model(i).name()) == k && forall|
                j: nat,
            |
                from <= j < i ==> key::normalized((#[trigger] c.model(j)).name()) != k,
            None => forall|j: nat|
                from <= j < c.count ==> key::normalized((#[trigger] c.model(j)).name()) != k,
        },
    decreases c.count - from,
{
    if from < c.count && key::normalized(c.model(from).name()) != k {
        lemma_found(c, k, from + 1);
    }
}

/// A throughput is held against the formula's for a context of 4096 under the
/// default options, and is credible from a twentieth of it to five times it.
pub proof fn law_what_is_credible(c: CatalogData, m: MachineData, r: SubmittedResult)
    requires
        c.count <= u32::MAX,
    ensures
        gather::sample_spec(c, m, r) matches Some(s) ==> ({
            let model: ModelData = c.model(s.model_index as nat);
            let quant = community::quant_spec(encode_utf8(r.model@));
            let opts = Opts {
                context: Some(4096u32),
                kv_quant: KvQuant::F16,
                efficiency: Single::nearest(55, 100),
                allow_moe_offload: true,
                max_quant: Quant::Q8_0,
                use_case: None,
            };
            let at = fit::fit_at(model, m.hardware, opts, quant, 4096);
            let tenths = speed::estimate_spec(
                model,
                m.hardware,
                at,
                Single::nearest(55, 100),
            ).decode_tps_x10;
            let said = Double::nearest(tenths as nat, 1).div_spec(Double::nearest(10, 1));
            let ratio = s.tps.div_spec(said);
            let credible = Double::nearest(0, 1).below(said) && Double::nearest(5, 100).upto(ratio)
                && ratio.upto(Double::nearest(5, 1));
            &&& credible ==> s.ratio == Some(ratio)
            &&& !credible ==> s.ratio is None
        }),
{
    lemma_found(c, key::normalized(encode_utf8(r.model@)), 0);
}

/// A submitted machine counts where it has a name and memory. It is known by its
/// name without white space around it, has its memory in MiB, is unified where it
/// says so or is of that class, and has the bandwidth and the throughput that the
/// table of accelerators gives its name. Two GiB are left to the system.
pub proof fn law_what_a_submitted_machine_is(h: SubmittedHardware)
    ensures
        ({
            let name = match h.hardware_name {
                Some(n) => text::trimmed(encode_utf8(n@)),
                None => Seq::empty(),
            };
            let ram = community::megabytes(h.ram_gb);
            let classed = h.hw_class matches Some(t) && encode_utf8(t@) == encode_utf8(
                "UNIFIED"@,
            );
            &&& community::machine_spec(h) is Some <==> name.len() > 0 && ram > 0
            &&& community::machine_spec(h) matches Some(m) ==> {
                let hw: Hardware = m.hardware;
                &&& m.name == name
                &&& m.key == catalog::hw_key_spec(name)
                &&& hw.ram_mb == ram
                &&& hw.vram_mb == community::megabytes(h.vram_gb)
                &&& hw.unified <==> h.unified_memory == Some(true) || classed
                &&& hw.os_reserve_mb == 2048
                &&& hw.ram_bandwidth_gbps == 0
                &&& hw.hw_key == 0
                &&& hw.backend == community::backend_spec(name, hw.unified)
                &&& hardware::gpu_answer(name) matches Some(k) ==> hw.gpu_bandwidth_gbps == k.0
                    && hw.tflops_fp16_x10 == k.1
                &&& hardware::gpu_answer(name) is None ==> hw.gpu_bandwidth_gbps == 0
                    && hw.tflops_fp16_x10 == 0
            }
        }),
{
}

/// Gigabytes are 1024 megabytes each, cut to a whole number. (The number of
/// gigabytes is in units of `2^-1074`.)
pub proof fn law_a_gigabyte_is_1024_megabytes(gb: Double)
    requires
        !gb.neg(),
        gb.ord() < 0x7f40_0000_0000_0000,
    ensures
        ({
            let x = rounding::magnitude(float::double(), gb.ord());
            let n = community::megabytes(Some(gb));
            let u = pow2(1074);
            &&& n * u <= 1024 * x
            &&& n < u32::MAX ==> 1024 * x < (n + 1) * u
        }),
        community::megabytes(None) == 0,
{
    let f = float::double();
    let x = rounding::magnitude(f, gb.ord());
    let u = pow2(1074);
    lemma_pow2_pos(1074);
    lemma_kilo();
    float::lemma_doubled(gb, 10);
    lemma2_to64();
    let y = gb.mul_spec(Double::nearest(1024, 1));
    let mag = 1024 * x;
    reveal(Double::whole);
    rounding::lemma_parts(mag, u);
    let q = mag / u;
    assert((q + 1) * u == q * u + u) by (nonlinear_arith);
    assert(u32::MAX <= q ==> u32::MAX * u <= q * u) by (nonlinear_arith);
}

proof fn lemma_kilo()
    ensures
        pow2(10) == 1024,
{
    lemma2_to64();
}

} // verus!
