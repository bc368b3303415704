//! From submissions to measurements and calibration factors.

use vstd::prelude::*;
use vstd::utf8::*;

use crate::catalog;
use crate::catalog::{Catalog, CatalogData, Model, ModelData};
use crate::community;
use crate::community::key;
use crate::community::{
    machine_from, normalize_model, provider_code, quant_from_name, Machine, MachineData, Submission,
    SubmittedResult,
};
use crate::fit;
use crate::fit::{evaluate_at, Fit, Opts};
use crate::float::Double;
use crate::hardware::Hardware;
use crate::pack;
use crate::pack::{PackedMeasurement, SourceModel};
use crate::quant::Quant;
use crate::sort;
use crate::sort::Ranked;
use crate::speed;
use crate::speed::{estimate, Speed};
use crate::text;

verus! {

/// One result that a catalog model could be found for.
#[derive(Clone, Copy)]
pub struct Sample {
    pub hw_key: u32,
    pub model_index: u32,
    pub tps: Double,
    pub ttft: Double,
    pub runs: u32,
    pub quant: u8,
    pub provider: u8,
    /// What was measured against what the formula says, where that is credible.
    pub ratio: Option<Double>,
}

impl Ranked for Sample {
    /// Slower first.
    open spec fn precedes(self, other: Sample) -> bool {
        self.tps.rank() < other.tps.rank()
    }

    proof fn order(a: Sample, b: Sample, c: Sample) {
    }

    fn goes_before(&self, other: &Sample) -> (r: bool) {
        self.tps.ranks_below(other.tps)
    }
}

impl Ranked for Double {
    open spec fn precedes(self, other: Double) -> bool {
        self.rank() < other.rank()
    }

    proof fn order(a: Double, b: Double, c: Double) {
    }

    fn goes_before(&self, other: &Double) -> (r: bool) {
        self.ranks_below(*other)
    }
}

impl Ranked for PackedMeasurement {
    /// By machine and then by model.
    open spec fn precedes(self, other: PackedMeasurement) -> bool {
        pack::key_of(self) < pack::key_of(other)
    }

    proof fn order(a: PackedMeasurement, b: PackedMeasurement, c: PackedMeasurement) {
    }

    fn goes_before(&self, other: &PackedMeasurement) -> (r: bool) {
        self.hw_key < other.hw_key || (self.hw_key == other.hw_key && self.model_index
            < other.model_index)
    }
}

/// A correction factor of a machine in thousandths, and how many results it
/// rests on.
pub type Factor = (u32, u16, u8);

impl Ranked for (u32, u16, u8) {
    /// By machine.
    open spec fn precedes(self, other: (u32, u16, u8)) -> bool {
        self.0 < other.0
    }

    proof fn order(a: (u32, u16, u8), b: (u32, u16, u8), c: (u32, u16, u8)) {
    }

    fn goes_before(&self, other: &(u32, u16, u8)) -> (r: bool) {
        self.0 < other.0
    }
}

impl Ranked for (String, usize) {
    /// Most often seen first.
    open spec fn precedes(self, other: (String, usize)) -> bool {
        self.1 > other.1
    }

    proof fn order(a: (String, usize), b: (String, usize), c: (String, usize)) {
    }

    fn goes_before(&self, other: &(String, usize)) -> (r: bool) {
        self.1 > other.1
    }
}

// --- one result -------------------------------------------------------------

pub open spec fn zero() -> Double {
    Double::nearest(0, 1)
}

/// The throughput of a result, where it states one.
pub open spec fn stated(r: SubmittedResult) -> Option<Double> {
    match r.avg_tps {
        Some(v) => if zero().below(v) {
            Some(v)
        } else {
            None
        },
        None => None,
    }
}

pub open spec fn key_spec(r: SubmittedResult) -> Seq<u8> {
    key::normalized(encode_utf8(r.model@))
}

/// The first model of a catalog at or after `from` with a key.
pub open spec fn found_from(c: CatalogData, k: Seq<u8>, from: nat) -> Option<nat>
    decreases c.count - from,
{
    if from >= c.count {
        None
    } else if key::normalized(c.model(from).name()) == k {
        Some(from)
    } else {
        found_from(c, k, from + 1)
    }
}

/// The first model of a catalog with a key. Models are packed most downloaded
/// first, so that one is the canonical one.
pub open spec fn found(c: CatalogData, k: Seq<u8>) -> Option<nat> {
    found_from(c, k, 0)
}

/// What the formula says of a model on a machine. Benchmarks use short prompts,
/// so no more of a cache is charged than one of those takes.
pub open spec fn predicted(model: ModelData, hw: Hardware, quant: Quant) -> Double {
    let opts = Opts { context: Some(4096), ..Opts::defaults() };
    let fit = fit::fit_at(model, hw, opts, quant, 4096);
    let speed = speed::estimate_spec(model, hw, fit, opts.efficiency);
    Double::nearest(speed.decode_tps_x10 as nat, 1).div_spec(Double::nearest(10, 1))
}

/// A throughput against the formula's. A ratio far from one means that the
/// model was not the one named, and would poison a factor.
pub open spec fn ratio_spec(tps: Double, said: Double) -> Option<Double> {
    let ratio = tps.div_spec(said);
    if zero().below(said) && Double::nearest(5, 100).upto(ratio) && ratio.upto(
        Double::nearest(5, 1),
    ) {
        Some(ratio)
    } else {
        None
    }
}

/// The sample a result gives.
pub open spec fn sample_spec(c: CatalogData, m: MachineData, r: SubmittedResult) -> Option<Sample> {
    match (stated(r), found(c, key_spec(r))) {
        (Some(tps), Some(index)) => {
            let quant = community::quant_spec(encode_utf8(r.model@));
            Some(
                Sample {
                    hw_key: m.key,
                    model_index: index as u32,
                    tps,
                    ttft: match r.avg_ttft_ms {
                        Some(v) => v,
                        None => zero(),
                    },
                    runs: match r.num_runs {
                        Some(v) => v,
                        None => 1,
                    },
                    quant: quant.rank() as u8,
                    provider: community::provider_spec(community::bytes_of(r.provider)),
                    ratio: ratio_spec(tps, predicted(c.model(index), m.hardware, quant)),
                },
            )
        },
        _ => None,
    }
}

/// The key of a result that states a throughput of no model of the catalog.
pub open spec fn missed(c: CatalogData, r: SubmittedResult) -> Option<Seq<u8>> {
    if stated(r) is Some && found(c, key_spec(r)) is None {
        Some(key_spec(r))
    } else {
        None
    }
}

// --- all results ------------------------------------------------------------

/// The samples of the first `n` results of a machine.
pub open spec fn samples_of(
    c: CatalogData,
    m: MachineData,
    rs: Seq<SubmittedResult>,
    n: nat,
) -> Seq<Sample>
    decreases n,
{
    if n == 0 {
        Seq::empty()
    } else {
        let rest = samples_of(c, m, rs, (n - 1) as nat);
        match sample_spec(c, m, rs[n - 1]) {
            Some(s) => rest.push(s),
            None => rest,
        }
    }
}

/// The keys that the first `n` results of a machine missed.
pub open spec fn misses_of(c: CatalogData, rs: Seq<SubmittedResult>, n: nat) -> Seq<Seq<u8>>
    decreases n,
{
    if n == 0 {
        Seq::empty()
    } else {
        let rest = misses_of(c, rs, (n - 1) as nat);
        match missed(c, rs[n - 1]) {
            Some(k) => rest.push(k),
            None => rest,
        }
    }
}

/// The samples of the first `n` submissions.
pub open spec fn samples(c: CatalogData, subs: Seq<Submission>, n: nat) -> Seq<Sample>
    decreases n,
{
    if n == 0 {
        Seq::empty()
    } else {
        let rest = samples(c, subs, (n - 1) as nat);
        let sub = subs[n - 1];
        match community::machine_spec(sub.hardware) {
            Some(m) => rest + samples_of(c, m, sub.results@, sub.results@.len()),
            None => rest,
        }
    }
}

/// The keys that the first `n` submissions missed.
pub open spec fn misses(c: CatalogData, subs: Seq<Submission>, n: nat) -> Seq<Seq<u8>>
    decreases n,
{
    if n == 0 {
        Seq::empty()
    } else {
        let rest = misses(c, subs, (n - 1) as nat);
        let sub = subs[n - 1];
        if community::machine_spec(sub.hardware) is Some {
            rest + misses_of(c, sub.results@, sub.results@.len())
        } else {
            rest
        }
    }
}

/// The machines of the first `n` submissions.
pub open spec fn machines(subs: Seq<Submission>, n: nat) -> Set<u32>
    decreases n,
{
    if n == 0 {
        Set::empty()
    } else {
        let rest = machines(subs, (n - 1) as nat);
        match community::machine_spec(subs[n - 1].hardware) {
            Some(m) => rest.insert(m.key),
            None => rest,
        }
    }
}

/// How many results the machines of the first `n` submissions have.
pub open spec fn result_count(subs: Seq<Submission>, n: nat) -> nat
    decreases n,
{
    if n == 0 {
        0
    } else {
        result_count(subs, (n - 1) as nat) + if community::machine_spec(
            subs[n - 1].hardware,
        ) is Some {
            subs[n - 1].results@.len()
        } else {
            0
        }
    }
}

/// A count as far as a `usize` goes.
pub open spec fn held(n: nat) -> nat {
    if n > usize::MAX {
        usize::MAX as nat
    } else {
        n
    }
}

// --- aggregates -------------------------------------------------------------

/// The samples of a model on a machine.
pub open spec fn of_pair(all: Seq<Sample>, hw_key: u32, model_index: u32) -> Seq<Sample>
    decreases all.len(),
{
    if all.len() == 0 {
        Seq::empty()
    } else {
        let rest = of_pair(all.drop_last(), hw_key, model_index);
        if all.last().hw_key == hw_key && all.last().model_index == model_index {
            rest.push(all.last())
        } else {
            rest
        }
    }
}

/// The credible ratios of a machine.
pub open spec fn ratios(all: Seq<Sample>, hw_key: u32) -> Seq<Double>
    decreases all.len(),
{
    if all.len() == 0 {
        Seq::empty()
    } else {
        let rest = ratios(all.drop_last(), hw_key);
        match all.last().ratio {
            Some(r) => if all.last().hw_key == hw_key {
                rest.push(r)
            } else {
                rest
            },
            None => rest,
        }
    }
}

/// How many runs stand behind samples.
pub open spec fn runs(group: Seq<Sample>) -> nat
    decreases group.len(),
{
    if group.len() == 0 {
        0
    } else {
        runs(group.drop_last()) + group.last().runs as nat
    }
}

/// The measurement that samples of one model on one machine come to: the run
/// with the median throughput, so that a single throttled one does not drag the
/// figure. The time to the first token is that of this run.
pub open spec fn measured(hw_key: u32, model_index: u32, group: Seq<Sample>) -> PackedMeasurement {
    let sorted = sort::sorted(group);
    let middle = sorted[(sorted.len() / 2) as int];
    PackedMeasurement {
        hw_key,
        model_index,
        tps_x10: middle.tps.mul_spec(Double::nearest(10, 1)).round_spec(u16::MAX as nat) as u16,
        ttft_ms: middle.ttft.round_spec(u16::MAX as nat) as u16,
        quant: middle.quant,
        runs: if runs(group) > 255 {
            255
        } else {
            runs(group) as u8
        },
        provider: middle.provider,
    }
}

/// The measurement that a sample goes into.
pub open spec fn measurement_for(all: Seq<Sample>, s: Sample) -> PackedMeasurement {
    measured(s.hw_key, s.model_index, of_pair(all, s.hw_key, s.model_index))
}

/// The factor that the ratios of a machine come to.
pub open spec fn calibrated(hw_key: u32, found: Seq<Double>) -> Factor {
    let median = sort::sorted(found)[(found.len() / 2) as int];
    let thousandths = median.mul_spec(Double::nearest(1000, 1)).round_spec(u16::MAX as nat) as u16;
    (
        hw_key,
        if thousandths < 50 {
            50
        } else if thousandths > 5000 {
            5000
        } else {
            thousandths
        },
        if found.len() > 255 {
            255
        } else {
            found.len() as u8
        },
    )
}

pub open spec fn factor_for(all: Seq<Sample>, hw_key: u32) -> Factor {
    calibrated(hw_key, ratios(all, hw_key))
}

/// Whether a measurement is that of one of the first `n` samples.
pub open spec fn measures(m: PackedMeasurement, all: Seq<Sample>, n: int) -> bool {
    exists|i: int| 0 <= i < n && m == measurement_for(all, #[trigger] all[i])
}

/// One measurement for every pair of a machine and a model that there are
/// samples of, in the order of their keys.
pub open spec fn measurements_of(ms: Seq<PackedMeasurement>, all: Seq<Sample>) -> bool {
    &&& forall|a: int, b: int|
        0 <= a < b < ms.len() ==> pack::key_of(#[trigger] ms[a]) < pack::key_of(#[trigger] ms[b])
    &&& forall|i: int| 0 <= i < all.len() ==> ms.contains(measurement_for(all, #[trigger] all[i]))
    &&& forall|k: int| 0 <= k < ms.len() ==> measures(#[trigger] ms[k], all, all.len() as int)
}

/// Whether a factor is that of the machine of one of the first `n` samples.
pub open spec fn corrects(f: Factor, all: Seq<Sample>, n: int) -> bool {
    exists|i: int|
        0 <= i < n && ratios(all, (#[trigger] all[i]).hw_key).len() >= 2 && f == factor_for(
            all,
            all[i].hw_key,
        )
}

/// One factor for every machine with at least two credible ratios, in the order
/// of their keys: one alone is an anecdote.
pub open spec fn factors_of(fs: Seq<Factor>, all: Seq<Sample>) -> bool {
    &&& forall|a: int, b: int| 0 <= a < b < fs.len() ==> (#[trigger] fs[a]).0 < (#[trigger] fs[b]).0
    &&& forall|i: int|
        0 <= i < all.len() && ratios(all, (#[trigger] all[i]).hw_key).len() >= 2 ==> fs.contains(
            factor_for(all, all[i].hw_key),
        )
    &&& forall|k: int| 0 <= k < fs.len() ==> corrects(#[trigger] fs[k], all, all.len() as int)
}

/// How often a key occurs.
pub open spec fn occurrences(keys: Seq<Seq<u8>>, k: Seq<u8>) -> nat
    decreases keys.len(),
{
    if keys.len() == 0 {
        0
    } else {
        occurrences(keys.drop_last(), k) + if keys.last() == k {
            1nat
        } else {
            0nat
        }
    }
}

/// Whether a tally has a line for a key.
pub open spec fn listed(us: Seq<(String, usize)>, k: Seq<u8>) -> bool {
    exists|a: int| 0 <= a < us.len() && encode_utf8((#[trigger] us[a]).0@) == k
}

/// Every key once with how often it occurs, the most frequent first.
pub open spec fn tally_of(us: Seq<(String, usize)>, keys: Seq<Seq<u8>>) -> bool {
    &&& forall|a: int, b: int| 0 <= a < b < us.len() ==> (#[trigger] us[a]).1 >= (#[trigger] us[b]).1
    &&& forall|a: int, b: int|
        0 <= a < b < us.len() ==> encode_utf8((#[trigger] us[a]).0@) != encode_utf8(
            (#[trigger] us[b]).0@,
        )
    &&& forall|a: int|
        0 <= a < us.len() ==> (#[trigger] us[a]).1 == occurrences(keys, encode_utf8(us[a].0@))
            && us[a].1 > 0
    &&& forall|i: int| 0 <= i < keys.len() ==> listed(us, #[trigger] keys[i])
}

// --- computing them ---------------------------------------------------------

/// Keys of all models of a catalog.
pub open spec fn keyed(keys: Seq<String>, c: CatalogData) -> bool {
    &&& keys.len() == c.count
    &&& forall|i: int|
        0 <= i < keys.len() ==> encode_utf8((#[trigger] keys[i])@) == key::normalized(
            c.model(i as nat).name(),
        )
}

/// The texts of strings.
pub open spec fn labels(v: Seq<String>) -> Seq<Seq<u8>> {
    Seq::new(v.len(), |i: int| encode_utf8(v[i]@))
}

fn keys_of(catalog: &Catalog<'_>) -> (r: Vec<String>)
    ensures
        keyed(r@, catalog@),
{
    let mut keys: Vec<String> = Vec::new();
    let n: usize = catalog.len();
    let mut i: usize = 0;
    while i < n
        invariant
            i <= n,
            n == catalog@.count,
            keys@.len() == i,
            forall|k: int|
                0 <= k < i ==> encode_utf8((#[trigger] keys@[k])@) == key::normalized(
                    catalog@.model(k as nat).name(),
                ),
        decreases n - i,
    {
        match catalog.get(i) {
            Some(model) => {
                keys.push(normalize_model(model.name()));
            },
            None => {
                return keys;
            },
        }
        i = i + 1;
    }
    keys
}

fn find_key(catalog: &Catalog<'_>, keys: &Vec<String>, k: &str) -> (r: Option<usize>)
    requires
        keyed(keys@, catalog@),
    ensures
        match r {
            Some(i) => found(catalog@, text::bytes(k)) == Some(i as nat),
            None => found(catalog@, text::bytes(k)) is None,
        },
        r matches Some(i) ==> i < catalog@.count,
{
    let mut i: usize = 0;
    while i < keys.len()
        invariant
            i <= keys@.len(),
            keyed(keys@, catalog@),
            found(catalog@, text::bytes(k)) == found_from(catalog@, text::bytes(k), i as nat),
        decreases keys.len() - i,
    {
        if text::is(keys[i].as_str().as_bytes(), k) {
            return Some(i);
        }
        i = i + 1;
    }
    None
}

fn predict(model: &Model, hw: &Hardware, quant: Quant) -> (r: Double)
    ensures
        r == predicted(model@, *hw, quant),
{
    let defaults: Opts = Opts::default();
    let opts: Opts = Opts {
        context: Some(4096),
        kv_quant: defaults.kv_quant,
        efficiency: defaults.efficiency,
        allow_moe_offload: defaults.allow_moe_offload,
        max_quant: defaults.max_quant,
        use_case: defaults.use_case,
    };
    let fit: Fit = evaluate_at(model, hw, &opts, quant, 4096);
    let speed: Speed = estimate(model, hw, &fit, opts.efficiency);
    Double::ratio(speed.decode_tps_x10, 1).over(Double::ratio(10, 1))
}

fn credible(tps: Double, said: Double) -> (r: Option<Double>)
    ensures
        r == ratio_spec(tps, said),
{
    if !Double::ratio(0, 1).lt(said) {
        return None;
    }
    let ratio: Double = tps.over(said);
    if Double::ratio(5, 100).le(ratio) && ratio.le(Double::ratio(5, 1)) {
        Some(ratio)
    } else {
        None
    }
}

fn stated_tps(r: &SubmittedResult) -> (t: Option<Double>)
    ensures
        t == stated(*r),
{
    match r.avg_tps {
        Some(v) => if Double::ratio(0, 1).lt(v) {
            Some(v)
        } else {
            None
        },
        None => None,
    }
}

/// The sample of a result of a model of the catalog.
fn sample(
    machine: &Machine,
    r: &SubmittedResult,
    tps: Double,
    model: &Model,
    Ghost(c): Ghost<CatalogData>,
) -> (s: Sample)
    requires
        stated(*r) == Some(tps),
        found(c, key_spec(*r)) == Some(model@.index),
        model@ == c.model(model@.index),
    ensures
        sample_spec(c, machine@, *r) == Some(s),
{
    let quant: Quant = match quant_from_name(r.model.as_str()) {
        Some(q) => q,
        None => Quant::Q4KM,
    };
    Sample {
        hw_key: machine.key,
        model_index: model.index(),
        tps,
        ttft: match r.avg_ttft_ms {
            Some(v) => v,
            None => Double::ratio(0, 1),
        },
        runs: match r.num_runs {
            Some(v) => v,
            None => 1,
        },
        quant: quant.code(),
        provider: provider_code(
            match &r.provider {
                Some(p) => Some(p.as_str()),
                None => None,
            },
        ),
        ratio: credible(tps, predict(model, &machine.hardware, quant)),
    }
}

/// Go through the results of a machine.
fn gather_results(
    catalog: &Catalog<'_>,
    keys: &Vec<String>,
    machine: &Machine,
    rs: &Vec<SubmittedResult>,
    out: &mut Vec<Sample>,
    lost: &mut Vec<String>,
)
    requires
        keyed(keys@, catalog@),
    ensures
        final(out)@ == old(out)@ + samples_of(catalog@, machine@, rs@, rs@.len()),
        labels(final(lost)@) == labels(old(lost)@) + misses_of(catalog@, rs@, rs@.len()),
{
    let ghost (was, gone): (Seq<Sample>, Seq<Seq<u8>>) = (out@, labels(lost@));
    let ghost c: CatalogData = catalog@;
    let mut i: usize = 0;
    assert(out@ =~= was + samples_of(c, machine@, rs@, 0));
    assert(labels(lost@) =~= gone + misses_of(c, rs@, 0));
    while i < rs.len()
        invariant
            i <= rs@.len(),
            c == catalog@,
            keyed(keys@, c),
            out@ == was + samples_of(c, machine@, rs@, i as nat),
            labels(lost@) == gone + misses_of(c, rs@, i as nat),
        decreases rs.len() - i,
    {
        let r: &SubmittedResult = &rs[i];
        let ghost (before, lost_before): (Seq<Sample>, Seq<Seq<u8>>) = (out@, labels(lost@));
        if let Some(tps) = stated_tps(r) {
            let k: String = normalize_model(r.model.as_str());
            match find_key(catalog, keys, k.as_str()) {
                Some(index) => {
                    match catalog.get(index) {
                        Some(model) => {
                            assert(model@.index == index);
                            out.push(sample(machine, r, tps, &model, Ghost(c)));
                        },
                        None => {},
                    }
                },
                None => {
                    lost.push(k);
                    assert(labels(lost@) =~= lost_before.push(key_spec(*r)));
                },
            }
        }
        assert(out@ =~= was + samples_of(c, machine@, rs@, (i + 1) as nat));
        assert(labels(lost@) =~= gone + misses_of(c, rs@, (i + 1) as nat));
        i = i + 1;
    }
}

fn pair_samples(all: &Vec<Sample>, hw_key: u32, model_index: u32) -> (r: Vec<Sample>)
    ensures
        r@ == of_pair(all@, hw_key, model_index),
{
    let mut out: Vec<Sample> = Vec::new();
    let mut i: usize = 0;
    while i < all.len()
        invariant
            i <= all@.len(),
            out@ == of_pair(all@.take(i as int), hw_key, model_index),
        decreases all.len() - i,
    {
        assert(all@.take(i + 1).drop_last() =~= all@.take(i as int));
        let s: Sample = all[i];
        if s.hw_key == hw_key && s.model_index == model_index {
            out.push(s);
        }
        i = i + 1;
    }
    assert(all@.take(i as int) =~= all@);
    out
}

fn machine_ratios(all: &Vec<Sample>, hw_key: u32) -> (r: Vec<Double>)
    ensures
        r@ == ratios(all@, hw_key),
{
    let mut out: Vec<Double> = Vec::new();
    let mut i: usize = 0;
    while i < all.len()
        invariant
            i <= all@.len(),
            out@ == ratios(all@.take(i as int), hw_key),
        decreases all.len() - i,
    {
        assert(all@.take(i + 1).drop_last() =~= all@.take(i as int));
        let s: Sample = all[i];
        if let Some(ratio) = s.ratio {
            if s.hw_key == hw_key {
                out.push(ratio);
            }
        }
        i = i + 1;
    }
    assert(all@.take(i as int) =~= all@);
    out
}

fn total_runs(group: &Vec<Sample>) -> (r: u8)
    ensures
        r == if runs(group@) > 255 {
            255
        } else {
            runs(group@) as int
        },
{
    let mut total: u32 = 0;
    let mut i: usize = 0;
    while i < group.len()
        invariant
            i <= group@.len(),
            total == if runs(group@.take(i as int)) > 255 {
                255
            } else {
                runs(group@.take(i as int)) as int
            },
        decreases group.len() - i,
    {
        assert(group@.take(i + 1).drop_last() =~= group@.take(i as int));
        let n: u32 = group[i].runs;
        total = if n >= 255 || total + n > 255 {
            255
        } else {
            total + n
        };
        i = i + 1;
    }
    assert(group@.take(i as int) =~= group@);
    total as u8
}

fn measure(all: &Vec<Sample>, s: Sample) -> (r: PackedMeasurement)
    requires
        all@.contains(s),
    ensures
        r == measurement_for(all@, s),
{
    let group: Vec<Sample> = pair_samples(all, s.hw_key, s.model_index);
    proof {
        lemma_pair_has(all@, s);
        sort::law_sorted_is_in_order(group@);
    }
    let count: u8 = total_runs(&group);
    let sorted: Vec<Sample> = sort::sort(group);
    let middle: Sample = sorted[sorted.len() / 2];
    PackedMeasurement {
        hw_key: s.hw_key,
        model_index: s.model_index,
        tps_x10: middle.tps.times(Double::ratio(10, 1)).round_u16(),
        ttft_ms: middle.ttft.round_u16(),
        quant: middle.quant,
        runs: count,
        provider: middle.provider,
    }
}

/// A sample is among those of its pair.
pub proof fn lemma_pair_has(all: Seq<Sample>, s: Sample)
    requires
        all.contains(s),
    ensures
        of_pair(all, s.hw_key, s.model_index).len() > 0,
    decreases all.len(),
{
    let i = choose|i: int| 0 <= i < all.len() && all[i] == s;
    if i < all.len() - 1 {
        assert(all.drop_last()[i] == s);
        lemma_pair_has(all.drop_last(), s);
    }
}

fn calibrate(hw_key: u32, found: Vec<Double>) -> (r: Factor)
    requires
        found@.len() > 0,
    ensures
        r == calibrated(hw_key, found@),
{
    let n: usize = found.len();
    proof {
        sort::law_sorted_is_in_order(found@);
    }
    let sorted: Vec<Double> = sort::sort(found);
    let thousandths: u16 = sorted[n / 2].times(Double::ratio(1000, 1)).round_u16();
    let factor: u16 = if thousandths < 50 {
        50
    } else if thousandths > 5000 {
        5000
    } else {
        thousandths
    };
    let behind: u8 = if n > 255 {
        255
    } else {
        n as u8
    };
    (hw_key, factor, behind)
}

fn pair_seen(all: &Vec<Sample>, i: usize) -> (r: bool)
    requires
        i < all@.len(),
    ensures
        r == exists|j: int|
            0 <= j < i && (#[trigger] all@[j]).hw_key == all@[i as int].hw_key && all@[j].model_index
                == all@[i as int].model_index,
{
    let mut j: usize = 0;
    while j < i
        invariant
            j <= i < all@.len(),
            forall|k: int|
                0 <= k < j ==> !((#[trigger] all@[k]).hw_key == all@[i as int].hw_key
                    && all@[k].model_index == all@[i as int].model_index),
        decreases i - j,
    {
        if all[j].hw_key == all[i].hw_key && all[j].model_index == all[i].model_index {
            assert(all@[j as int].hw_key == all@[i as int].hw_key);
            return true;
        }
        j = j + 1;
    }
    false
}

fn measure_all(all: &Vec<Sample>) -> (r: Vec<PackedMeasurement>)
    ensures
        measurements_of(r@, all@),
{
    let mut out: Vec<PackedMeasurement> = Vec::new();
    let mut i: usize = 0;
    while i < all.len()
        invariant
            i <= all@.len(),
            sort::in_order(out@),
            forall|a: int, b: int|
                0 <= a < b < out@.len() ==> pack::key_of(#[trigger] out@[a]) != pack::key_of(
                    #[trigger] out@[b],
                ),
            forall|k: int|
                0 <= k < i ==> out@.contains(measurement_for(all@, #[trigger] all@[k])),
            forall|k: int| 0 <= k < out@.len() ==> measures(#[trigger] out@[k], all@, i as int),
        decreases all.len() - i,
    {
        let ghost was: Seq<PackedMeasurement> = out@;
        let ghost s: Sample = all@[i as int];
        if !pair_seen(all, i) {
            let m: PackedMeasurement = measure(all, all[i]);
            let p: usize = sort::place(&mut out, m);
            proof {
                sort::lemma_placed(was, p as int, m);
                lemma_keys_stay_apart(was, p as int, m, all@, i as int);
                assert forall|k: int| 0 <= k < i + 1 implies out@.contains(
                    measurement_for(all@, #[trigger] all@[k]),
                ) by {
                    if k < i {
                        assert(was.contains(measurement_for(all@, all@[k])));
                    } else {
                        assert(m == measurement_for(all@, all@[k]));
                    }
                }
                assert forall|k: int| 0 <= k < out@.len() implies measures(
                    #[trigger] out@[k],
                    all@,
                    i + 1,
                ) by {
                    if k == p {
                        assert(m == measurement_for(all@, all@[i as int]));
                    } else {
                        let k0 = if k < p {
                            k
                        } else {
                            k - 1
                        };
                        assert(out@[k] == was[k0]);
                        assert(measures(was[k0], all@, i as int));
                    }
                }
            }
        } else {
            proof {
                let j = choose|j: int|
                    0 <= j < i && (#[trigger] all@[j]).hw_key == s.hw_key && all@[j].model_index
                        == s.model_index;
                assert(measurement_for(all@, all@[j]) == measurement_for(all@, s));
                assert forall|k: int| 0 <= k < i + 1 implies out@.contains(
                    measurement_for(all@, #[trigger] all@[k]),
                ) by {
                    if k == i {
                        assert(out@.contains(measurement_for(all@, all@[j])));
                    }
                }
                assert forall|k: int| 0 <= k < out@.len() implies measures(
                    #[trigger] out@[k],
                    all@,
                    i + 1,
                ) by {
                    assert(measures(was[k], all@, i as int));
                }
            }
        }
        i = i + 1;
    }
    proof {
        assert forall|a: int, b: int| 0 <= a < b < out@.len() implies pack::key_of(
            #[trigger] out@[a],
        ) < pack::key_of(#[trigger] out@[b]) by {
            assert(!out@[b].precedes(out@[a]));
        }
    }
    out
}

/// A measurement of a pair not seen before has a key of its own.
proof fn lemma_keys_stay_apart(
    was: Seq<PackedMeasurement>,
    p: int,
    m: PackedMeasurement,
    all: Seq<Sample>,
    i: int,
)
    requires
        0 <= p <= was.len(),
        0 <= i < all.len(),
        m == measurement_for(all, all[i]),
        forall|a: int, b: int|
            0 <= a < b < was.len() ==> pack::key_of(#[trigger] was[a]) != pack::key_of(
                #[trigger] was[b],
            ),
        forall|k: int| 0 <= k < was.len() ==> measures(#[trigger] was[k], all, i),
        forall|j: int|
            0 <= j < i ==> !((#[trigger] all[j]).hw_key == all[i].hw_key && all[j].model_index
                == all[i].model_index),
    ensures
        ({
            let now = was.insert(p, m);
            forall|a: int, b: int|
                0 <= a < b < now.len() ==> pack::key_of(#[trigger] now[a]) != pack::key_of(
                    #[trigger] now[b],
                )
        }),
{
    let now = was.insert(p, m);
    assert forall|k: int| 0 <= k < was.len() implies pack::key_of(#[trigger] was[k])
        != pack::key_of(m) by {
        let j = choose|j: int| 0 <= j < i && was[k] == measurement_for(all, #[trigger] all[j]);
        assert(was[k].hw_key == all[j].hw_key && was[k].model_index == all[j].model_index);
    }
    assert forall|a: int, b: int| 0 <= a < b < now.len() implies pack::key_of(#[trigger] now[a])
        != pack::key_of(#[trigger] now[b]) by {
        let a0 = if a < p {
            a
        } else {
            a - 1
        };
        let b0 = if b < p {
            b
        } else {
            b - 1
        };
        if a != p {
            assert(now[a] == was[a0]);
        }
        if b != p {
            assert(now[b] == was[b0]);
        }
    }
}

fn machine_seen(all: &Vec<Sample>, i: usize) -> (r: bool)
    requires
        i < all@.len(),
    ensures
        r == exists|j: int| 0 <= j < i && (#[trigger] all@[j]).hw_key == all@[i as int].hw_key,
{
    let mut j: usize = 0;
    while j < i
        invariant
            j <= i < all@.len(),
            forall|k: int| 0 <= k < j ==> (#[trigger] all@[k]).hw_key != all@[i as int].hw_key,
        decreases i - j,
    {
        if all[j].hw_key == all[i].hw_key {
            assert(all@[j as int].hw_key == all@[i as int].hw_key);
            return true;
        }
        j = j + 1;
    }
    false
}

fn calibrate_all(all: &Vec<Sample>) -> (r: Vec<Factor>)
    ensures
        factors_of(r@, all@),
{
    let mut out: Vec<Factor> = Vec::new();
    let mut i: usize = 0;
    while i < all.len()
        invariant
            i <= all@.len(),
            sort::in_order(out@),
            forall|a: int, b: int|
                0 <= a < b < out@.len() ==> (#[trigger] out@[a]).0 != (#[trigger] out@[b]).0,
            forall|k: int|
                0 <= k < i && ratios(all@, (#[trigger] all@[k]).hw_key).len() >= 2
                    ==> out@.contains(factor_for(all@, all@[k].hw_key)),
            forall|k: int| 0 <= k < out@.len() ==> corrects(#[trigger] out@[k], all@, i as int),
        decreases all.len() - i,
    {
        let ghost was: Seq<Factor> = out@;
        let hw: u32 = all[i].hw_key;
        let known: bool = machine_seen(all, i);
        proof {
            if known {
                let j = choose|j: int| 0 <= j < i && (#[trigger] all@[j]).hw_key == hw;
                assert(ratios(all@, all@[j].hw_key).len() >= 2 ==> was.contains(
                    factor_for(all@, all@[j].hw_key),
                ));
            }
            assert forall|k: int| 0 <= k < was.len() implies corrects(
                #[trigger] was[k],
                all@,
                i + 1,
            ) by {
                assert(corrects(was[k], all@, i as int));
            }
        }
        if !known {
            let found: Vec<Double> = machine_ratios(all, hw);
            if found.len() >= 2 {
                let f: Factor = calibrate(hw, found);
                let p: usize = sort::place(&mut out, f);
                proof {
                    sort::lemma_placed(was, p as int, f);
                    assert(all@[i as int].hw_key == hw);
                    assert(corrects(f, all@, i + 1));
                    lemma_machines_stay_apart(was, p as int, f, all@, i as int);
                    assert forall|k: int| 0 <= k < out@.len() implies corrects(
                        #[trigger] out@[k],
                        all@,
                        i + 1,
                    ) by {
                        if k < p {
                            assert(out@[k] == was[k]);
                        } else if k > p {
                            assert(out@[k] == was[k - 1]);
                        }
                    }
                    assert forall|k: int|
                        0 <= k < i + 1 && ratios(all@, (#[trigger] all@[k]).hw_key).len()
                            >= 2 implies out@.contains(factor_for(all@, all@[k].hw_key)) by {
                        let g = factor_for(all@, all@[k].hw_key);
                        if k < i {
                            assert(was.contains(g));
                            let a = choose|a: int| 0 <= a < was.len() && was[a] == g;
                            assert(out@[if a < p {
                                a
                            } else {
                                a + 1
                            }] == g);
                        } else {
                            assert(out@[p as int] == g);
                        }
                    }
                }
            }
        }
        i = i + 1;
    }
    proof {
        assert forall|a: int, b: int| 0 <= a < b < out@.len() implies (#[trigger] out@[a]).0 < (
        #[trigger] out@[b]).0 by {
            assert(!out@[b].precedes(out@[a]));
        }
    }
    out
}

/// A factor of a machine not seen before has a key of its own.
proof fn lemma_machines_stay_apart(
    was: Seq<Factor>,
    p: int,
    f: Factor,
    all: Seq<Sample>,
    i: int,
)
    requires
        0 <= p <= was.len(),
        0 <= i < all.len(),
        f.0 == all[i].hw_key,
        forall|a: int, b: int|
            0 <= a < b < was.len() ==> (#[trigger] was[a]).0 != (#[trigger] was[b]).0,
        forall|k: int| 0 <= k < was.len() ==> corrects(#[trigger] was[k], all, i),
        forall|j: int| 0 <= j < i ==> (#[trigger] all[j]).hw_key != all[i].hw_key,
    ensures
        ({
            let now = was.insert(p, f);
            forall|a: int, b: int|
                0 <= a < b < now.len() ==> (#[trigger] now[a]).0 != (#[trigger] now[b]).0
        }),
{
    let now = was.insert(p, f);
    assert forall|k: int| 0 <= k < was.len() implies (#[trigger] was[k]).0 != f.0 by {
        assert(corrects(was[k], all, i));
    }
    assert forall|a: int, b: int| 0 <= a < b < now.len() implies (#[trigger] now[a]).0 != (
    #[trigger] now[b]).0 by {
        let a0 = if a < p {
            a
        } else {
            a - 1
        };
        let b0 = if b < p {
            b
        } else {
            b - 1
        };
        if a != p {
            assert(now[a] == was[a0]);
        }
        if b != p {
            assert(now[b] == was[b0]);
        }
    }
}

fn count_key(lost: &Vec<String>, k: &str) -> (r: usize)
    ensures
        r == occurrences(labels(lost@), text::bytes(k)),
{
    let mut n: usize = 0;
    let mut i: usize = 0;
    let ghost all: Seq<Seq<u8>> = labels(lost@);
    while i < lost.len()
        invariant
            n <= i <= lost@.len(),
            all == labels(lost@),
            n == occurrences(all.take(i as int), text::bytes(k)),
        decreases lost.len() - i,
    {
        assert(all.take(i + 1).drop_last() =~= all.take(i as int));
        assert(all[i as int] == encode_utf8(lost@[i as int]@));
        if text::is(lost[i].as_str().as_bytes(), k) {
            n = n + 1;
        }
        i = i + 1;
    }
    assert(all.take(i as int) =~= all);
    n
}

proof fn lemma_occurs(keys: Seq<Seq<u8>>, i: int)
    requires
        0 <= i < keys.len(),
    ensures
        occurrences(keys, keys[i]) > 0,
    decreases keys.len(),
{
    if i < keys.len() - 1 {
        assert(keys.drop_last()[i] == keys[i]);
        lemma_occurs(keys.drop_last(), i);
    }
}

fn already_listed(out: &Vec<(String, usize)>, k: &str) -> (r: bool)
    ensures
        r == listed(out@, text::bytes(k)),
{
    let mut j: usize = 0;
    while j < out.len()
        invariant
            j <= out@.len(),
            forall|a: int|
                0 <= a < j ==> encode_utf8((#[trigger] out@[a]).0@) != text::bytes(k),
        decreases out.len() - j,
    {
        if text::is(out[j].0.as_str().as_bytes(), k) {
            assert(encode_utf8(out@[j as int].0@) == text::bytes(k));
            return true;
        }
        j = j + 1;
    }
    false
}

fn tally(lost: &Vec<String>) -> (r: Vec<(String, usize)>)
    ensures
        tally_of(r@, labels(lost@)),
{
    let mut out: Vec<(String, usize)> = Vec::new();
    let mut i: usize = 0;
    let ghost keys: Seq<Seq<u8>> = labels(lost@);
    while i < lost.len()
        invariant
            i <= lost@.len(),
            keys == labels(lost@),
            sort::in_order(out@),
            forall|a: int, b: int|
                0 <= a < b < out@.len() ==> encode_utf8((#[trigger] out@[a]).0@) != encode_utf8(
                    (#[trigger] out@[b]).0@,
                ),
            forall|a: int|
                0 <= a < out@.len() ==> (#[trigger] out@[a]).1 == occurrences(
                    keys,
                    encode_utf8(out@[a].0@),
                ) && out@[a].1 > 0,
            forall|k: int| 0 <= k < i ==> listed(out@, #[trigger] keys[k]),
        decreases lost.len() - i,
    {
        let ghost was: Seq<(String, usize)> = out@;
        let k: &str = lost[i].as_str();
        assert(keys[i as int] == text::bytes(k));
        if !already_listed(&out, k) {
            let n: usize = count_key(lost, k);
            proof {
                lemma_occurs(keys, i as int);
            }
            let line: (String, usize) = (k.to_owned(), n);
            let p: usize = sort::place(&mut out, line);
            proof {
                assert(out@[p as int] == line);
                lemma_lines_stay_apart(was, p as int, line);
                assert forall|a: int| 0 <= a < out@.len() implies (#[trigger] out@[a]).1
                    == occurrences(keys, encode_utf8(out@[a].0@)) && out@[a].1 > 0 by {
                    if a < p {
                        assert(out@[a] == was[a]);
                    } else if a > p {
                        assert(out@[a] == was[a - 1]);
                    }
                }
                assert forall|k: int| 0 <= k < i + 1 implies listed(out@, #[trigger] keys[k]) by {
                    if k < i {
                        let a = choose|a: int|
                            0 <= a < was.len() && encode_utf8((#[trigger] was[a]).0@) == keys[k];
                        if a < p {
                            assert(out@[a] == was[a]);
                        } else {
                            assert(out@[a + 1] == was[a]);
                        }
                    }
                }
            }
        }
        i = i + 1;
    }
    proof {
        assert forall|a: int, b: int| 0 <= a < b < out@.len() implies (#[trigger] out@[a]).1 >= (
        #[trigger] out@[b]).1 by {
            assert(!out@[b].precedes(out@[a]));
        }
    }
    out
}

/// A line for a key not listed before has a name of its own.
proof fn lemma_lines_stay_apart(was: Seq<(String, usize)>, p: int, line: (String, usize))
    requires
        0 <= p <= was.len(),
        !listed(was, encode_utf8(line.0@)),
        forall|a: int, b: int|
            0 <= a < b < was.len() ==> encode_utf8((#[trigger] was[a]).0@) != encode_utf8(
                (#[trigger] was[b]).0@,
            ),
    ensures
        ({
            let now = was.insert(p, line);
            forall|a: int, b: int|
                0 <= a < b < now.len() ==> encode_utf8((#[trigger] now[a]).0@) != encode_utf8(
                    (#[trigger] now[b]).0@,
                )
        }),
{
    let now = was.insert(p, line);
    assert forall|a: int, b: int| 0 <= a < b < now.len() implies encode_utf8(
        (#[trigger] now[a]).0@,
    ) != encode_utf8((#[trigger] now[b]).0@) by {
        let a0 = if a < p {
            a
        } else {
            a - 1
        };
        let b0 = if b < p {
            b
        } else {
            b - 1
        };
        if a != p {
            assert(now[a] == was[a0]);
        }
        if b != p {
            assert(now[b] == was[b0]);
        }
    }
}

// --- all of it --------------------------------------------------------------

/// What submissions came to, what could not be matched among it: an import that
/// silently drops half of its input is worse than one that says so.
pub struct Ingested {
    pub measurements: Vec<PackedMeasurement>,
    pub calibrations: Vec<(u32, u16, u8)>,
    pub files: usize,
    pub results: usize,
    pub matched: usize,
    pub machines: usize,
    pub unmatched: Vec<(String, usize)>,
}

/// Whether this is what submissions come to against a catalog.
pub open spec fn ingested_from(r: Ingested, c: CatalogData, subs: Seq<Submission>) -> bool {
    let all = samples(c, subs, subs.len());
    &&& measurements_of(r.measurements@, all)
    &&& factors_of(r.calibrations@, all)
    &&& tally_of(r.unmatched@, misses(c, subs, subs.len()))
    &&& r.files == subs.len()
    &&& r.results == held(result_count(subs, subs.len()))
    &&& r.matched == all.len()
    &&& r.machines == machines(subs, subs.len()).len()
}

/// Turn submissions into what is packed with a catalog.
pub fn ingest(catalog: &Catalog<'_>, subs: &Vec<Submission>) -> (r: Ingested)
    ensures
        ingested_from(r, catalog@, subs@),
{
    let keys: Vec<String> = keys_of(catalog);
    let ghost c: CatalogData = catalog@;
    let mut all: Vec<Sample> = Vec::new();
    let mut lost: Vec<String> = Vec::new();
    let mut known: Vec<u32> = Vec::new();
    let mut results: usize = 0;
    let mut i: usize = 0;
    assert(labels(lost@) =~= misses(c, subs@, 0));
    assert(known@.to_set() =~= machines(subs@, 0));
    while i < subs.len()
        invariant
            i <= subs@.len(),
            c == catalog@,
            keyed(keys@, c),
            all@ == samples(c, subs@, i as nat),
            labels(lost@) == misses(c, subs@, i as nat),
            known@.no_duplicates(),
            known@.to_set() == machines(subs@, i as nat),
            results == held(result_count(subs@, i as nat)),
        decreases subs.len() - i,
    {
        let sub: &Submission = &subs[i];
        if let Some(machine) = machine_from(&sub.hardware) {
            if !holds(&known, machine.key) {
                proof {
                    assert(known@.push(machine.key).to_set() =~= known@.to_set().insert(
                        machine.key,
                    )) by {
                        broadcast use vstd::seq_lib::group_seq_properties;

                    }
                }
                known.push(machine.key);
            } else {
                assert(known@.to_set().insert(machine.key) =~= known@.to_set());
            }
            results = results.saturating_add(sub.results.len());
            gather_results(catalog, &keys, &machine, &sub.results, &mut all, &mut lost);
        }
        i = i + 1;
    }
    proof {
        known@.unique_seq_to_set();
    }
    let unmatched: Vec<(String, usize)> = tally(&lost);
    Ingested {
        measurements: measure_all(&all),
        calibrations: calibrate_all(&all),
        files: subs.len(),
        results,
        matched: all.len(),
        machines: known.len(),
        unmatched,
    }
}

fn holds(known: &Vec<u32>, k: u32) -> (r: bool)
    ensures
        r == known@.contains(k),
{
    let mut i: usize = 0;
    while i < known.len()
        invariant
            i <= known@.len(),
            forall|j: int| 0 <= j < i ==> known@[j] != k,
        decreases known.len() - i,
    {
        if known[i] == k {
            return true;
        }
        i = i + 1;
    }
    false
}

// --- laws -------------------------------------------------------------------

/// A measurement is of one run: throughput, time to the first token, format and
/// runtime are those of one result of that machine and model.
pub proof fn law_a_measurement_is_of_one_run(all: Seq<Sample>, s: Sample)
    requires
        all.contains(s),
    ensures
        exists|i: int|
            0 <= i < all.len() && is_of_run(measurement_for(all, s), #[trigger] all[i]),
{
    let group = of_pair(all, s.hw_key, s.model_index);
    let sorted = sort::sorted(group);
    lemma_pair_has(all, s);
    sort::law_sorted_is_in_order(group);
    sort::law_sorted_is_a_permutation(group);
    let middle = sorted[(sorted.len() / 2) as int];
    assert(sorted.to_multiset().count(middle) > 0) by {
        broadcast use vstd::seq_lib::group_to_multiset_ensures;
        assert(sorted.contains(middle));
    }
    assert(group.contains(middle)) by {
        broadcast use vstd::seq_lib::group_to_multiset_ensures;
    }
    lemma_pair_within(all, s.hw_key, s.model_index, middle);
    let i = choose|i: int| 0 <= i < all.len() && all[i] == middle;
    assert(is_of_run(measurement_for(all, s), all[i]));
}

/// Whether a measurement has its figures from a run.
pub open spec fn is_of_run(m: PackedMeasurement, run: Sample) -> bool {
    &&& m.hw_key == run.hw_key
    &&& m.model_index == run.model_index
    &&& m.tps_x10 == run.tps.mul_spec(Double::nearest(10, 1)).round_spec(u16::MAX as nat) as u16
    &&& m.ttft_ms == run.ttft.round_spec(u16::MAX as nat) as u16
    &&& m.quant == run.quant
    &&& m.provider == run.provider
}

/// The samples of a pair are of that pair, and among all.
pub proof fn lemma_pair_within(all: Seq<Sample>, hw_key: u32, model_index: u32, x: Sample)
    requires
        of_pair(all, hw_key, model_index).contains(x),
    ensures
        all.contains(x),
        x.hw_key == hw_key,
        x.model_index == model_index,
    decreases all.len(),
{
    if all.len() > 0 {
        let rest = of_pair(all.drop_last(), hw_key, model_index);
        if rest.contains(x) {
            lemma_pair_within(all.drop_last(), hw_key, model_index, x);
            let i = choose|i: int| 0 <= i < all.drop_last().len() && all.drop_last()[i] == x;
            assert(all[i] == x);
        } else {
            assert(x == all.last());
        }
    }
}

/// What was recorded reaches the device: in a catalog packed with what was
/// ingested, every result that matched is found under its machine and model, as
/// the run with the median throughput of all that were recorded of that pair.
pub proof fn law_results_reach_the_device(
    models: Seq<&SourceModel>,
    all: Seq<Sample>,
    ms: Seq<PackedMeasurement>,
    fs: Seq<Factor>,
    s: Sample,
)
    requires
        measurements_of(ms, all),
        pack::packed_len(models, ms, fs) <= u32::MAX,
        all.contains(s),
        s.hw_key != 0,
    ensures
        catalog::parse_spec(pack::packed(models, ms, fs)) matches Ok(c) && c.measurement(
            s.hw_key,
            s.model_index,
        ) matches Some(found) && ({
            let m = measurement_for(all, s);
            &&& found.tps_x10 == m.tps_x10
            &&& found.ttft_ms == m.ttft_ms
            &&& found.quant == Quant::at(m.quant as nat)
            &&& found.runs == m.runs
            &&& found.provider == catalog::Provider::at(m.provider)
        }),
{
    pack::law_measurements_read_back(models, ms, fs, s.hw_key, s.model_index);
    let i = choose|i: int| 0 <= i < all.len() && all[i] == s;
    assert(ms.contains(measurement_for(all, all[i])));
    let k = choose|k: int| 0 <= k < ms.len() && ms[k] == measurement_for(all, s);
    assert(ms[k].hw_key == s.hw_key && ms[k].model_index == s.model_index);
    assert forall|j: int|
        0 <= j < ms.len() && (#[trigger] ms[j]).hw_key == s.hw_key && ms[j].model_index
            == s.model_index implies j == k by {
        if j < k {
            assert(pack::key_of(ms[j]) < pack::key_of(ms[k]));
        } else if k < j {
            assert(pack::key_of(ms[k]) < pack::key_of(ms[j]));
        }
    }
}

/// No measurement is made up: what a catalog packed with what was ingested says
/// of a machine and a model, somebody recorded of that very pair.
pub proof fn law_nothing_but_results_reaches_the_device(
    models: Seq<&SourceModel>,
    all: Seq<Sample>,
    ms: Seq<PackedMeasurement>,
    fs: Seq<Factor>,
    hw_key: u32,
    model_index: u32,
)
    requires
        measurements_of(ms, all),
        pack::packed_len(models, ms, fs) <= u32::MAX,
        hw_key != 0,
    ensures
        catalog::parse_spec(pack::packed(models, ms, fs)) matches Ok(c) && (c.measurement(
            hw_key,
            model_index,
        ) is Some ==> exists|i: int|
            0 <= i < all.len() && (#[trigger] all[i]).hw_key == hw_key && all[i].model_index
                == model_index),
{
    pack::law_measurements_read_back(models, ms, fs, hw_key, model_index);
    let c = pack::sections(models, ms, fs);
    pack::law_packed_catalogs_parse(models, ms, fs);
    if c.measurement(hw_key, model_index) is Some {
        let k = choose|k: int|
            0 <= k < ms.len() && (#[trigger] ms[k]).hw_key == hw_key && ms[k].model_index
                == model_index;
        assert(measures(ms[k], all, all.len() as int));
        let i = choose|i: int|
            0 <= i < all.len() && ms[k] == measurement_for(all, #[trigger] all[i]);
        assert(all[i].hw_key == hw_key && all[i].model_index == model_index);
    }
}

/// A correction factor rests on at least two results of that machine, and lies
/// between a twentieth and five.
pub proof fn law_factors_rest_on_results(all: Seq<Sample>, fs: Seq<Factor>, k: int)
    requires
        factors_of(fs, all),
        0 <= k < fs.len(),
    ensures
        50 <= fs[k].1 <= 5000,
        2 <= fs[k].2,
        fs[k].2 <= ratios(all, fs[k].0).len(),
{
    assert(corrects(fs[k], all, all.len() as int));
}

/// Every result with a machine is counted once: it matched a model, or it is in
/// the tally of those that did not, or it states no throughput.
pub proof fn law_results_are_accounted_for(c: CatalogData, subs: Seq<Submission>, n: nat)
    requires
        n <= subs.len(),
    ensures
        samples(c, subs, n).len() + misses(c, subs, n).len() + silent(subs, n) == result_count(
            subs,
            n,
        ),
    decreases n,
{
    if n > 0 {
        law_results_are_accounted_for(c, subs, (n - 1) as nat);
        let sub = subs[n - 1];
        match community::machine_spec(sub.hardware) {
            Some(m) => {
                lemma_accounted(c, m, sub.results@, sub.results@.len());
            },
            None => {},
        }
    }
}

/// How many of the first `n` results state no throughput.
pub open spec fn silent_of(rs: Seq<SubmittedResult>, n: nat) -> nat
    decreases n,
{
    if n == 0 {
        0
    } else {
        silent_of(rs, (n - 1) as nat) + if stated(rs[n - 1]) is None {
            1nat
        } else {
            0nat
        }
    }
}

/// How many results of the first `n` submissions state no throughput.
pub open spec fn silent(subs: Seq<Submission>, n: nat) -> nat
    decreases n,
{
    if n == 0 {
        0
    } else {
        silent(subs, (n - 1) as nat) + if community::machine_spec(subs[n - 1].hardware) is Some {
            silent_of(subs[n - 1].results@, subs[n - 1].results@.len())
        } else {
            0
        }
    }
}

proof fn lemma_accounted(c: CatalogData, m: MachineData, rs: Seq<SubmittedResult>, n: nat)
    ensures
        samples_of(c, m, rs, n).len() + misses_of(c, rs, n).len() + silent_of(rs, n) == n,
    decreases n,
{
    if n > 0 {
        lemma_accounted(c, m, rs, (n - 1) as nat);
    }
}

/// Samples leave no choice: the measurements and the factors that they come to
/// are these and no others.
pub proof fn law_ingestion_is_determined(
    all: Seq<Sample>,
    ms: Seq<PackedMeasurement>,
    other_ms: Seq<PackedMeasurement>,
    fs: Seq<Factor>,
    other_fs: Seq<Factor>,
)
    ensures
        measurements_of(ms, all) && measurements_of(other_ms, all) ==> ms == other_ms,
        factors_of(fs, all) && factors_of(other_fs, all) ==> fs == other_fs,
{
    if measurements_of(ms, all) && measurements_of(other_ms, all) {
        assert forall|m: PackedMeasurement| ms.contains(m) implies other_ms.contains(m) by {
            let k = choose|k: int| 0 <= k < ms.len() && ms[k] == m;
            assert(measures(ms[k], all, all.len() as int));
        }
        assert forall|m: PackedMeasurement| other_ms.contains(m) implies ms.contains(m) by {
            let k = choose|k: int| 0 <= k < other_ms.len() && other_ms[k] == m;
            assert(measures(other_ms[k], all, all.len() as int));
        }
        lemma_same_ascent(ms, other_ms, |m: PackedMeasurement| pack::key_of(m));
    }
    if factors_of(fs, all) && factors_of(other_fs, all) {
        assert forall|f: Factor| fs.contains(f) implies other_fs.contains(f) by {
            let k = choose|k: int| 0 <= k < fs.len() && fs[k] == f;
            assert(corrects(fs[k], all, all.len() as int));
        }
        assert forall|f: Factor| other_fs.contains(f) implies fs.contains(f) by {
            let k = choose|k: int| 0 <= k < other_fs.len() && other_fs[k] == f;
            assert(corrects(other_fs[k], all, all.len() as int));
        }
        lemma_same_ascent(fs, other_fs, |f: Factor| f.0 as int);
    }
}

/// Two sequences with the same members that both ascend are the same.
proof fn lemma_same_ascent<T>(a: Seq<T>, b: Seq<T>, key: spec_fn(T) -> int)
    requires
        forall|i: int, j: int| 0 <= i < j < a.len() ==> key(#[trigger] a[i]) < key(#[trigger] a[j]),
        forall|i: int, j: int| 0 <= i < j < b.len() ==> key(#[trigger] b[i]) < key(#[trigger] b[j]),
        forall|x: T| #[trigger] a.contains(x) <==> b.contains(x),
    ensures
        a == b,
    decreases a.len(),
{
    if a.len() == 0 {
        if b.len() > 0 {
            assert(b.contains(b[0]));
            assert(a.contains(b[0]));
        }
        assert(a =~= b);
    } else {
        assert(a.contains(a.last()));
        assert(b.contains(a.last()));
        assert(b.contains(b.last()));
        assert(a.contains(b.last()));
        let i = choose|i: int| 0 <= i < b.len() && b[i] == a.last();
        let j = choose|j: int| 0 <= j < a.len() && a[j] == b.last();
        if i < b.len() - 1 {
            assert(key(b[i]) < key(b[b.len() - 1]));
            if j < a.len() - 1 {
                assert(key(a[j]) < key(a[a.len() - 1]));
            }
        }
        assert(a.last() == b.last());
        let (x, y) = (a.drop_last(), b.drop_last());
        assert forall|v: T| #[trigger] x.contains(v) <==> y.contains(v) by {
            if x.contains(v) {
                let p = choose|p: int| 0 <= p < x.len() && x[p] == v;
                assert(a[p] == v);
                assert(a.contains(v));
                let q = choose|q: int| 0 <= q < b.len() && b[q] == v;
                assert(key(a[p]) < key(a[a.len() - 1]));
                assert(y[q] == v);
            }
            if y.contains(v) {
                let p = choose|p: int| 0 <= p < y.len() && y[p] == v;
                assert(b[p] == v);
                assert(b.contains(v));
                assert(a.contains(v));
                let q = choose|q: int| 0 <= q < a.len() && a[q] == v;
                assert(key(b[p]) < key(b[b.len() - 1]));
                assert(x[q] == v);
            }
        }
        lemma_same_ascent(x, y, key);
        assert(a =~= x.push(a.last()));
        assert(b =~= y.push(b.last()));
    }
}

} // verus!
