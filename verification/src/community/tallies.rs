//! What all results come to together.

use vstd::prelude::*;
use vstd::utf8::*;

use crate::catalog::CatalogData;
use crate::community;
use crate::community::gather;
use crate::community::gather::{Factor, Ingested, Sample};
use crate::community::{MachineData, Submission, SubmittedResult};

verus! {

/// Every result of every submission with a machine counts: what it says is among
/// the samples, or its key among those that matched nothing.
pub proof fn law_every_result_counts(c: CatalogData, subs: Seq<Submission>, i: int, k: int)
    requires
        0 <= i < subs.len(),
        0 <= k < subs[i].results@.len(),
        community::machine_spec(subs[i].hardware) is Some,
    ensures
        ({
            let m = community::machine_spec(subs[i].hardware)->0;
            let r = subs[i].results@[k];
            let n = subs.len();
            &&& gather::sample_spec(c, m, r) matches Some(s) ==> gather::samples(
                c,
                subs,
                n,
            ).contains(s)
            &&& gather::missed(c, r) matches Some(key) ==> gather::misses(c, subs, n).contains(key)
            &&& gather::machines(subs, n).contains(m.key)
        }),
{
    lemma_counts(c, subs, subs.len(), i, k);
}

proof fn lemma_counts(c: CatalogData, subs: Seq<Submission>, n: nat, i: int, k: int)
    requires
        0 <= i < n <= subs.len(),
        0 <= k < subs[i].results@.len(),
        community::machine_spec(subs[i].hardware) is Some,
    ensures
        ({
            let m = community::machine_spec(subs[i].hardware)->0;
            let r = subs[i].results@[k];
            &&& gather::sample_spec(c, m, r) matches Some(s) ==> gather::samples(
                c,
                subs,
                n,
            ).contains(s)
            &&& gather::missed(c, r) matches Some(key) ==> gather::misses(c, subs, n).contains(key)
            &&& gather::machines(subs, n).contains(m.key)
        }),
    decreases n,
{
    let m = community::machine_spec(subs[i].hardware)->0;
    let r = subs[i].results@[k];
    let sub = subs[n - 1];
    let (before, lost) = (
        gather::samples(c, subs, (n - 1) as nat),
        gather::misses(c, subs, (n - 1) as nat),
    );
    let (now, gone) = (gather::samples(c, subs, n), gather::misses(c, subs, n));
    assert(before.is_prefix_of(now));
    assert(lost.is_prefix_of(gone));
    if i < n - 1 {
        lemma_counts(c, subs, (n - 1) as nat, i, k);
        if let Some(s) = gather::sample_spec(c, m, r) {
            let at = choose|at: int| 0 <= at < before.len() && before[at] == s;
            assert(now[at] == s);
        }
        if let Some(key) = gather::missed(c, r) {
            let at = choose|at: int| 0 <= at < lost.len() && lost[at] == key;
            assert(gone[at] == key);
        }
    } else {
        let count = sub.results@.len();
        lemma_results(c, m, sub.results@, count, k);
        let (own, own_lost) = (
            gather::samples_of(c, m, sub.results@, count),
            gather::misses_of(c, sub.results@, count),
        );
        if let Some(s) = gather::sample_spec(c, m, r) {
            let at = choose|at: int| 0 <= at < own.len() && own[at] == s;
            assert(now[before.len() + at] == s);
        }
        if let Some(key) = gather::missed(c, r) {
            let at = choose|at: int| 0 <= at < own_lost.len() && own_lost[at] == key;
            assert(gone[lost.len() + at] == key);
        }
    }
}

proof fn lemma_results(
    c: CatalogData,
    m: MachineData,
    rs: Seq<SubmittedResult>,
    n: nat,
    k: int,
)
    requires
        0 <= k < n <= rs.len(),
    ensures
        gather::sample_spec(c, m, rs[k]) matches Some(s) ==> gather::samples_of(
            c,
            m,
            rs,
            n,
        ).contains(s),
        gather::missed(c, rs[k]) matches Some(key) ==> gather::misses_of(c, rs, n).contains(key),
    decreases n,
{
    let (before, lost) = (
        gather::samples_of(c, m, rs, (n - 1) as nat),
        gather::misses_of(c, rs, (n - 1) as nat),
    );
    let (now, gone) = (gather::samples_of(c, m, rs, n), gather::misses_of(c, rs, n));
    if k < n - 1 {
        lemma_results(c, m, rs, (n - 1) as nat, k);
        if let Some(s) = gather::sample_spec(c, m, rs[k]) {
            let at = choose|at: int| 0 <= at < before.len() && before[at] == s;
            assert(now[at] == s);
        }
        if let Some(key) = gather::missed(c, rs[k]) {
            let at = choose|at: int| 0 <= at < lost.len() && lost[at] == key;
            assert(gone[at] == key);
        }
    } else {
        if let Some(s) = gather::sample_spec(c, m, rs[k]) {
            assert(now.last() == s);
        }
        if let Some(key) = gather::missed(c, rs[k]) {
            assert(gone.last() == key);
        }
    }
}

/// The ratios of a machine are those of its credible results, and the runs behind
/// a measurement those of all its results, as far as 255.
pub proof fn law_results_add_up(all: Seq<Sample>, s: Sample, hw_key: u32, model_index: u32)
    ensures
        s.hw_key == hw_key && s.ratio is Some ==> gather::ratios(all.push(s), hw_key)
            == gather::ratios(all, hw_key).push(s.ratio->0),
        s.hw_key != hw_key || s.ratio is None ==> gather::ratios(all.push(s), hw_key)
            == gather::ratios(all, hw_key),
        s.hw_key == hw_key && s.model_index == model_index ==> gather::of_pair(
            all.push(s),
            hw_key,
            model_index,
        ) == gather::of_pair(all, hw_key, model_index).push(s),
        s.hw_key != hw_key || s.model_index != model_index ==> gather::of_pair(
            all.push(s),
            hw_key,
            model_index,
        ) == gather::of_pair(all, hw_key, model_index),
        gather::runs(all.push(s)) == gather::runs(all) + s.runs,
        gather::runs(Seq::<Sample>::empty()) == 0,
        ({
            let behind = gather::runs(gather::of_pair(all, s.hw_key, s.model_index));
            let m = gather::measurement_for(all, s);
            &&& behind <= 255 ==> m.runs == behind
            &&& behind > 255 ==> m.runs == 255
        }),
{
    assert(all.push(s).drop_last() =~= all);
}

/// Two credible results of a machine make a factor, and one alone does not: a
/// machine has a factor exactly where it has two.
pub proof fn law_two_results_make_a_factor(all: Seq<Sample>, fs: Seq<Factor>, i: int, k: int)
    requires
        gather::factors_of(fs, all),
    ensures
        0 <= i < all.len() && gather::ratios(all, all[i].hw_key).len() >= 2 ==> exists|j: int|
            0 <= j < fs.len() && (#[trigger] fs[j]).0 == all[i].hw_key,
        0 <= k < fs.len() ==> gather::ratios(all, fs[k].0).len() >= 2,
{
    if 0 <= i < all.len() && gather::ratios(all, all[i].hw_key).len() >= 2 {
        let f = gather::factor_for(all, all[i].hw_key);
        assert(fs.contains(f));
        let j = choose|j: int| 0 <= j < fs.len() && fs[j] == f;
        assert(fs[j].0 == all[i].hw_key);
    }
    if 0 <= k < fs.len() {
        assert(gather::corrects(fs[k], all, all.len() as int));
    }
}

/// What matched nothing is told once each, with how often it came, the most
/// frequent first.
pub proof fn law_what_matched_nothing_is_told(
    c: CatalogData,
    subs: Seq<Submission>,
    r: Ingested,
    a: int,
    b: int,
    k: int,
)
    requires
        gather::ingested_from(r, c, subs),
    ensures
        ({
            let (us, keys) = (r.unmatched@, gather::misses(c, subs, subs.len()));
            let name = |at: int| encode_utf8(us[at].0@);
            &&& 0 <= a < b < us.len() ==> us[a].1 >= us[b].1 && name(a) != name(b)
            &&& 0 <= a < us.len() ==> us[a].1 == gather::occurrences(keys, name(a)) && us[a].1 > 0
            &&& 0 <= k < keys.len() ==> exists|at: int|
                0 <= at < us.len() && encode_utf8((#[trigger] us[at]).0@) == keys[k]
            &&& r.files == subs.len()
            &&& r.matched == gather::samples(c, subs, subs.len()).len()
        }),
{
    let (us, keys) = (r.unmatched@, gather::misses(c, subs, subs.len()));
    if 0 <= k < keys.len() {
        assert(gather::listed(us, keys[k]));
    }
    if 0 <= a < b < us.len() {
        assert(us[a].1 >= us[b].1);
    }
}

} // verus!
