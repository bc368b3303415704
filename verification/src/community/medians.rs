//! Which of many results counts.

use vstd::multiset::*;
use vstd::prelude::*;

use crate::community::gather;
use crate::community::gather::Sample;
use crate::float::Double;
use crate::pack::PackedMeasurement;
use crate::sort;

verus! {

/// What fails for all from a place on holds for no more than stand before it.
proof fn lemma_before<T>(s: Seq<T>, p: spec_fn(T) -> bool, k: nat)
    requires
        forall|i: int| k <= i < s.len() ==> !p(#[trigger] s[i]),
    ensures
        s.to_multiset().filter(p).len() <= k,
    decreases s.len(),
{
    broadcast use vstd::seq_lib::group_to_multiset_ensures;

    let kept = s.to_multiset().filter(p);
    if s.len() == 0 {
        assert(s.to_multiset() =~= Multiset::empty());
        assert(kept =~= Multiset::empty());
    } else {
        let rest = s.drop_last();
        let before = rest.to_multiset().filter(p);
        assert(s =~= rest.push(s.last()));
        assert(s.to_multiset() =~= rest.to_multiset().insert(s.last()));
        if p(s.last()) {
            assert(kept =~= before.insert(s.last()));
            lemma_before(rest, p, (k - 1) as nat);
        } else {
            assert(kept =~= before);
            lemma_before(rest, p, k);
        }
    }
}

/// What fails for all up to a place holds for no more than stand behind it.
proof fn lemma_behind<T>(s: Seq<T>, p: spec_fn(T) -> bool, k: nat)
    requires
        k <= s.len(),
        forall|i: int| 0 <= i < k ==> !p(#[trigger] s[i]),
    ensures
        s.to_multiset().filter(p).len() <= s.len() - k,
    decreases s.len(),
{
    broadcast use vstd::seq_lib::group_to_multiset_ensures;

    let kept = s.to_multiset().filter(p);
    if s.len() == k {
        lemma_before(s, p, 0);
    } else {
        let rest = s.drop_last();
        let before = rest.to_multiset().filter(p);
        assert(s =~= rest.push(s.last()));
        assert(s.to_multiset() =~= rest.to_multiset().insert(s.last()));
        lemma_behind(rest, p, k);
        if p(s.last()) {
            assert(kept =~= before.insert(s.last()));
        } else {
            assert(kept =~= before);
        }
    }
}

/// The results of a pair are all that are of it.
proof fn lemma_of_pair(all: Seq<Sample>, hw_key: u32, model_index: u32)
    ensures
        gather::of_pair(all, hw_key, model_index).to_multiset() == all.to_multiset().filter(
            |x: Sample| x.hw_key == hw_key && x.model_index == model_index,
        ),
    decreases all.len(),
{
    broadcast use vstd::seq_lib::group_to_multiset_ensures;

    let p = |x: Sample| x.hw_key == hw_key && x.model_index == model_index;
    let group = gather::of_pair(all, hw_key, model_index);
    if all.len() == 0 {
        assert(all.to_multiset() =~= Multiset::empty());
        assert(group.to_multiset() =~= Multiset::empty());
        assert(all.to_multiset().filter(p) =~= Multiset::empty());
    } else {
        let rest = all.drop_last();
        lemma_of_pair(rest, hw_key, model_index);
        assert(all =~= rest.push(all.last()));
        assert(all.to_multiset() =~= rest.to_multiset().insert(all.last()));
        if p(all.last()) {
            assert(all.to_multiset().filter(p) =~= rest.to_multiset().filter(p).insert(
                all.last(),
            ));
        } else {
            assert(all.to_multiset().filter(p) =~= rest.to_multiset().filter(p));
        }
    }
}

/// Whether a measurement has the figures of a result that stands in the middle of
/// all of the same machine and model: no more than half of them are slower, and
/// fewer than half are faster.
pub open spec fn is_of_the_middle(m: PackedMeasurement, all: Seq<Sample>, run: Sample) -> bool {
    let group = all.to_multiset().filter(
        |x: Sample| x.hw_key == run.hw_key && x.model_index == run.model_index,
    );
    &&& all.contains(run)
    &&& gather::is_of_run(m, run)
    &&& 2 * group.filter(|x: Sample| x.tps.rank() < run.tps.rank()).len() <= group.len()
    &&& 2 * group.filter(|x: Sample| x.tps.rank() > run.tps.rank()).len() < group.len()
}

/// Of all results of a machine and a model, the one in the middle counts.
pub proof fn law_the_result_in_the_middle_counts(all: Seq<Sample>, s: Sample)
    requires
        all.contains(s),
    ensures
        exists|run: Sample|
            #[trigger] is_of_the_middle(gather::measurement_for(all, s), all, run),
{
    let group = gather::of_pair(all, s.hw_key, s.model_index);
    let sorted = sort::sorted(group);
    gather::lemma_pair_has(all, s);
    sort::law_sorted_is_in_order(group);
    sort::law_sorted_is_a_permutation(group);
    lemma_of_pair(all, s.hw_key, s.model_index);
    let k = (sorted.len() / 2) as int;
    broadcast use vstd::seq_lib::group_to_multiset_ensures;

    assert(sorted.to_multiset().len() == sorted.len());
    assert(group.to_multiset().len() == group.len());
    let middle = sorted[k];
    assert(sorted.contains(middle));
    assert(sorted.to_multiset().count(middle) > 0);
    assert(group.contains(middle));
    gather::lemma_pair_within(all, s.hw_key, s.model_index, middle);
    let (slower, faster) = (
        |x: Sample| x.tps.rank() < middle.tps.rank(),
        |x: Sample| x.tps.rank() > middle.tps.rank(),
    );
    assert forall|i: int| k <= i < sorted.len() implies !slower(#[trigger] sorted[i]) by {
        if i > k {
            assert(!sort::Ranked::precedes(sorted[i], sorted[k]));
        }
    }
    assert forall|i: int| 0 <= i < k + 1 implies !faster(#[trigger] sorted[i]) by {
        if i < k {
            assert(!sort::Ranked::precedes(sorted[k], sorted[i]));
        }
    }
    lemma_before(sorted, slower, k as nat);
    lemma_behind(sorted, faster, (k + 1) as nat);
    let pair = |x: Sample| x.hw_key == s.hw_key && x.model_index == s.model_index;
    assert(all.to_multiset().filter(pair) == all.to_multiset().filter(
        |x: Sample| x.hw_key == middle.hw_key && x.model_index == middle.model_index,
    ));
    assert(is_of_the_middle(gather::measurement_for(all, s), all, middle));
}

/// Whether a factor is that of a ratio in the middle of all: no more than half of
/// them are lower, and fewer than half are higher. It is in thousandths to the
/// nearest, between fifty and five thousand of them.
pub open spec fn is_of_the_middle_ratio(f: gather::Factor, found: Seq<Double>, r: Double) -> bool {
    let n = r.mul_spec(Double::nearest(1000, 1)).round_spec(65_535);
    let all = found.to_multiset();
    &&& found.contains(r)
    &&& 2 * all.filter(|x: Double| x.rank() < r.rank()).len() <= found.len()
    &&& 2 * all.filter(|x: Double| x.rank() > r.rank()).len() < found.len()
    &&& 50 <= n <= 5000 ==> f.1 == n
    &&& n < 50 ==> f.1 == 50
    &&& n > 5000 ==> f.1 == 5000
    &&& found.len() <= 255 ==> f.2 == found.len()
    &&& found.len() > 255 ==> f.2 == 255
}

/// Of all credible ratios of a machine, the one in the middle makes its factor.
pub proof fn law_the_ratio_in_the_middle_counts(found: Seq<Double>, hw_key: u32)
    requires
        found.len() > 0,
    ensures
        gather::calibrated(hw_key, found).0 == hw_key,
        exists|r: Double|
            #[trigger] is_of_the_middle_ratio(gather::calibrated(hw_key, found), found, r),
{
    let sorted = sort::sorted(found);
    sort::law_sorted_is_in_order(found);
    sort::law_sorted_is_a_permutation(found);
    broadcast use vstd::seq_lib::group_to_multiset_ensures;

    assert(sorted.to_multiset().len() == sorted.len());
    assert(found.to_multiset().len() == found.len());
    let k = (found.len() / 2) as int;
    let middle = sorted[k];
    assert(sorted.contains(middle));
    assert(sorted.to_multiset().count(middle) > 0);
    assert(found.contains(middle));
    let (slower, faster) = (
        |x: Double| x.rank() < middle.rank(),
        |x: Double| x.rank() > middle.rank(),
    );
    assert forall|i: int| k <= i < sorted.len() implies !slower(#[trigger] sorted[i]) by {
        if i > k {
            assert(!sort::Ranked::precedes(sorted[i], sorted[k]));
        }
    }
    assert forall|i: int| 0 <= i < k + 1 implies !faster(#[trigger] sorted[i]) by {
        if i < k {
            assert(!sort::Ranked::precedes(sorted[k], sorted[i]));
        }
    }
    lemma_before(sorted, slower, k as nat);
    lemma_behind(sorted, faster, (k + 1) as nat);
    assert(middle.mul_spec(Double::nearest(1000, 1)).round_spec(65_535) <= 65_535) by {
        reveal(Double::round_spec);
    }
    assert(is_of_the_middle_ratio(gather::calibrated(hw_key, found), found, middle));
}

} // verus!
