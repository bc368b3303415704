//! What a ranking lists, and in which order.

use vstd::prelude::*;

use crate::catalog::names;
use crate::catalog::{CatalogData, ModelData, UseCase};
use crate::fit;
use crate::fit::{Opts, Verdict};
use crate::hardware::Hardware;
use crate::recommend;
use crate::recommend::{Filter, RecData};
use crate::score;
use crate::speed;

verus! {

/// What a filter admits, for every recommendation: as good a fit as asked for or a
/// better one, and where nothing is asked whatever runs; of the use case; with as
/// many tokens a second and as much context as asked for at least; and with no more
/// parameters.
pub proof fn law_what_a_filter_admits(filter: Filter, rec: RecData)
    ensures
        filter.admits_spec(rec) <==> {
            let (perfect, good, marginal) = (
                rec.fit.verdict == Verdict::Perfect,
                rec.fit.verdict == Verdict::Good,
                rec.fit.verdict == Verdict::Marginal,
            );
            &&& match filter.min_verdict {
                None => perfect || good || marginal,
                Some(Verdict::Perfect) => perfect,
                Some(Verdict::Good) => perfect || good,
                Some(Verdict::Marginal) => perfect || good || marginal,
                Some(Verdict::TooTight) => true,
            }
            &&& filter.use_case matches Some(u) ==> rec.model.use_case() == u
            &&& filter.min_tps matches Some(t) ==> rec.speed.decode_tps_x10 >= 10 * t
            &&& filter.min_context matches Some(t) ==> rec.fit.usable_context >= t
            &&& filter.max_params_m matches Some(p) ==> rec.model.params_m() <= p
        },
{
}

/// Every entry of a ranking meets every criterion that was given: it is at least
/// as good a fit as asked for, and runs where nothing is asked; it is for the
/// use case, decodes as fast, holds the context, and is no larger.
pub proof fn law_listed_models_meet_every_criterion(
    c: CatalogData,
    hw: Hardware,
    opts: Opts,
    filter: Filter,
    cap: nat,
    n: nat,
    k: int,
)
    requires
        cap > 0,
        0 <= k < recommend::ranked(c, hw, opts, filter, cap, n).len(),
    ensures
        ({
            let rec = recommend::ranked(c, hw, opts, filter, cap, n)[k];
            let verdict = rec.fit.verdict;
            &&& filter.min_verdict matches Some(v) ==> verdict.rank() >= v.rank()
            &&& filter.min_verdict == Some(Verdict::Perfect) ==> verdict == Verdict::Perfect
            &&& filter.min_verdict == Some(Verdict::Good) ==> verdict == Verdict::Perfect
                || verdict == Verdict::Good
            &&& filter.min_verdict == Some(Verdict::Marginal) ==> verdict != Verdict::TooTight
            &&& filter.min_verdict is None ==> verdict != Verdict::TooTight
            &&& filter.use_case matches Some(u) ==> rec.model.use_case() == u
            &&& filter.min_tps matches Some(t) ==> rec.speed.decode_tps_x10 >= 10 * t
            &&& filter.min_context matches Some(t) ==> rec.fit.usable_context >= t
            &&& filter.max_params_m matches Some(p) ==> rec.model.params_m() <= p
        }),
{
    recommend::law_every_entry_is_of_the_catalog(c, hw, opts, filter, cap, n, k);
    law_what_a_filter_admits(filter, recommend::ranked(c, hw, opts, filter, cap, n)[k]);
}

/// A model of the catalog that meets every criterion has its place: the ranking
/// lists the same weights, and no worse, or is full of what is no worse.
pub proof fn law_models_that_meet_every_criterion_are_listed(
    c: CatalogData,
    hw: Hardware,
    opts: Opts,
    filter: Filter,
    cap: nat,
    n: nat,
    i: nat,
)
    requires
        cap > 0,
        i < n,
        ({
            let rec = recommend::evaluated(c, c.model(i), hw, opts);
            let verdict = rec.fit.verdict;
            &&& match filter.min_verdict {
                Some(Verdict::Perfect) => verdict == Verdict::Perfect,
                Some(Verdict::Good) => verdict == Verdict::Perfect || verdict == Verdict::Good,
                Some(Verdict::TooTight) => true,
                _ => verdict != Verdict::TooTight,
            }
            &&& filter.use_case matches Some(u) ==> c.model(i).use_case() == u
            &&& filter.min_tps matches Some(t) ==> rec.speed.decode_tps_x10 >= 10 * t
            &&& filter.min_context matches Some(t) ==> rec.fit.usable_context >= t
            &&& filter.max_params_m matches Some(p) ==> c.model(i).params_m() <= p
        }),
    ensures
        ({
            let rec = recommend::evaluated(c, c.model(i), hw, opts);
            let top = recommend::ranked(c, hw, opts, filter, cap, n);
            let no_worse = |other: RecData|
                {
                    ||| rec.fit.verdict == Verdict::TooTight && other.fit.verdict
                        != Verdict::TooTight
                    ||| {
                        &&& rec.fit.verdict == Verdict::TooTight <==> other.fit.verdict
                            == Verdict::TooTight
                        &&& other.scores.composite >= rec.scores.composite
                    }
                };
            ||| exists|k: int|
                0 <= k < top.len() && names::same_weights_spec(
                    (#[trigger] top[k]).model.name(),
                    rec.model.name(),
                ) && no_worse(top[k])
            ||| top.len() == cap && forall|k: int|
                0 <= k < top.len() ==> no_worse(#[trigger] top[k])
        }),
{
    reveal(recommend::of_same_weights);
    let rec = recommend::evaluated(c, c.model(i), hw, opts);
    let top = recommend::ranked(c, hw, opts, filter, cap, n);
    law_what_a_filter_admits(filter, rec);
    recommend::law_the_best_are_kept(c, hw, opts, filter, cap, n, i);
    if exists|k: int|
        0 <= k < top.len() && recommend::of_same_weights(#[trigger] top[k], rec)
            && !recommend::ranks_over(rec, top[k]) {
        let k = choose|k: int|
            0 <= k < top.len() && recommend::of_same_weights(#[trigger] top[k], rec)
                && !recommend::ranks_over(rec, top[k]);
        assert(names::same_weights_spec(top[k].model.name(), rec.model.name()));
    }
}

/// A ranking runs from the best to the worst: what does not run comes after
/// everything that does, and among the rest the composite never rises. No weights
/// are listed twice, and there are no more entries than asked for.
pub proof fn law_rankings_run_from_best_to_worst(
    c: CatalogData,
    hw: Hardware,
    opts: Opts,
    filter: Filter,
    cap: nat,
    n: nat,
    a: int,
    b: int,
)
    requires
        cap > 0,
        0 <= a < b < recommend::ranked(c, hw, opts, filter, cap, n).len(),
    ensures
        ({
            let top = recommend::ranked(c, hw, opts, filter, cap, n);
            let (x, y) = (top[a], top[b]);
            &&& x.fit.verdict == Verdict::TooTight ==> y.fit.verdict == Verdict::TooTight
            &&& (x.fit.verdict == Verdict::TooTight <==> y.fit.verdict == Verdict::TooTight)
                ==> x.scores.composite >= y.scores.composite
            &&& !names::same_weights_spec(x.model.name(), y.model.name())
            &&& top.len() <= cap
        }),
{
    reveal(recommend::of_same_weights);
    recommend::law_rankings_are_sorted_and_distinct(c, hw, opts, filter, cap, n);
    let top = recommend::ranked(c, hw, opts, filter, cap, n);
    assert(!recommend::ranks_over(top[b], top[a]));
    assert(!recommend::of_same_weights(top[a], top[b]));
}

/// Every entry is a model of the catalog, set against the machine under the
/// caller's options, with the throughput of that fit and the scores of both.
pub proof fn law_entries_are_of_one_piece(
    c: CatalogData,
    hw: Hardware,
    opts: Opts,
    filter: Filter,
    cap: nat,
    n: nat,
    k: int,
)
    requires
        cap > 0,
        0 <= k < recommend::ranked(c, hw, opts, filter, cap, n).len(),
    ensures
        ({
            let rec = recommend::ranked(c, hw, opts, filter, cap, n)[k];
            &&& exists|i: nat| i < n && rec.model == #[trigger] c.model(i)
            &&& rec.fit == fit::evaluate_spec(rec.model, hw, opts)
            &&& rec.speed == speed::informed_spec(c, rec.model, hw, rec.fit, opts.efficiency)
            &&& opts.use_case matches Some(u) ==> rec.scores == score::score_spec(
                rec.model,
                rec.fit,
                rec.speed,
                u,
            )
            &&& opts.use_case is None ==> rec.scores == score::score_spec(
                rec.model,
                rec.fit,
                rec.speed,
                rec.model.use_case(),
            )
        }),
{
    recommend::law_every_entry_is_of_the_catalog(c, hw, opts, filter, cap, n, k);
    let rec = recommend::ranked(c, hw, opts, filter, cap, n)[k];
    let i = choose|i: nat| i < n && rec == recommend::evaluated(c, #[trigger] c.model(i), hw, opts);
    assert(rec.model == c.model(i));
}

/// A use case that is asked for weighs every model alike, whatever each is for;
/// asking for a model's own use case is asking for none. Neither moves its fit or
/// its throughput.
pub proof fn law_a_use_case_reweighs_and_moves_nothing(
    c: CatalogData,
    model: ModelData,
    hw: Hardware,
    opts: Opts,
    use_case: UseCase,
)
    requires
        opts.use_case is None,
    ensures
        ({
            let plain = recommend::evaluated(c, model, hw, opts);
            let asked = recommend::evaluated(
                c,
                model,
                hw,
                Opts { use_case: Some(use_case), ..opts },
            );
            &&& asked.fit == plain.fit
            &&& asked.speed == plain.speed
            &&& asked.model == model
            &&& use_case == model.use_case() ==> asked == plain
        }),
{
    let asked = Opts { use_case: Some(use_case), ..opts };
    lemma_use_case_leaves_fits(model, hw, opts, asked);
}

/// The use case is no part of how a model fits.
proof fn lemma_use_case_leaves_fits(model: ModelData, hw: Hardware, a: Opts, b: Opts)
    requires
        b == (Opts { use_case: b.use_case, ..a }),
    ensures
        fit::evaluate_spec(model, hw, a) == fit::evaluate_spec(model, hw, b),
{
    reveal(fit::fit_at);
    let requested = fit::requested_context(model, a);
    lemma_same_walk(model, hw, a, b, requested, 0);
    lemma_same_walk(model, hw, a, b, requested / 2, 0);
}

proof fn lemma_same_walk(
    model: ModelData,
    hw: Hardware,
    a: Opts,
    b: Opts,
    context: u32,
    rank: nat,
)
    requires
        b == (Opts { use_case: b.use_case, ..a }),
        rank <= 7,
    ensures
        fit::first_fit(model, hw, a, context, rank) == fit::first_fit(
            model,
            hw,
            b,
            context,
            rank,
        ),
    decreases 7 - rank,
{
    if rank < 7 {
        reveal(fit::fit_at);
        lemma_same_walk(model, hw, a, b, context, rank + 1);
    }
}

} // verus!
