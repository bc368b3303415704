//! Ranking: one model scored, and the best of a whole catalog.

use core::cmp::Ordering;

use vstd::prelude::*;

use crate::catalog::names;
use crate::catalog::{Catalog, CatalogData, Model, ModelData, UseCase};
use crate::fit;
use crate::fit::{Fit, Opts, Verdict};
use crate::hardware::Hardware;
use crate::score;
use crate::score::Scores;
use crate::speed;
use crate::speed::Speed;

pub mod criteria;

verus! {

/// Everything known of one model on one machine.
#[derive(Clone, Copy, Debug)]
pub struct Recommendation<'a> {
    pub model: Model<'a>,
    pub fit: Fit,
    pub speed: Speed,
    pub scores: Scores,
}

/// What a recommendation says.
pub struct RecData {
    pub model: ModelData,
    pub fit: Fit,
    pub speed: Speed,
    pub scores: Scores,
}

impl<'a> View for Recommendation<'a> {
    type V = RecData;

    open spec fn view(&self) -> RecData {
        RecData { model: self.model@, fit: self.fit, speed: self.speed, scores: self.scores }
    }
}

/// A model scored on a machine: the fit decides how many bytes move per token,
/// which decides the speed, which feeds the score.
pub open spec fn evaluated(c: CatalogData, model: ModelData, hw: Hardware, opts: Opts) -> RecData {
    let f = fit::evaluate_spec(model, hw, opts);
    let s = speed::informed_spec(c, model, hw, f, opts.efficiency);
    let use_case = match opts.use_case {
        Some(u) => u,
        None => model.use_case(),
    };
    RecData { model, fit: f, speed: s, scores: score::score_spec(model, f, s, use_case) }
}

/// Score one model. A use case the caller gives reweights every model, not just
/// those of that label.
pub fn evaluate_model<'a>(
    catalog: &Catalog<'_>,
    model: &Model<'a>,
    hw: &Hardware,
    opts: &Opts,
) -> (r: Recommendation<'a>)
    ensures
        r@ == evaluated(catalog@, model@, *hw, *opts),
{
    let f: Fit = fit::evaluate(model, hw, opts);
    let s: Speed = speed::estimate_with_catalog(catalog, model, hw, &f, opts.efficiency);
    let use_case: UseCase = match opts.use_case {
        Some(u) => u,
        None => model.use_case(),
    };
    let scores: Scores = score::score(model, &f, &s, use_case);
    Recommendation { model: *model, fit: f, speed: s, scores }
}

// --- what a ranking is ------------------------------------------------------

/// Whether one recommendation ranks above another.
pub open spec fn ranks_over(a: RecData, b: RecData) -> bool {
    score::above((a.fit, a.scores), (b.fit, b.scores))
}

/// Whether two recommendations are of the same weights.
#[verifier::opaque]
pub open spec fn of_same_weights(a: RecData, b: RecData) -> bool {
    names::same_weights_spec(a.model.name(), b.model.name())
}

/// Where a recommendation comes to stand when it moves up from `at` for as long
/// as it ranks above what is before it.
pub open spec fn risen(top: Seq<RecData>, rec: RecData, at: int) -> int
    decreases at,
{
    if at > 0 && ranks_over(rec, top[at - 1]) {
        risen(top, rec, at - 1)
    } else {
        at
    }
}

/// The first place in a ranking that holds these weights already.
pub open spec fn held_at(top: Seq<RecData>, rec: RecData, from: int) -> Option<int>
    decreases top.len() - from,
{
    if from < 0 || from >= top.len() {
        None
    } else if of_same_weights(top[from], rec) {
        Some(from)
    } else {
        held_at(top, rec, from + 1)
    }
}

/// A ranking of at most `cap` after one more recommendation: weights already
/// held are replaced if the new one ranks above them; otherwise it is put in
/// its place, and the last one drops out of a full ranking.
pub open spec fn pushed(top: Seq<RecData>, rec: RecData, cap: nat) -> Seq<RecData> {
    match held_at(top, rec, 0) {
        Some(i) => if ranks_over(rec, top[i]) {
            top.remove(i).insert(risen(top, rec, i), rec)
        } else {
            top
        },
        None => if top.len() >= cap && !ranks_over(rec, top[cap - 1]) {
            top
        } else {
            let at = if top.len() < cap {
                top.len() as int
            } else {
                cap - 1
            };
            top.take(at).insert(risen(top, rec, at), rec)
        },
    }
}

impl Filter {
    pub open spec fn admits_spec(self, rec: RecData) -> bool {
        &&& self.use_case matches Some(u) ==> rec.model.use_case() == u
        &&& match self.min_verdict {
            Some(v) => rec.fit.verdict.rank() >= v.rank(),
            None => rec.fit.verdict.runs(),
        }
        &&& self.min_tps matches Some(t) ==> rec.speed.decode_tps_x10 / 10 >= t
        &&& self.min_context matches Some(c) ==> rec.fit.usable_context >= c
        &&& self.max_params_m matches Some(p) ==> rec.model.params_m() <= p
    }
}

/// The ranking of the first `n` models of a catalog.
pub open spec fn ranked(
    c: CatalogData,
    hw: Hardware,
    opts: Opts,
    filter: Filter,
    cap: nat,
    n: nat,
) -> Seq<RecData>
    decreases n,
{
    if n == 0 {
        Seq::empty()
    } else {
        let before = ranked(c, hw, opts, filter, cap, (n - 1) as nat);
        let rec = evaluated(c, c.model((n - 1) as nat), hw, opts);
        if filter.admits_spec(rec) {
            pushed(before, rec, cap)
        } else {
            before
        }
    }
}

// --- the ranking ------------------------------------------------------------

/// The best `N` seen so far, in an array the caller owns: ranking a whole
/// catalog needs no heap.
pub struct TopN<'a, const N: usize> {
    items: [Option<Recommendation<'a>>; N],
    len: usize,
}

impl<'a, const N: usize> View for TopN<'a, N> {
    type V = Seq<RecData>;

    closed spec fn view(&self) -> Seq<RecData> {
        Seq::new(self.len as nat, |i: int| self.items@[i].unwrap()@)
    }
}

impl<'a, const N: usize> Default for TopN<'a, N> {
    fn default() -> (r: Self)
        ensures
            r@ == Seq::<RecData>::empty(),
    {
        Self::new()
    }
}

/// A walk over a ranking.
pub struct TopIter<'t, 'a, const N: usize> {
    top: &'t TopN<'a, N>,
    next: usize,
}

impl<'t, 'a, const N: usize> View for TopIter<'t, 'a, N> {
    type V = (Seq<RecData>, nat);

    closed spec fn view(&self) -> (Seq<RecData>, nat) {
        (self.top@, self.next as nat)
    }
}

impl<'t, 'a, const N: usize> TopIter<'t, 'a, N> {
    /// The next recommendation, if any is left.
    pub fn next(&mut self) -> (r: Option<&'t Recommendation<'a>>)
        ensures
            r is Some <==> old(self)@.1 < old(self)@.0.len(),
            r matches Some(x) ==> x@ == old(self)@.0[old(self)@.1 as int],
            final(self)@ == (
                old(self)@.0,
                old(self)@.1 + if r is Some {
                    1nat
                } else {
                    0nat
                },
            ),
    {
        if self.next >= self.top.len() {
            return None;
        }
        let item: Option<&'t Recommendation<'a>> = self.top.get(self.next);
        self.next = self.next + 1;
        item
    }
}

fn ranks_above(a: &Recommendation, b: &Recommendation) -> (r: bool)
    ensures
        r == ranks_over(a@, b@),
{
    match score::better((&a.fit, &a.scores), (&b.fit, &b.scores)) {
        Ordering::Less => true,
        _ => false,
    }
}

impl<'a, const N: usize> TopN<'a, N> {
    #[verifier::type_invariant]
    closed spec fn inv(self) -> bool {
        &&& self.len <= N
        &&& forall|i: int| 0 <= i < self.len ==> #[trigger] self.items@[i] is Some
    }

    pub fn new() -> (r: Self)
        ensures
            r@ == Seq::<RecData>::empty(),
    {
        let r: Self = TopN { items: [None; N], len: 0 };
        assert(r@ =~= Seq::empty());
        r
    }

    pub fn len(&self) -> (r: usize)
        ensures
            r == self@.len(),
            r <= N,
    {
        proof {
            use_type_invariant(self);
        }
        self.len
    }

    pub fn is_empty(&self) -> (r: bool)
        ensures
            r == (self@.len() == 0),
    {
        self.len == 0
    }

    /// The recommendation at a place, best first.
    pub fn get(&self, i: usize) -> (r: Option<&Recommendation<'a>>)
        ensures
            r is Some <==> i < self@.len(),
            r matches Some(x) ==> x@ == self@[i as int],
    {
        proof {
            use_type_invariant(self);
        }
        if i < self.len {
            self.items[i].as_ref()
        } else {
            None
        }
    }

    /// Walk over the ranking, best first.
    pub fn iter<'t>(&'t self) -> (r: TopIter<'t, 'a, N>)
        ensures
            r@ == (self@, 0nat),
    {
        TopIter { top: self, next: 0 }
    }

    fn find_same_weights(&self, rec: &Recommendation<'a>) -> (r: Option<usize>)
        ensures
            match r {
                Some(i) => held_at(self@, rec@, 0) == Some(i as int) && i < self@.len(),
                None => held_at(self@, rec@, 0) is None,
            },
    {
        proof {
            use_type_invariant(self);
        }
        let mut i: usize = 0;
        while i < self.len
            invariant
                i <= self.len,
                self.inv(),
                held_at(self@, rec@, 0) == held_at(self@, rec@, i as int),
            decreases self.len - i,
        {
            if let Some(held) = self.items[i].as_ref() {
                assert(held@ == self@[i as int]);
                proof {
                    reveal(of_same_weights);
                }
                if names::same_weights(held.model.name(), rec.model.name()) {
                    return Some(i);
                }
            }
            i = i + 1;
        }
        None
    }

    /// Insert if it ranks, drop it if it does not. Repackages of weights already
    /// held are collapsed: eight spellings of one model are not eight
    /// recommendations.
    pub fn push(&mut self, rec: Recommendation<'a>)
        requires
            N > 0,
        ensures
            final(self)@ == pushed(old(self)@, rec@, N as nat),
    {
        proof {
            use_type_invariant(&*self);
        }
        let ghost top: Seq<RecData> = self@;
        let (start, grows): (usize, bool) = match self.find_same_weights(&rec) {
            Some(slot) => {
                if let Some(held) = self.items[slot].as_ref() {
                    assert(held@ == top[slot as int]);
                    if !ranks_above(&rec, held) {
                        return;
                    }
                }
                (slot, false)
            },
            None => if self.len == N {
                if let Some(worst) = self.items[N - 1].as_ref() {
                    assert(worst@ == top[N - 1]);
                    if !ranks_above(&rec, worst) {
                        return;
                    }
                }
                (N - 1, false)
            } else {
                (self.len, true)
            },
        };
        let mut at: usize = start;
        let mut rising: bool = true;
        let ghost len: int = self.len as int;
        while rising && at > 0
            invariant
                at <= start < N,
                start <= len <= N,
                self.len == len,
                self.inv(),
                top.len() == len,
                risen(top, rec@, start as int) == if rising {
                    risen(top, rec@, at as int)
                } else {
                    at as int
                },
                forall|i: int| 0 <= i < at ==> (#[trigger] self.items@[i]).unwrap()@ == top[i],
                forall|i: int|
                    at < i <= start ==> (#[trigger] self.items@[i]) is Some
                        && self.items@[i].unwrap()@ == top[i - 1],
                forall|i: int|
                    start < i < len ==> (#[trigger] self.items@[i]).unwrap()@ == top[i],
                !rising && at > 0 ==> !ranks_over(rec@, top[at - 1]),
                at == start || self.items@[at as int] is Some,
            decreases at + if rising {
                    1int
                } else {
                    0int
                },
        {
            match self.items[at - 1] {
                Some(prev) => {
                    assert(prev@ == top[at - 1]);
                    if ranks_above(&rec, &prev) {
                        self.items[at] = Some(prev);
                        at = at - 1;
                    } else {
                        rising = false;
                    }
                },
                None => {
                    rising = false;
                },
            }
        }
        self.items[at] = Some(rec);
        if grows {
            self.len = self.len + 1;
        }
        proof {
            assert(at == risen(top, rec@, start as int));
            assert(self@ =~= pushed(top, rec@, N as nat));
        }
    }
}

/// What to keep while ranking. The default keeps everything that runs.
#[derive(Clone, Copy, PartialEq, Eq, Structural, Debug)]
pub struct Filter {
    pub use_case: Option<UseCase>,
    pub min_verdict: Option<Verdict>,
    /// Skip what decodes slower than this, tokens per second.
    pub min_tps: Option<u32>,
    /// Skip what has less usable context than this.
    pub min_context: Option<u32>,
    /// Skip models larger than this, in millions of parameters.
    pub max_params_m: Option<u32>,
}

impl Default for Filter {
    fn default() -> (r: Filter)
        ensures
            r == (Filter {
                use_case: None,
                min_verdict: None,
                min_tps: None,
                min_context: None,
                max_params_m: None,
            }),
    {
        Filter {
            use_case: None,
            min_verdict: None,
            min_tps: None,
            min_context: None,
            max_params_m: None,
        }
    }
}

impl Filter {
    pub fn admits(&self, rec: &Recommendation) -> (r: bool)
        ensures
            r == self.admits_spec(rec@),
    {
        if let Some(u) = self.use_case {
            if rec.model.use_case() != u {
                return false;
            }
        }
        match self.min_verdict {
            Some(v) => if rec.fit.verdict.level() < v.level() {
                return false;
            },
            None => if !rec.fit.verdict.runnable() {
                return false;
            },
        }
        if let Some(t) = self.min_tps {
            if rec.speed.decode_tps() < t {
                return false;
            }
        }
        if let Some(c) = self.min_context {
            if rec.fit.usable_context < c {
                return false;
            }
        }
        if let Some(p) = self.max_params_m {
            if rec.model.params_m() > p {
                return false;
            }
        }
        true
    }
}

/// Rank a whole catalog against one machine, keeping the best `N`: one pass, no
/// allocation.
pub fn recommend<'a, const N: usize>(
    catalog: &Catalog<'a>,
    hw: &Hardware,
    opts: &Opts,
    filter: &Filter,
) -> (r: TopN<'a, N>)
    requires
        N > 0,
    ensures
        r@ == ranked(catalog@, *hw, *opts, *filter, N as nat, catalog@.count),
{
    let mut top: TopN<'a, N> = TopN::new();
    let n: usize = catalog.len();
    let mut i: usize = 0;
    while i < n
        invariant
            N > 0,
            i <= n,
            n == catalog@.count,
            top@ == ranked(catalog@, *hw, *opts, *filter, N as nat, i as nat),
        decreases n - i,
    {
        if let Some(model) = catalog.get(i) {
            let rec: Recommendation<'a> = evaluate_model(catalog, &model, hw, opts);
            if filter.admits(&rec) {
                top.push(rec);
            }
        }
        i = i + 1;
    }
    top
}

// --- laws -------------------------------------------------------------------

/// No later entry ranks above an earlier one.
pub open spec fn in_order(top: Seq<RecData>) -> bool {
    forall|a: int, b: int|
        0 <= a < b < top.len() ==> !ranks_over(#[trigger] top[b], #[trigger] top[a])
}

/// No two entries are of the same weights.
pub open spec fn all_distinct(top: Seq<RecData>) -> bool {
    forall|a: int, b: int|
        0 <= a < b < top.len() ==> !of_same_weights(#[trigger] top[a], #[trigger] top[b])
}

/// Being of the same weights is an equivalence.
pub proof fn law_same_weights_is_an_equivalence(a: RecData, b: RecData, c: RecData)
    ensures
        of_same_weights(a, a),
        of_same_weights(a, b) ==> of_same_weights(b, a),
        of_same_weights(a, b) && of_same_weights(b, c) ==> of_same_weights(a, c),
{
    reveal(of_same_weights);
}

/// A recommendation has been done justice: its weights are listed at least as
/// well, or the list is full of what it does not rank above.
pub open spec fn accounted_for(top: Seq<RecData>, rec: RecData, cap: nat) -> bool {
    ||| exists|i: int|
        0 <= i < top.len() && of_same_weights(#[trigger] top[i], rec) && !ranks_over(rec, top[i])
    ||| top.len() == cap && forall|i: int|
        0 <= i < top.len() ==> !ranks_over(rec, #[trigger] top[i])
}

proof fn lemma_held(top: Seq<RecData>, rec: RecData, from: int)
    requires
        0 <= from,
    ensures
        match held_at(top, rec, from) {
            Some(i) => from <= i < top.len() && of_same_weights(top[i], rec),
            None => forall|i: int|
                from <= i < top.len() ==> !of_same_weights(#[trigger] top[i], rec),
        },
    decreases top.len() - from,
{
    if from < top.len() && !of_same_weights(top[from], rec) {
        lemma_held(top, rec, from + 1);
    }
}

proof fn lemma_risen(top: Seq<RecData>, rec: RecData, at: int)
    requires
        0 <= at <= top.len(),
    ensures
        ({
            let p = risen(top, rec, at);
            &&& 0 <= p <= at
            &&& forall|i: int| p <= i < at ==> ranks_over(rec, #[trigger] top[i])
            &&& p > 0 ==> !ranks_over(rec, top[p - 1])
        }),
    decreases at,
{
    if at > 0 && ranks_over(rec, top[at - 1]) {
        lemma_risen(top, rec, at - 1);
    }
}

/// A recommendation put in its place keeps the order, where everything from
/// its old place on does not rank above it.
proof fn lemma_placed(top: Seq<RecData>, rest: Seq<RecData>, rec: RecData, at: int)
    requires
        in_order(top),
        0 <= at <= top.len(),
        at <= rest.len(),
        rest.take(at) == top.take(at),
        in_order(rest),
        forall|i: int| at <= i < rest.len() ==> !ranks_over(#[trigger] rest[i], rec),
    ensures
        in_order(rest.insert(risen(top, rec, at), rec)),
{
    lemma_risen(top, rec, at);
    let p = risen(top, rec, at);
    let out = rest.insert(p, rec);
    assert forall|i: int| 0 <= i < at implies rest[i] == top[i] by {
        assert(rest.take(at)[i] == rest[i]);
        assert(top.take(at)[i] == top[i]);
    }
    assert forall|a: int, b: int| 0 <= a < b < out.len() implies !ranks_over(
        #[trigger] out[b],
        #[trigger] out[a],
    ) by {
        if b == p {
            assert(out[a] == top[a]);
            if a < p - 1 {
                assert(!ranks_over(top[p - 1], top[a]));
            }
        } else if a == p {
            assert(out[b] == rest[b - 1]);
            if b - 1 < at {
                assert(ranks_over(rec, top[b - 1]));
            }
        } else {
            let a0 = if a < p {
                a
            } else {
                a - 1
            };
            let b0 = if b < p {
                b
            } else {
                b - 1
            };
            assert(out[a] == rest[a0]);
            assert(out[b] == rest[b0]);
        }
    }
}

proof fn lemma_pushed_order(top: Seq<RecData>, rec: RecData, cap: nat)
    requires
        cap > 0,
        top.len() <= cap,
        in_order(top),
    ensures
        in_order(pushed(top, rec, cap)),
        pushed(top, rec, cap).len() <= cap,
{
    lemma_held(top, rec, 0);
    match held_at(top, rec, 0) {
        Some(i) => {
            if ranks_over(rec, top[i]) {
                let rest = top.remove(i);
                lemma_risen(top, rec, i);
                assert(rest.take(i) =~= top.take(i));
                assert forall|k: int| i <= k < rest.len() implies !ranks_over(
                    #[trigger] rest[k],
                    rec,
                ) by {
                    assert(rest[k] == top[k + 1]);
                    assert(!ranks_over(top[k + 1], top[i]));
                }
                assert forall|a: int, b: int| 0 <= a < b < rest.len() implies !ranks_over(
                    #[trigger] rest[b],
                    #[trigger] rest[a],
                ) by {
                    let a0 = if a < i {
                        a
                    } else {
                        a + 1
                    };
                    let b0 = if b < i {
                        b
                    } else {
                        b + 1
                    };
                    assert(rest[a] == top[a0] && rest[b] == top[b0]);
                }
                lemma_placed(top, rest, rec, i);
            }
        },
        None => {
            let at = if top.len() < cap {
                top.len() as int
            } else {
                cap - 1
            };
            let rest = top.take(at);
            lemma_risen(top, rec, at);
            assert(rest.take(at) =~= top.take(at));
            lemma_placed(top, rest, rec, at);
        },
    }
}

proof fn lemma_pushed_distinct(top: Seq<RecData>, rec: RecData, cap: nat)
    requires
        cap > 0,
        top.len() <= cap,
        all_distinct(top),
    ensures
        all_distinct(pushed(top, rec, cap)),
{
    lemma_held(top, rec, 0);
    let out = pushed(top, rec, cap);
    match held_at(top, rec, 0) {
        Some(i) => {
            if ranks_over(rec, top[i]) {
                lemma_risen(top, rec, i);
                let p = risen(top, rec, i);
                let rest = top.remove(i);
                assert forall|a: int, b: int| 0 <= a < b < out.len() implies !of_same_weights(
                    #[trigger] out[a],
                    #[trigger] out[b],
                ) by {
                    let a0 = if a < p {
                        a
                    } else {
                        a - 1
                    };
                    let b0 = if b < p {
                        b
                    } else {
                        b - 1
                    };
                    let a1 = if a0 < i {
                        a0
                    } else {
                        a0 + 1
                    };
                    let b1 = if b0 < i {
                        b0
                    } else {
                        b0 + 1
                    };
                    if a != p && b != p {
                        assert(out[a] == top[a1] && out[b] == top[b1]);
                    } else if a == p {
                        assert(out[b] == top[b1]);
                        law_same_weights_is_an_equivalence(top[i], rec, top[b1]);
                        law_same_weights_is_an_equivalence(top[i], top[b1], rec);
                        if b1 < i {
                            assert(!of_same_weights(top[b1], top[i]));
                        } else {
                            assert(!of_same_weights(top[i], top[b1]));
                        }
                    } else {
                        assert(out[a] == top[a1]);
                        law_same_weights_is_an_equivalence(top[i], rec, top[a1]);
                        law_same_weights_is_an_equivalence(top[a1], rec, top[i]);
                        law_same_weights_is_an_equivalence(top[a1], top[i], rec);
                        if a1 < i {
                            assert(!of_same_weights(top[a1], top[i]));
                        } else {
                            assert(!of_same_weights(top[i], top[a1]));
                        }
                    }
                }
            }
        },
        None => {
            let at = if top.len() < cap {
                top.len() as int
            } else {
                cap - 1
            };
            lemma_risen(top, rec, at);
            let p = risen(top, rec, at);
            if out != top {
                assert forall|a: int, b: int| 0 <= a < b < out.len() implies !of_same_weights(
                    #[trigger] out[a],
                    #[trigger] out[b],
                ) by {
                    let a0 = if a < p {
                        a
                    } else {
                        a - 1
                    };
                    let b0 = if b < p {
                        b
                    } else {
                        b - 1
                    };
                    if a == p {
                        assert(out[b] == top[b0]);
                        law_same_weights_is_an_equivalence(rec, top[b0], rec);
                    } else if b == p {
                        assert(out[a] == top[a0]);
                    } else {
                        assert(out[a] == top[a0] && out[b] == top[b0]);
                    }
                }
            }
        },
    }
}

/// What was accounted for stays so when weights already held are replaced.
proof fn lemma_replacing_keeps_account(
    top: Seq<RecData>,
    rec: RecData,
    cap: nat,
    i: int,
    other: RecData,
)
    requires
        top.len() <= cap,
        0 <= i < top.len(),
        of_same_weights(top[i], rec),
        ranks_over(rec, top[i]),
        accounted_for(top, other, cap),
    ensures
        accounted_for(top.remove(i).insert(risen(top, rec, i), rec), other, cap),
{
    lemma_risen(top, rec, i);
    let p = risen(top, rec, i);
    let rest = top.remove(i);
    let out = rest.insert(p, rec);
    assert(out[p] == rec);
    if exists|k: int|
        0 <= k < top.len() && of_same_weights(#[trigger] top[k], other) && !ranks_over(
            other,
            top[k],
        ) {
        let k = choose|k: int|
            0 <= k < top.len() && of_same_weights(#[trigger] top[k], other) && !ranks_over(
                other,
                top[k],
            );
        if k == i {
            law_same_weights_is_an_equivalence(top[i], rec, rec);
            law_same_weights_is_an_equivalence(rec, top[i], other);
            assert(of_same_weights(out[p], other));
        } else {
            let k0 = if k < i {
                k
            } else {
                k - 1
            };
            let k1 = if k0 < p {
                k0
            } else {
                k0 + 1
            };
            assert(rest[k0] == top[k]);
            assert(out[k1] == top[k]);
        }
    } else {
        assert forall|k: int| 0 <= k < out.len() implies !ranks_over(other, #[trigger] out[k]) by {
            if k == p {
                assert(!ranks_over(other, top[i]));
            } else {
                let k0 = if k < p {
                    k
                } else {
                    k - 1
                };
                let k1 = if k0 < i {
                    k0
                } else {
                    k0 + 1
                };
                assert(out[k] == rest[k0]);
                assert(rest[k0] == top[k1]);
            }
        }
    }
}

/// What was accounted for stays so when new weights are put in their place.
proof fn lemma_inserting_keeps_account(
    top: Seq<RecData>,
    rec: RecData,
    cap: nat,
    at: int,
    other: RecData,
)
    requires
        in_order(top),
        0 <= at <= top.len() <= cap,
        at == top.len() || (at == cap - 1 && ranks_over(rec, top[at])),
        at < cap,
        accounted_for(top, other, cap),
    ensures
        accounted_for(top.take(at).insert(risen(top, rec, at), rec), other, cap),
{
    lemma_risen(top, rec, at);
    let p = risen(top, rec, at);
    let out = top.take(at).insert(p, rec);
    assert forall|j: int| 0 <= j < out.len() && j != p implies #[trigger] out[j] == top[if j < p {
        j
    } else {
        j - 1
    }] by {}
    if exists|k: int|
        0 <= k < top.len() && of_same_weights(#[trigger] top[k], other) && !ranks_over(
            other,
            top[k],
        ) {
        let k = choose|k: int|
            0 <= k < top.len() && of_same_weights(#[trigger] top[k], other) && !ranks_over(
                other,
                top[k],
            );
        if k < at {
            let k1 = if k < p {
                k
            } else {
                k + 1
            };
            assert(out[k1] == top[k]);
        } else {
            // The entry that stood for it dropped out of a full list.
            assert(out.len() == cap);
            assert forall|j: int| 0 <= j < out.len() implies !ranks_over(
                other,
                #[trigger] out[j],
            ) by {
                if j != p {
                    let j0 = if j < p {
                        j
                    } else {
                        j - 1
                    };
                    assert(out[j] == top[j0]);
                    assert(!ranks_over(top[k], top[j0]));
                }
            }
        }
    } else {
        assert(out.len() == cap);
        assert forall|j: int| 0 <= j < out.len() implies !ranks_over(other, #[trigger] out[j]) by {
            if j == p {
                assert(!ranks_over(other, top[at]));
            } else {
                let j0 = if j < p {
                    j
                } else {
                    j - 1
                };
                assert(out[j] == top[j0]);
            }
        }
    }
}

/// What was accounted for stays so.
proof fn lemma_pushed_keeps_account(top: Seq<RecData>, rec: RecData, cap: nat, other: RecData)
    requires
        cap > 0,
        top.len() <= cap,
        in_order(top),
        accounted_for(top, other, cap),
    ensures
        accounted_for(pushed(top, rec, cap), other, cap),
{
    lemma_held(top, rec, 0);
    match held_at(top, rec, 0) {
        Some(i) => if ranks_over(rec, top[i]) {
            lemma_replacing_keeps_account(top, rec, cap, i, other);
        },
        None => if !(top.len() >= cap && !ranks_over(rec, top[cap - 1])) {
            let at = if top.len() < cap {
                top.len() as int
            } else {
                cap - 1
            };
            lemma_inserting_keeps_account(top, rec, cap, at, other);
        },
    }
}

/// Every entry of the new list is the new recommendation or stood in the old
/// one.
proof fn lemma_survivors(
    top: Seq<RecData>,
    rest: Seq<RecData>,
    out: Seq<RecData>,
    rec: RecData,
    p: int,
)
    requires
        0 <= p <= rest.len(),
        out == rest.insert(p, rec),
        forall|k: int| 0 <= k < rest.len() ==> top.contains(#[trigger] rest[k]),
    ensures
        out[p] == rec,
        forall|k: int| 0 <= k < out.len() && k != p ==> top.contains(#[trigger] out[k]),
{
    assert forall|k: int| 0 <= k < out.len() && k != p implies top.contains(
        #[trigger] out[k],
    ) by {
        let k0 = if k < p {
            k
        } else {
            k - 1
        };
        assert(out[k] == rest[k0]);
    }
}

/// What is pushed is accounted for.
proof fn lemma_pushed_accounts(top: Seq<RecData>, rec: RecData, cap: nat)
    requires
        cap > 0,
        top.len() <= cap,
        in_order(top),
    ensures
        accounted_for(pushed(top, rec, cap), rec, cap),
{
    lemma_held(top, rec, 0);
    law_same_weights_is_an_equivalence(rec, rec, rec);
    let out = pushed(top, rec, cap);
    match held_at(top, rec, 0) {
        Some(i) => {
            lemma_risen(top, rec, i);
            if ranks_over(rec, top[i]) {
                assert(out[risen(top, rec, i)] == rec);
            } else {
                assert(of_same_weights(out[i], rec));
            }
        },
        None => if top.len() >= cap && !ranks_over(rec, top[cap - 1]) {
            assert forall|k: int| 0 <= k < top.len() implies !ranks_over(
                rec,
                #[trigger] top[k],
            ) by {
                if k < cap - 1 {
                    assert(!ranks_over(top[cap - 1], top[k]));
                }
            }
        } else {
            let at = if top.len() < cap {
                top.len() as int
            } else {
                cap - 1
            };
            lemma_risen(top, rec, at);
            assert(out[risen(top, rec, at)] == rec);
        },
    }
}

/// One more recommendation leaves a ranking sorted and its weights distinct, and
/// no longer than it may be. The empty ranking is both.
pub proof fn law_a_push_keeps_rankings_sorted_and_distinct(
    top: Seq<RecData>,
    rec: RecData,
    cap: nat,
)
    requires
        cap > 0,
        top.len() <= cap,
    ensures
        in_order(Seq::empty()),
        all_distinct(Seq::empty()),
        in_order(top) ==> in_order(pushed(top, rec, cap)),
        all_distinct(top) ==> all_distinct(pushed(top, rec, cap)),
        in_order(top) ==> pushed(top, rec, cap).len() <= cap,
{
    if in_order(top) {
        lemma_pushed_order(top, rec, cap);
    }
    if all_distinct(top) {
        lemma_pushed_distinct(top, rec, cap);
    }
}

/// A ranking is sorted best first, holds no weights twice, and is never longer
/// than asked.
pub proof fn law_rankings_are_sorted_and_distinct(
    c: CatalogData,
    hw: Hardware,
    opts: Opts,
    filter: Filter,
    cap: nat,
    n: nat,
)
    requires
        cap > 0,
    ensures
        in_order(ranked(c, hw, opts, filter, cap, n)),
        all_distinct(ranked(c, hw, opts, filter, cap, n)),
        ranked(c, hw, opts, filter, cap, n).len() <= cap,
    decreases n,
{
    if n > 0 {
        law_rankings_are_sorted_and_distinct(c, hw, opts, filter, cap, (n - 1) as nat);
        let before = ranked(c, hw, opts, filter, cap, (n - 1) as nat);
        let rec = evaluated(c, c.model((n - 1) as nat), hw, opts);
        lemma_pushed_order(before, rec, cap);
        lemma_pushed_distinct(before, rec, cap);
    }
}

/// The best are kept: for every model that passes the filter, its weights are
/// listed at least as well, or the list is full of what it does not rank above.
pub proof fn law_the_best_are_kept(
    c: CatalogData,
    hw: Hardware,
    opts: Opts,
    filter: Filter,
    cap: nat,
    n: nat,
    i: nat,
)
    requires
        cap > 0,
        i < n,
        filter.admits_spec(evaluated(c, c.model(i), hw, opts)),
    ensures
        accounted_for(
            ranked(c, hw, opts, filter, cap, n),
            evaluated(c, c.model(i), hw, opts),
            cap,
        ),
    decreases n,
{
    let before = ranked(c, hw, opts, filter, cap, (n - 1) as nat);
    let rec = evaluated(c, c.model((n - 1) as nat), hw, opts);
    law_rankings_are_sorted_and_distinct(c, hw, opts, filter, cap, (n - 1) as nat);
    if i == n - 1 {
        lemma_pushed_accounts(before, rec, cap);
    } else {
        law_the_best_are_kept(c, hw, opts, filter, cap, (n - 1) as nat, i);
        if filter.admits_spec(rec) {
            lemma_pushed_keeps_account(
                before,
                rec,
                cap,
                evaluated(c, c.model(i), hw, opts),
            );
        }
    }
}

/// Nothing is made up: every entry is the evaluation of some model of the
/// catalog, and passes the filter.
pub proof fn law_every_entry_is_of_the_catalog(
    c: CatalogData,
    hw: Hardware,
    opts: Opts,
    filter: Filter,
    cap: nat,
    n: nat,
    k: int,
)
    requires
        cap > 0,
        0 <= k < ranked(c, hw, opts, filter, cap, n).len(),
    ensures
        filter.admits_spec(ranked(c, hw, opts, filter, cap, n)[k]),
        exists|i: nat|
            i < n && ranked(c, hw, opts, filter, cap, n)[k] == evaluated(
                c,
                #[trigger] c.model(i),
                hw,
                opts,
            ),
    decreases n,
{
    let before = ranked(c, hw, opts, filter, cap, (n - 1) as nat);
    let m = c.model((n - 1) as nat);
    let rec = evaluated(c, m, hw, opts);
    let out = ranked(c, hw, opts, filter, cap, n);
    law_rankings_are_sorted_and_distinct(c, hw, opts, filter, cap, (n - 1) as nat);
    lemma_held(before, rec, 0);
    if out[k] != rec {
        assert(before.contains(out[k])) by {
            if out == before {
                assert(before[k] == out[k]);
            } else {
                match held_at(before, rec, 0) {
                    Some(i) => {
                        lemma_risen(before, rec, i);
                        lemma_survivors(
                            before,
                            before.remove(i),
                            out,
                            rec,
                            risen(before, rec, i),
                        );
                    },
                    None => {
                        let at = if before.len() < cap {
                            before.len() as int
                        } else {
                            cap - 1
                        };
                        lemma_risen(before, rec, at);
                        lemma_survivors(before, before.take(at), out, rec, risen(before, rec, at));
                    },
                }
            }
        }
        let j = choose|j: int| 0 <= j < before.len() && before[j] == out[k];
        law_every_entry_is_of_the_catalog(c, hw, opts, filter, cap, (n - 1) as nat, j);
        let i = choose|i: nat|
            i < n - 1 && before[j] == evaluated(c, #[trigger] c.model(i), hw, opts);
        assert(out[k] == evaluated(c, c.model(i), hw, opts));
    } else if !filter.admits_spec(rec) {
        law_every_entry_is_of_the_catalog(c, hw, opts, filter, cap, (n - 1) as nat, k);
    } else {
        assert(out[k] == evaluated(c, c.model((n - 1) as nat), hw, opts));
    }
}

/// In a ranking, what does not run stands behind everything that does.
pub proof fn law_what_does_not_run_stands_last(
    c: CatalogData,
    hw: Hardware,
    opts: Opts,
    filter: Filter,
    cap: nat,
    n: nat,
    a: int,
    b: int,
)
    requires
        cap > 0,
        0 <= a < b < ranked(c, hw, opts, filter, cap, n).len(),
        ranked(c, hw, opts, filter, cap, n)[b].fit.verdict.runs(),
    ensures
        ranked(c, hw, opts, filter, cap, n)[a].fit.verdict.runs(),
{
    law_rankings_are_sorted_and_distinct(c, hw, opts, filter, cap, n);
    let top = ranked(c, hw, opts, filter, cap, n);
    assert(!ranks_over(top[b], top[a]));
}

} // verus!
