//! Stable sorting.

use vstd::prelude::*;
use vstd::seq_lib::*;

verus! {

/// A type whose values stand in an order in which some may tie.
pub trait Ranked: Sized {
    /// Whether a value stands before another.
    spec fn precedes(self, other: Self) -> bool;

    /// Nothing stands before itself, the order carries over, and ties do too.
    proof fn order(a: Self, b: Self, c: Self)
        ensures
            !a.precedes(a),
            a.precedes(b) && b.precedes(c) ==> a.precedes(c),
            a.precedes(c) ==> a.precedes(b) || b.precedes(c),
    ;

    fn goes_before(&self, other: &Self) -> (r: bool)
        ensures
            r == self.precedes(*other),
    ;
}

/// How many values at the front of `s` stand before `x`.
pub open spec fn slot<T: Ranked>(s: Seq<T>, x: T) -> int
    decreases s.len(),
{
    if s.len() == 0 || !s[0].precedes(x) {
        0
    } else {
        1 + slot(s.drop_first(), x)
    }
}

/// The values in order, ties as they came.
pub open spec fn sorted<T: Ranked>(s: Seq<T>) -> Seq<T>
    decreases s.len(),
{
    if s.len() == 0 {
        Seq::empty()
    } else {
        let rest = sorted(s.drop_first());
        rest.insert(slot(rest, s[0]), s[0])
    }
}

/// No later value stands before an earlier one.
pub open spec fn in_order<T: Ranked>(s: Seq<T>) -> bool {
    forall|a: int, b: int| 0 <= a < b < s.len() ==> !(#[trigger] s[b]).precedes(#[trigger] s[a])
}

pub proof fn lemma_slot<T: Ranked>(s: Seq<T>, x: T)
    ensures
        0 <= slot(s, x) <= s.len(),
        forall|i: int| 0 <= i < slot(s, x) ==> (#[trigger] s[i]).precedes(x),
        slot(s, x) < s.len() ==> !s[slot(s, x)].precedes(x),
    decreases s.len(),
{
    if s.len() > 0 && s[0].precedes(x) {
        let t = s.drop_first();
        lemma_slot(t, x);
        assert forall|i: int| 0 <= i < slot(s, x) implies (#[trigger] s[i]).precedes(x) by {
            if i > 0 {
                assert(t[i - 1] == s[i]);
            }
        }
        if slot(s, x) < s.len() {
            assert(t[slot(t, x)] == s[slot(s, x)]);
        }
    }
}

/// Sort a vector.
pub fn sort<T: Ranked>(v: Vec<T>) -> (r: Vec<T>)
    ensures
        r@ == sorted(v@),
{
    let ghost all: Seq<T> = v@;
    let mut rest: Vec<T> = v;
    let mut out: Vec<T> = Vec::new();
    assert(all.skip(all.len() as int) =~= Seq::empty());
    assert(all.take(all.len() as int) =~= all);
    while rest.len() > 0
        invariant
            rest@.len() <= all.len(),
            rest@ == all.take(rest@.len() as int),
            out@ == sorted(all.skip(rest@.len() as int)),
        decreases rest@.len(),
    {
        let ghost n: int = rest@.len() as int;
        match rest.pop() {
            Some(x) => {
                let ghost part: Seq<T> = all.skip(n - 1);
                assert(part[0] == x);
                assert(part.drop_first() =~= all.skip(n));
                assert(rest@ =~= all.take(n - 1));
                let mut i: usize = 0;
                assert(out@.skip(0) =~= out@);
                while i < out.len() && out[i].goes_before(&x)
                    invariant
                        i <= out@.len(),
                        slot(out@, x) == i + slot(out@.skip(i as int), x),
                    decreases out.len() - i,
                {
                    assert(out@.skip(i as int)[0] == out@[i as int]);
                    assert(out@.skip(i as int).drop_first() =~= out@.skip(i + 1));
                    i = i + 1;
                }
                proof {
                    if i < out@.len() {
                        assert(out@.skip(i as int)[0] == out@[i as int]);
                    }
                }
                out.insert(i, x);
            },
            None => {},
        }
    }
    assert(all.skip(0) =~= all);
    out
}

/// Put a value into a vector that is in order, behind the values it ties with.
pub fn place<T: Ranked>(out: &mut Vec<T>, x: T) -> (p: usize)
    requires
        in_order(old(out)@),
    ensures
        p <= old(out)@.len(),
        final(out)@ == old(out)@.insert(p as int, x),
        in_order(final(out)@),
{
    let ghost was: Seq<T> = out@;
    let mut p: usize = 0;
    while p < out.len() && !x.goes_before(&out[p])
        invariant
            p <= out@.len(),
            forall|i: int| 0 <= i < p ==> !x.precedes(#[trigger] out@[i]),
        decreases out.len() - p,
    {
        p = p + 1;
    }
    proof {
        let now = was.insert(p as int, x);
        assert forall|a: int, b: int| 0 <= a < b < now.len() implies !(#[trigger] now[b]).precedes(
            #[trigger] now[a],
        ) by {
            if b == p {
                assert(now[a] == was[a]);
            } else if a == p {
                assert(now[b] == was[b - 1]);
                if b - 1 > p {
                    T::order(x, was[b - 1], was[p as int]);
                }
                T::order(x, was[b - 1], x);
            } else {
                let a0 = if a < p {
                    a
                } else {
                    a - 1
                };
                let b0 = if b < p {
                    b
                } else {
                    b - 1
                };
                assert(now[a] == was[a0] && now[b] == was[b0]);
            }
        }
    }
    out.insert(p, x);
    p
}

/// What is in a sequence after a value was put into it.
pub proof fn lemma_placed<T>(s: Seq<T>, p: int, x: T)
    requires
        0 <= p <= s.len(),
    ensures
        forall|y: T| s.insert(p, x).contains(y) <==> (y == x || s.contains(y)),
{
    let t = s.insert(p, x);
    assert(t[p] == x);
    assert forall|y: T| t.contains(y) implies (y == x || s.contains(y)) by {
        let i = choose|i: int| 0 <= i < t.len() && t[i] == y;
        if i < p {
            assert(s[i] == y);
        } else if i > p {
            assert(s[i - 1] == y);
        }
    }
    assert forall|y: T| s.contains(y) implies t.contains(y) by {
        let i = choose|i: int| 0 <= i < s.len() && s[i] == y;
        if i < p {
            assert(t[i] == y);
        } else {
            assert(t[i + 1] == y);
        }
    }
}

/// What comes out of sorting is in order.
pub proof fn law_sorted_is_in_order<T: Ranked>(s: Seq<T>)
    ensures
        in_order(sorted(s)),
        sorted(s).len() == s.len(),
    decreases s.len(),
{
    if s.len() > 0 {
        let rest = sorted(s.drop_first());
        law_sorted_is_in_order(s.drop_first());
        let x = s[0];
        let p = slot(rest, x);
        lemma_slot(rest, x);
        let out = rest.insert(p, x);
        assert forall|a: int, b: int| 0 <= a < b < out.len() implies !(#[trigger] out[b]).precedes(
            #[trigger] out[a],
        ) by {
            if b == p {
                assert(out[a] == rest[a]);
                T::order(x, rest[a], x);
            } else if a == p {
                assert(out[b] == rest[b - 1]);
                if b - 1 > p {
                    assert(!rest[b - 1].precedes(rest[p]));
                    T::order(rest[b - 1], rest[p], x);
                }
            } else {
                let a0 = if a < p {
                    a
                } else {
                    a - 1
                };
                let b0 = if b < p {
                    b
                } else {
                    b - 1
                };
                assert(out[a] == rest[a0] && out[b] == rest[b0]);
            }
        }
    }
}

/// Sorting neither loses nor adds anything.
pub proof fn law_sorted_is_a_permutation<T: Ranked>(s: Seq<T>)
    ensures
        sorted(s).to_multiset() == s.to_multiset(),
    decreases s.len(),
{
    broadcast use group_to_multiset_ensures;

    if s.len() > 0 {
        let rest = sorted(s.drop_first());
        law_sorted_is_a_permutation(s.drop_first());
        lemma_slot(rest, s[0]);
        assert(s =~= seq![s[0]] + s.drop_first());
        assert(s.to_multiset() =~= s.drop_first().to_multiset().insert(s[0])) by {
            assert(s.drop_first() =~= s.remove(0));
            to_multiset_remove(s, 0);
        }
        to_multiset_insert(rest, slot(rest, s[0]), s[0]);
    } else {
        assert(sorted(s) =~= s);
    }
}

/// Values that are in order already stay as they are.
pub proof fn law_sorting_keeps_what_is_in_order<T: Ranked>(s: Seq<T>)
    requires
        in_order(s),
    ensures
        sorted(s) == s,
    decreases s.len(),
{
    if s.len() > 0 {
        let t = s.drop_first();
        assert(in_order(t)) by {
            assert forall|a: int, b: int| 0 <= a < b < t.len() implies !(#[trigger] t[b]).precedes(
                #[trigger] t[a],
            ) by {
                assert(t[a] == s[a + 1] && t[b] == s[b + 1]);
            }
        }
        law_sorting_keeps_what_is_in_order(t);
        if t.len() > 0 {
            assert(t[0] == s[1]);
            assert(!s[1].precedes(s[0]));
        }
        assert(t.insert(0, s[0]) =~= s);
    } else {
        assert(sorted(s) =~= s);
    }
}

} // verus!
