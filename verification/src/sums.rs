//! Sums over sequences.
use vstd::prelude::*;

verus! {

/// The sum of `f` over `s`.
pub open spec fn sum_of<T>(s: Seq<T>, f: spec_fn(T) -> int) -> int
    decreases s.len(),
{
    if s.len() == 0 {
        0
    } else {
        sum_of(s.drop_last(), f) + f(s.last())
    }
}

pub proof fn lemma_sum_push<T>(s: Seq<T>, x: T, f: spec_fn(T) -> int)
    ensures
        sum_of(s.push(x), f) == sum_of(s, f) + f(x),
{
    assert(s.push(x).drop_last() =~= s);
}

pub proof fn lemma_sum_append<T>(s: Seq<T>, t: Seq<T>, f: spec_fn(T) -> int)
    ensures
        sum_of(s + t, f) == sum_of(s, f) + sum_of(t, f),
    decreases t.len(),
{
    if t.len() == 0 {
        assert(s + t =~= s);
    } else {
        lemma_sum_append(s, t.drop_last(), f);
        assert((s + t).drop_last() =~= s + t.drop_last());
    }
}

pub proof fn lemma_sum_first<T>(s: Seq<T>, f: spec_fn(T) -> int)
    requires
        s.len() > 0,
    ensures
        sum_of(s, f) == f(s[0]) + sum_of(s.drop_first(), f),
{
    let one = seq![s[0]];
    assert(one + s.drop_first() =~= s);
    lemma_sum_append(one, s.drop_first(), f);
    assert(one.drop_last() =~= Seq::<T>::empty());
    assert(sum_of(one, f) == sum_of(one.drop_last(), f) + f(s[0]));
}

/// A sum of terms between zero and `top` lies between zero and `top` times their number.
pub proof fn lemma_sum_bounds<T>(s: Seq<T>, f: spec_fn(T) -> int, top: int)
    requires
        forall|i: int| 0 <= i < s.len() ==> 0 <= f(#[trigger] s[i]) <= top,
    ensures
        0 <= sum_of(s, f) <= top * s.len(),
    decreases s.len(),
{
    if s.len() > 0 {
        let t = s.drop_last();
        assert forall|i: int| 0 <= i < t.len() implies 0 <= f(#[trigger] t[i]) <= top by {
            assert(t[i] == s[i]);
        }
        lemma_sum_bounds(t, f, top);
        assert(0 <= f(s[s.len() - 1]) <= top);
        assert(top * s.len() == top * t.len() + top) by (nonlinear_arith)
            requires
                s.len() == t.len() + 1,
        ;
    }
}

} // verus!
