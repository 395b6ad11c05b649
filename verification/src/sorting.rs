//! A stable sort by a strict order.
use vstd::prelude::*;

verus! {

/// Puts `x` behind every element of `t` that it need not precede, as late as possible.
pub open spec fn insert_ordered<T>(t: Seq<T>, x: T, before: spec_fn(T, T) -> bool) -> Seq<T>
    decreases t.len(),
{
    if t.len() == 0 || !before(x, t.last()) {
        t.push(x)
    } else {
        insert_ordered(t.drop_last(), x, before).push(t.last())
    }
}

/// `s` reordered so that nothing stands behind an element that it must precede; elements that
/// need not precede each other keep their order.
pub open spec fn stable_sorted<T>(s: Seq<T>, before: spec_fn(T, T) -> bool) -> Seq<T>
    decreases s.len(),
{
    if s.len() == 0 {
        s
    } else {
        insert_ordered(stable_sorted(s.drop_last(), before), s.last(), before)
    }
}

/// What makes `before` usable for sorting: nothing precedes itself, and standing before and
/// standing level are both transitive.
pub open spec fn strict_weak_order<T>(before: spec_fn(T, T) -> bool) -> bool {
    &&& forall|x: T| !#[trigger] before(x, x)
    &&& forall|x: T, y: T, z: T| #[trigger]
        before(x, y) && #[trigger] before(y, z) ==> before(x, z)
    &&& forall|x: T, y: T, z: T|
        !#[trigger] before(x, y) && !#[trigger] before(y, z) ==> !before(x, z)
}

/// Nothing stands behind an element that it must precede.
pub open spec fn is_ordered<T>(s: Seq<T>, before: spec_fn(T, T) -> bool) -> bool {
    forall|i: int, j: int| 0 <= i < j < s.len() ==> !before(#[trigger] s[j], #[trigger] s[i])
}

proof fn lemma_insert_at<T>(t: Seq<T>, x: T, before: spec_fn(T, T) -> bool, j: int)
    requires
        0 <= j <= t.len(),
        forall|k: int| j <= k < t.len() ==> before(x, #[trigger] t[k]),
        j == 0 || !before(x, t[j - 1]),
    ensures
        insert_ordered(t, x, before) == t.insert(j, x),
    decreases t.len(),
{
    if j == t.len() {
        assert(t.insert(j, x) =~= t.push(x));
    } else {
        lemma_insert_at(t.drop_last(), x, before, j);
        assert(t.insert(j, x) =~= t.drop_last().insert(j, x).push(t.last()));
    }
}

proof fn lemma_insert_ordered_facts<T>(t: Seq<T>, x: T, before: spec_fn(T, T) -> bool)
    requires
        strict_weak_order(before),
        is_ordered(t, before),
    ensures
        is_ordered(insert_ordered(t, x, before), before),
        insert_ordered(t, x, before).len() == t.len() + 1,
        forall|i: int|
            0 <= i <= t.len() ==> {
                let y = #[trigger] insert_ordered(t, x, before)[i];
                y == x || t.contains(y)
            },
    decreases t.len(),
{
    let r = insert_ordered(t, x, before);
    if t.len() == 0 || !before(x, t.last()) {
        assert forall|i: int, j: int| 0 <= i < j < r.len() implies !before(
            #[trigger] r[j],
            #[trigger] r[i],
        ) by {
            if j == t.len() {
                if i < t.len() - 1 {
                    assert(!before(t.last(), t[i]));
                }
            }
        }
        assert forall|i: int| 0 <= i <= t.len() implies {
            let y = #[trigger] r[i];
            y == x || t.contains(y)
        } by {
            if i < t.len() {
                assert(r[i] == t[i]);
            }
        }
    } else {
        let u = t.drop_last();
        lemma_insert_ordered_facts(u, x, before);
        let v = insert_ordered(u, x, before);
        assert forall|i: int, j: int| 0 <= i < j < r.len() implies !before(
            #[trigger] r[j],
            #[trigger] r[i],
        ) by {
            if j == v.len() {
                if v[i] == x {
                    if before(t.last(), x) {
                        assert(before(x, x));
                    }
                } else {
                    let k = choose|k: int| 0 <= k < u.len() && u[k] == v[i];
                    assert(t[k] == v[i]);
                }
            }
        }
        assert forall|i: int| 0 <= i <= t.len() implies {
            let y = #[trigger] r[i];
            y == x || t.contains(y)
        } by {
            if i < v.len() {
                let y = v[i];
                if y != x {
                    let k = choose|k: int| 0 <= k < u.len() && u[k] == y;
                    assert(t[k] == y);
                }
            } else {
                assert(t[t.len() - 1] == r[i]);
            }
        }
    }
}

/// Filtering keeps the element at the end exactly if it passes.
pub proof fn lemma_filter_push<T>(s: Seq<T>, x: T, keep: spec_fn(T) -> bool)
    ensures
        s.push(x).filter(keep) == if keep(x) {
            s.filter(keep).push(x)
        } else {
            s.filter(keep)
        },
{
    reveal(Seq::filter);
    assert(s.push(x).drop_last() =~= s);
}

/// What passes a filter is in the list and passes, and everything in the list that passes is kept.
pub proof fn lemma_filter_members<T>(s: Seq<T>, keep: spec_fn(T) -> bool)
    ensures
        forall|i: int|
            0 <= i < s.filter(keep).len() ==> keep(#[trigger] s.filter(keep)[i]) && s.contains(
                s.filter(keep)[i],
            ),
        forall|i: int|
            0 <= i < s.len() && keep(#[trigger] s[i]) ==> s.filter(keep).contains(s[i]),
        s.filter(keep).len() <= s.len(),
    decreases s.len(),
{
    if s.len() == 0 {
        reveal(Seq::filter);
    } else {
        let t = s.drop_last();
        lemma_filter_members(t, keep);
        lemma_filter_push(t, s.last(), keep);
        assert(t.push(s.last()) =~= s);
        let f = s.filter(keep);
        assert forall|i: int| 0 <= i < f.len() implies keep(#[trigger] f[i]) && s.contains(
            f[i],
        ) by {
            if i < t.filter(keep).len() {
                let x = t.filter(keep)[i];
                assert(f[i] == x);
                let k = choose|k: int| 0 <= k < t.len() && t[k] == x;
                assert(s[k] == x);
            } else {
                assert(s[s.len() - 1] == f[i]);
            }
        }
        assert forall|i: int| 0 <= i < s.len() && keep(#[trigger] s[i]) implies f.contains(
            s[i],
        ) by {
            if i < t.len() {
                assert(t[i] == s[i]);
                assert(t.filter(keep).contains(t[i]));
                let k = choose|k: int|
                    0 <= k < t.filter(keep).len() && t.filter(keep)[k] == t[i];
                assert(f[k] == s[i]);
            } else {
                assert(f[f.len() - 1] == s[i]);
            }
        }
    }
}

proof fn lemma_insert_filter<T>(
    t: Seq<T>,
    x: T,
    before: spec_fn(T, T) -> bool,
    class: spec_fn(T) -> bool,
)
    requires
        forall|a: T, b: T| class(a) && class(b) ==> !#[trigger] before(a, b),
    ensures
        insert_ordered(t, x, before).filter(class) == t.push(x).filter(class),
    decreases t.len(),
{
    if t.len() == 0 || !before(x, t.last()) {
    } else {
        let u = t.drop_last();
        lemma_insert_filter(u, x, before, class);
        lemma_filter_push(insert_ordered(u, x, before), t.last(), class);
        lemma_filter_push(u, x, class);
        lemma_filter_push(u, t.last(), class);
        lemma_filter_push(t, x, class);
        assert(u.push(t.last()) =~= t);
    }
}

/// Sorting by a strict weak order leaves nothing behind an element that it must precede.
pub proof fn lemma_sorted_is_ordered<T>(s: Seq<T>, before: spec_fn(T, T) -> bool)
    requires
        strict_weak_order(before),
    ensures
        is_ordered(stable_sorted(s, before), before),
        stable_sorted(s, before).len() == s.len(),
    decreases s.len(),
{
    if s.len() > 0 {
        lemma_sorted_is_ordered(s.drop_last(), before);
        lemma_insert_ordered_facts(stable_sorted(s.drop_last(), before), s.last(), before);
    }
}

/// Sorting is stable: elements none of which must precede another keep their order, and each of
/// them is kept exactly as often as it occurred.
pub proof fn law_sorting_is_stable<T>(
    s: Seq<T>,
    before: spec_fn(T, T) -> bool,
    class: spec_fn(T) -> bool,
)
    requires
        forall|a: T, b: T| class(a) && class(b) ==> !#[trigger] before(a, b),
    ensures
        stable_sorted(s, before).filter(class) == s.filter(class),
    decreases s.len(),
{
    if s.len() > 0 {
        law_sorting_is_stable(s.drop_last(), before, class);
        lemma_insert_filter(stable_sorted(s.drop_last(), before), s.last(), before, class);
        lemma_filter_push(stable_sorted(s.drop_last(), before), s.last(), class);
        lemma_filter_push(s.drop_last(), s.last(), class);
        assert(s.drop_last().push(s.last()) =~= s);
    }
}

proof fn lemma_insert_multiset<T>(t: Seq<T>, x: T, before: spec_fn(T, T) -> bool)
    ensures
        insert_ordered(t, x, before).to_multiset() == t.to_multiset().insert(x),
    decreases t.len(),
{
    broadcast use vstd::seq_lib::group_to_multiset_ensures;

    if t.len() == 0 || !before(x, t.last()) {
    } else {
        lemma_insert_multiset(t.drop_last(), x, before);
        assert(t.drop_last().push(t.last()) =~= t);
        assert(insert_ordered(t, x, before).to_multiset() =~= t.to_multiset().insert(x));
    }
}

/// Sorting neither loses nor invents elements.
pub proof fn lemma_sorted_is_permutation<T>(s: Seq<T>, before: spec_fn(T, T) -> bool)
    ensures
        stable_sorted(s, before).to_multiset() == s.to_multiset(),
    decreases s.len(),
{
    broadcast use vstd::seq_lib::group_to_multiset_ensures;

    if s.len() > 0 {
        lemma_sorted_is_permutation(s.drop_last(), before);
        lemma_insert_multiset(stable_sorted(s.drop_last(), before), s.last(), before);
        assert(s.drop_last().push(s.last()) =~= s);
    }
}

/// Sorting commutes with mapping, where the order sees only what is mapped.
pub proof fn lemma_sorted_map<T, U>(
    s: Seq<T>,
    f: spec_fn(T) -> U,
    before: spec_fn(T, T) -> bool,
    mapped: spec_fn(U, U) -> bool,
)
    requires
        forall|x: T, y: T| #[trigger] before(x, y) == mapped(f(x), f(y)),
    ensures
        stable_sorted(s, before).map_values(f) == stable_sorted(s.map_values(f), mapped),
    decreases s.len(),
{
    if s.len() == 0 {
        assert(s.map_values(f) =~= Seq::empty());
        assert(stable_sorted(s, before).map_values(f) =~= Seq::empty());
    } else {
        lemma_sorted_map(s.drop_last(), f, before, mapped);
        lemma_insert_map(stable_sorted(s.drop_last(), before), s.last(), f, before, mapped);
        assert(s.map_values(f).drop_last() =~= s.drop_last().map_values(f));
    }
}

proof fn lemma_insert_map<T, U>(
    t: Seq<T>,
    x: T,
    f: spec_fn(T) -> U,
    before: spec_fn(T, T) -> bool,
    mapped: spec_fn(U, U) -> bool,
)
    requires
        forall|x: T, y: T| #[trigger] before(x, y) == mapped(f(x), f(y)),
    ensures
        insert_ordered(t, x, before).map_values(f) == insert_ordered(
            t.map_values(f),
            f(x),
            mapped,
        ),
    decreases t.len(),
{
    if t.len() == 0 || !before(x, t.last()) {
        assert(t.push(x).map_values(f) =~= t.map_values(f).push(f(x)));
    } else {
        lemma_insert_map(t.drop_last(), x, f, before, mapped);
        let rest = insert_ordered(t.drop_last(), x, before);
        assert(rest.push(t.last()).map_values(f) =~= rest.map_values(f).push(f(t.last())));
        assert(t.map_values(f).drop_last() =~= t.drop_last().map_values(f));
        assert(t.map_values(f).last() == f(t.last()));
    }
}

/// Sorts `v` in place, stably. `precedes` decides `before`.
pub(crate) fn sort_stable<T, F: Fn(&T, &T) -> bool>(
    v: &mut Vec<T>,
    precedes: F,
    Ghost(before): Ghost<spec_fn(T, T) -> bool>,
)
    requires
        forall|i: int, j: int|
            0 <= i < old(v)@.len() && 0 <= j < old(v)@.len() ==> call_requires(
                precedes,
                (&#[trigger] old(v)@[i], &#[trigger] old(v)@[j]),
            ),
        forall|x: T, y: T, r: bool|
            #[trigger] call_ensures(precedes, (&x, &y), r) ==> r == before(x, y),
    ensures
        final(v)@ == stable_sorted(old(v)@, before),
{
    let ghost s = v@;
    let n: usize = v.len();
    let mut i: usize = 0;
    while i < n
        invariant
            i <= n,
            n == v@.len(),
            n == s.len(),
            v@ == stable_sorted(s.take(i as int), before) + s.skip(i as int),
            stable_sorted(s.take(i as int), before).len() == i,
            forall|k: int| 0 <= k < v@.len() ==> s.contains(#[trigger] v@[k]),
            forall|a: int, b: int|
                0 <= a < s.len() && 0 <= b < s.len() ==> call_requires(
                    precedes,
                    (&#[trigger] s[a], &#[trigger] s[b]),
                ),
            forall|x: T, y: T, r: bool|
                #[trigger] call_ensures(precedes, (&x, &y), r) ==> r == before(x, y),
        decreases n - i,
    {
        let ghost t = stable_sorted(s.take(i as int), before);
        let ghost x = s[i as int];
        assert(v@[i as int] == x);
        let mut j: usize = i;
        let mut open: bool = true;
        while open && j > 0
            invariant
                j <= i < n,
                n == v@.len(),
                v@ == t + s.skip(i as int),
                t.len() == i,
                v@[i as int] == x,
                forall|k: int| j <= k < i ==> before(x, #[trigger] t[k]),
                !open ==> (j > 0 && !before(x, t[j - 1])),
                forall|k: int| 0 <= k < v@.len() ==> s.contains(#[trigger] v@[k]),
                forall|a: int, b: int|
                    0 <= a < s.len() && 0 <= b < s.len() ==> call_requires(
                        precedes,
                        (&#[trigger] s[a], &#[trigger] s[b]),
                    ),
                forall|x: T, y: T, r: bool|
                    #[trigger] call_ensures(precedes, (&x, &y), r) ==> r == before(x, y),
            decreases j, open as int,
        {
            proof {
                assert(v@[j - 1] == t[j - 1]);
                assert(s.contains(v@[i as int]));
                assert(s.contains(v@[j - 1]));
            }
            let earlier: bool = precedes(&v[i], &v[j - 1]);
            if earlier {
                j = j - 1;
            } else {
                open = false;
            }
        }
        let ghost w = v@;
        let item = v.remove(i);
        v.insert(j, item);
        proof {
            lemma_insert_at(t, x, before, j as int);
            assert(s.take(i + 1).drop_last() =~= s.take(i as int));
            assert(v@ =~= t.insert(j as int, x) + s.skip(i + 1));
            assert forall|k: int| 0 <= k < v@.len() implies s.contains(#[trigger] v@[k]) by {
                if k < j {
                    assert(v@[k] == w[k]);
                } else if k == j {
                    assert(v@[k] == w[i as int]);
                } else if k <= i {
                    assert(v@[k] == w[k - 1]);
                } else {
                    assert(v@[k] == w[k]);
                }
            }
        }
        i = i + 1;
    }
    proof {
        assert(s.take(n as int) =~= s);
        assert(v@ =~= stable_sorted(s, before));
    }
}

} // verus!
