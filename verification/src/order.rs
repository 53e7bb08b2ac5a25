//! A deterministic, stable sort at the specification level, with the lemmas
//! the executable sorts and the ordering laws rest on.
//!
//! `sort_of` pins the sorted sequence down exactly: it is the insertion sort
//! that walks the input left to right and places each element behind every
//! earlier element that is less than or equal to it. Equal-key elements
//! therefore keep their input order, which is the stability the view layer
//! promises.
use vstd::prelude::*;
use vstd::relations::sorted_by;
use vstd::relations::strongly_connected;
use vstd::relations::transitive;
use vstd::seq_lib::group_to_multiset_ensures;
use vstd::multiset::group_multiset_axioms;

verus! {

/// `x` placed into `t` behind every element `e` with `leq(e, x)`; when `t`
/// is sorted, the insertion point is the last one that keeps it sorted.
pub open spec fn insert_ord<T>(t: Seq<T>, x: T, leq: spec_fn(T, T) -> bool) -> Seq<T>
    decreases t.len(),
{
    if t.len() == 0 {
        seq![x]
    } else if leq(t.last(), x) {
        t.push(x)
    } else {
        insert_ord(t.drop_last(), x, leq).push(t.last())
    }
}

/// The stable sort of `s` under `leq`.
pub open spec fn sort_of<T>(s: Seq<T>, leq: spec_fn(T, T) -> bool) -> Seq<T>
    decreases s.len(),
{
    if s.len() == 0 {
        Seq::empty()
    } else {
        insert_ord(sort_of(s.drop_last(), leq), s.last(), leq)
    }
}

/// Insertion adds exactly the new element.
pub proof fn lemma_insert_ord_multiset<T>(t: Seq<T>, x: T, leq: spec_fn(T, T) -> bool)
    ensures
        insert_ord(t, x, leq).to_multiset() =~= t.to_multiset().insert(x),
        insert_ord(t, x, leq).len() == t.len() + 1,
    decreases t.len(),
{
    broadcast use group_to_multiset_ensures;
    broadcast use group_multiset_axioms;

    if t.len() == 0 {
        assert(t =~= Seq::<T>::empty());
        assert(seq![x] =~= Seq::<T>::empty().push(x));
    } else if leq(t.last(), x) {
    } else {
        let t1 = t.drop_last();
        lemma_insert_ord_multiset(t1, x, leq);
        assert(t =~= t1.push(t.last()));
        assert(t1.to_multiset().insert(x).insert(t.last()) =~= t1.to_multiset().insert(
            t.last(),
        ).insert(x));
    }
}

/// Sorting permutes: the result holds the same elements, as a multiset.
pub proof fn lemma_sort_of_multiset<T>(s: Seq<T>, leq: spec_fn(T, T) -> bool)
    ensures
        sort_of(s, leq).to_multiset() =~= s.to_multiset(),
        sort_of(s, leq).len() == s.len(),
    decreases s.len(),
{
    broadcast use group_to_multiset_ensures;
    broadcast use group_multiset_axioms;

    if s.len() == 0 {
        assert(s =~= Seq::<T>::empty());
    } else {
        let s1 = s.drop_last();
        lemma_sort_of_multiset(s1, leq);
        lemma_insert_ord_multiset(sort_of(s1, leq), s.last(), leq);
        assert(s =~= s1.push(s.last()));
    }
}

/// Inserting into a sorted sequence keeps it sorted.
pub proof fn lemma_insert_ord_sorted<T>(t: Seq<T>, x: T, leq: spec_fn(T, T) -> bool)
    requires
        sorted_by(t, leq),
        transitive(leq),
        strongly_connected(leq),
    ensures
        sorted_by(insert_ord(t, x, leq), leq),
    decreases t.len(),
{
    broadcast use group_to_multiset_ensures;
    broadcast use group_multiset_axioms;

    if t.len() == 0 {
    } else if leq(t.last(), x) {
        let r = t.push(x);
        assert forall|i: int, j: int| 0 <= i < j < r.len() implies leq(r[i], r[j]) by {
            if j == r.len() - 1 && i < t.len() - 1 {
                assert(leq(t[i], t[t.len() - 1]));
            }
        }
    } else {
        assert(leq(x, t.last()));
        let t1 = t.drop_last();
        assert(sorted_by(t1, leq)) by {
            assert forall|i: int, j: int| 0 <= i < j < t1.len() implies leq(t1[i], t1[j]) by {
                assert(leq(t[i], t[j]));
            }
        }
        lemma_insert_ord_sorted(t1, x, leq);
        lemma_insert_ord_multiset(t1, x, leq);
        let r1 = insert_ord(t1, x, leq);
        assert forall|i: int| 0 <= i < r1.len() implies leq(r1[i], t.last()) by {
            assert(r1.contains(r1[i]));
            assert(r1.to_multiset().count(r1[i]) > 0);
            if r1[i] != x {
                assert(t1.to_multiset().count(r1[i]) > 0);
                assert(t1.contains(r1[i]));
                let j = choose|j: int| 0 <= j < t1.len() && t1[j] == r1[i];
                assert(leq(t[j], t[t.len() - 1]));
            }
        }
        let r = r1.push(t.last());
        assert forall|i: int, j: int| 0 <= i < j < r.len() implies leq(r[i], r[j]) by {
            if j < r.len() - 1 {
                assert(leq(r1[i], r1[j]));
            }
        }
    }
}

/// The sort of a sequence is sorted.
pub proof fn lemma_sort_of_sorted<T>(s: Seq<T>, leq: spec_fn(T, T) -> bool)
    requires
        transitive(leq),
        strongly_connected(leq),
    ensures
        sorted_by(sort_of(s, leq), leq),
    decreases s.len(),
{
    if s.len() == 0 {
    } else {
        lemma_sort_of_sorted(s.drop_last(), leq);
        lemma_insert_ord_sorted(sort_of(s.drop_last(), leq), s.last(), leq);
    }
}

/// What insertion does to a filtered view, when every two elements the
/// predicate keeps are ordered both ways by `leq` (equal keys): the new
/// element lands behind all of them.
pub proof fn lemma_insert_ord_filter<T>(
    t: Seq<T>,
    x: T,
    leq: spec_fn(T, T) -> bool,
    pred: spec_fn(T) -> bool,
)
    requires
        forall|u: T, v: T| #[trigger] pred(u) && #[trigger] pred(v) ==> leq(u, v),
    ensures
        insert_ord(t, x, leq).filter(pred) == if pred(x) {
            t.filter(pred).push(x)
        } else {
            t.filter(pred)
        },
    decreases t.len(),
{
    broadcast use Seq::lemma_filter_push;

    if t.len() == 0 {
        reveal(Seq::filter);
        assert(seq![x] =~= Seq::<T>::empty().push(x));
        assert(t =~= Seq::<T>::empty());
    } else if leq(t.last(), x) {
    } else {
        let t1 = t.drop_last();
        let l = t.last();
        lemma_insert_ord_filter(t1, x, leq, pred);
        assert(t =~= t1.push(l));
        if pred(x) && pred(l) {
            assert(leq(l, x));
            assert(false);
        }
    }
}

/// Stability: the sort leaves the subsequence of any one key untouched.
pub proof fn lemma_sort_of_stable<T>(
    s: Seq<T>,
    leq: spec_fn(T, T) -> bool,
    pred: spec_fn(T) -> bool,
)
    requires
        forall|u: T, v: T| #[trigger] pred(u) && #[trigger] pred(v) ==> leq(u, v),
    ensures
        sort_of(s, leq).filter(pred) == s.filter(pred),
    decreases s.len(),
{
    broadcast use Seq::lemma_filter_push;

    if s.len() == 0 {
    } else {
        let s1 = s.drop_last();
        lemma_sort_of_stable(s1, leq, pred);
        lemma_insert_ord_filter(sort_of(s1, leq), s.last(), leq, pred);
        assert(s =~= s1.push(s.last()));
    }
}

/// Where insertion lands: at index `j`, the first place from the right
/// whose predecessor is less than or equal to the new element.
pub proof fn lemma_insert_ord_position<T>(t: Seq<T>, x: T, leq: spec_fn(T, T) -> bool, j: int)
    requires
        0 <= j <= t.len(),
        j > 0 ==> leq(t[j - 1], x),
        forall|k: int| j <= k < t.len() ==> !leq(#[trigger] t[k], x),
    ensures
        insert_ord(t, x, leq) =~= t.insert(j, x),
    decreases t.len(),
{
    if t.len() == 0 {
        assert(insert_ord(t, x, leq) =~= t.insert(0, x));
    } else if leq(t.last(), x) {
        assert(j == t.len());
        assert(t.push(x) =~= t.insert(j, x));
    } else {
        assert(j < t.len());
        let t1 = t.drop_last();
        lemma_insert_ord_position(t1, x, leq, j);
        assert(t1.insert(j, x).push(t.last()) =~= t.insert(j, x));
    }
}

/// Two sequences sorted the same way, holding the same elements, none of
/// them sharing a key, are the same sequence.
pub proof fn lemma_sorted_unique_when_distinct<T>(x: Seq<T>, y: Seq<T>, leq: spec_fn(T, T) -> bool)
    requires
        sorted_by(x, leq),
        sorted_by(y, leq),
        x.to_multiset() == y.to_multiset(),
        forall|a: T, b: T|
            x.contains(a) && x.contains(b) && #[trigger] leq(a, b) && #[trigger] leq(b, a) ==> a
                == b,
    ensures
        x =~= y,
    decreases x.len(),
{
    broadcast use group_to_multiset_ensures;
    broadcast use group_multiset_axioms;

    if x.len() == 0 || y.len() == 0 {
        assert(x.to_multiset().len() == x.len());
        assert(y.to_multiset().len() == y.len());
        assert(x =~= y);
    } else {
        assert(y.contains(y[0]));
        assert(x.to_multiset().count(y[0]) > 0);
        assert(x.contains(y[0]));
        let i = choose|i: int| 0 <= i < x.len() && x[i] == y[0];
        assert(x.contains(x[0]));
        assert(y.to_multiset().count(x[0]) > 0);
        assert(y.contains(x[0]));
        let j = choose|j: int| 0 <= j < y.len() && y[j] == x[0];
        if i == 0 || j == 0 {
            assert(x[0] == y[0]);
        } else {
            assert(leq(x[0], x[i]));
            assert(leq(y[0], y[j]));
            assert(leq(x[i], x[0]));
            assert(x.contains(x[i]));
            assert(x[i] == x[0]);
            assert(x[0] == y[0]);
        }
        assert(x.remove(0) =~= x.drop_first());
        assert(y.remove(0) =~= y.drop_first());
        assert(x.drop_first().to_multiset() =~= x.to_multiset().remove(x[0]));
        assert(y.drop_first().to_multiset() =~= y.to_multiset().remove(y[0]));
        assert(sorted_by(x.drop_first(), leq)) by {
            assert forall|p: int, q: int| 0 <= p < q < x.drop_first().len() implies leq(
                x.drop_first()[p],
                x.drop_first()[q],
            ) by {
                assert(leq(x[p + 1], x[q + 1]));
            }
        }
        assert(sorted_by(y.drop_first(), leq)) by {
            assert forall|p: int, q: int| 0 <= p < q < y.drop_first().len() implies leq(
                y.drop_first()[p],
                y.drop_first()[q],
            ) by {
                assert(leq(y[p + 1], y[q + 1]));
            }
        }
        assert forall|a: T, b: T|
            x.drop_first().contains(a) && x.drop_first().contains(b) && #[trigger] leq(a, b)
                && #[trigger] leq(b, a) implies a == b by {
            let p = choose|p: int| 0 <= p < x.drop_first().len() && x.drop_first()[p] == a;
            let q = choose|q: int| 0 <= q < x.drop_first().len() && x.drop_first()[q] == b;
            assert(x[p + 1] == a);
            assert(x[q + 1] == b);
            assert(x.contains(a));
            assert(x.contains(b));
        }
        lemma_sorted_unique_when_distinct(x.drop_first(), y.drop_first(), leq);
        assert forall|k: int| 0 <= k < x.len() implies x[k] == y[k] by {
            if k > 0 {
                assert(x[k] == x.drop_first()[k - 1]);
                assert(y[k] == y.drop_first()[k - 1]);
            }
        }
        assert(x =~= y);
    }
}

/// Reversing a sequence sorted one way sorts it the other way.
pub proof fn lemma_reverse_sorted<T>(
    s: Seq<T>,
    leq: spec_fn(T, T) -> bool,
    geq: spec_fn(T, T) -> bool,
)
    requires
        sorted_by(s, leq),
        forall|a: T, b: T| #[trigger] geq(a, b) == leq(b, a),
    ensures
        sorted_by(s.reverse(), geq),
{
    let r = s.reverse();
    assert forall|i: int, j: int| 0 <= i < j < r.len() implies geq(r[i], r[j]) by {
        assert(r[i] == s[s.len() - 1 - i]);
        assert(r[j] == s[s.len() - 1 - j]);
        assert(leq(s[s.len() - 1 - j], s[s.len() - 1 - i]));
    }
}

/// When no two elements share a key, sorting one way and reversing is the
/// same as sorting the other way.
pub proof fn lemma_sort_of_reverse<T>(
    s: Seq<T>,
    leq: spec_fn(T, T) -> bool,
    geq: spec_fn(T, T) -> bool,
)
    requires
        transitive(leq),
        strongly_connected(leq),
        forall|a: T, b: T| #[trigger] geq(a, b) == leq(b, a),
        forall|i: int, j: int|
            0 <= i < j < s.len() ==> !(leq(#[trigger] s[i], #[trigger] s[j]) && leq(s[j], s[i])),
    ensures
        sort_of(s, geq) =~= sort_of(s, leq).reverse(),
{
    broadcast use group_to_multiset_ensures;
    broadcast use group_multiset_axioms;

    assert(transitive(geq)) by {
        assert forall|a: T, b: T, c: T| #[trigger] geq(a, b) && #[trigger] geq(b, c) implies geq(
            a,
            c,
        ) by {
            assert(leq(c, b) && leq(b, a));
        }
    }
    assert(strongly_connected(geq)) by {
        assert forall|a: T, b: T| #[trigger] geq(a, b) || #[trigger] geq(b, a) by {
            assert(leq(a, b) || leq(b, a));
        }
    }
    let down = sort_of(s, geq);
    let up = sort_of(s, leq);
    lemma_sort_of_sorted(s, geq);
    lemma_sort_of_sorted(s, leq);
    lemma_sort_of_multiset(s, geq);
    lemma_sort_of_multiset(s, leq);
    up.lemma_reverse_to_multiset();
    lemma_reverse_sorted(up, leq, geq);
    assert forall|a: T, b: T|
        down.contains(a) && down.contains(b) && #[trigger] geq(a, b) && #[trigger] geq(
            b,
            a,
        ) implies a == b by {
        assert(down.to_multiset().count(a) > 0);
        assert(down.to_multiset().count(b) > 0);
        assert(s.contains(a));
        assert(s.contains(b));
        if a != b {
            let ia = choose|ia: int| 0 <= ia < s.len() && s[ia] == a;
            let ib = choose|ib: int| 0 <= ib < s.len() && s[ib] == b;
            assert(ia != ib);
            assert(leq(a, b) && leq(b, a));
            if ia < ib {
                assert(!(leq(s[ia], s[ib]) && leq(s[ib], s[ia])));
            } else {
                assert(!(leq(s[ib], s[ia]) && leq(s[ia], s[ib])));
            }
        }
    }
    lemma_sorted_unique_when_distinct(down, up.reverse(), geq);
}

} // verus!
