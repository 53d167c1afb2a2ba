//! Sequences: the first element with a property, and keeping those with one.

use vstd::prelude::*;

verus! {

/// The index of the first element with the property.
pub open spec fn first_index<T>(s: Seq<T>, p: spec_fn(T) -> bool) -> Option<int>
    decreases s.len(),
{
    if s.len() == 0 {
        None
    } else {
        match first_index(s.drop_last(), p) {
            Some(i) => Some(i),
            None => if p(s.last()) {
                Some(s.len() - 1)
            } else {
                None
            },
        }
    }
}

pub proof fn lemma_first_index<T>(s: Seq<T>, p: spec_fn(T) -> bool)
    ensures
        match first_index(s, p) {
            Some(i) => 0 <= i < s.len() && p(s[i]) && forall|j: int| 0 <= j < i ==> !p(#[trigger] s[j]),
            None => forall|j: int| 0 <= j < s.len() ==> !p(#[trigger] s[j]),
        },
    decreases s.len(),
{
    if s.len() > 0 {
        let d = s.drop_last();
        lemma_first_index(d, p);
        assert forall|j: int| 0 <= j < d.len() implies #[trigger] s[j] == d[j] by {}
    }
}

/// An index with the property, no earlier one having it, is the first index.
pub proof fn lemma_first_index_is<T>(s: Seq<T>, p: spec_fn(T) -> bool, i: int)
    requires
        0 <= i < s.len(),
        p(s[i]),
        forall|j: int| 0 <= j < i ==> !p(#[trigger] s[j]),
    ensures
        first_index(s, p) == Some(i),
{
    lemma_first_index(s, p);
}

/// The elements with the property, in their order.
pub open spec fn keep<T>(s: Seq<T>, p: spec_fn(T) -> bool) -> Seq<T>
    decreases s.len(),
{
    if s.len() == 0 {
        seq![]
    } else if p(s.last()) {
        keep(s.drop_last(), p).push(s.last())
    } else {
        keep(s.drop_last(), p)
    }
}

/// `keep` over a prefix that grows by one.
pub proof fn lemma_keep_step<T>(s: Seq<T>, p: spec_fn(T) -> bool, i: int)
    requires
        0 <= i < s.len(),
    ensures
        keep(s.take(i + 1), p) == if p(s[i]) {
            keep(s.take(i), p).push(s[i])
        } else {
            keep(s.take(i), p)
        },
{
    assert(s.take(i + 1).drop_last() =~= s.take(i));
}

/// What is kept came from the sequence and has the property, and nothing else
/// is missing.
pub proof fn lemma_keep_contains<T>(s: Seq<T>, p: spec_fn(T) -> bool)
    ensures
        keep(s, p).len() <= s.len(),
        forall|x: T| #[trigger] keep(s, p).contains(x) <==> s.contains(x) && p(x),
    decreases s.len(),
{
    if s.len() > 0 {
        let d = s.drop_last();
        let k = keep(d, p);
        lemma_keep_contains(d, p);
        assert forall|x: T| #[trigger] keep(s, p).contains(x) <==> s.contains(x) && p(x) by {
            assert(s =~= d.push(s.last()));
            if s.contains(x) {
                let i = choose|i: int| 0 <= i < s.len() && s[i] == x;
                if i < d.len() {
                    assert(d[i] == x);
                }
            }
            if d.contains(x) {
                let i = choose|i: int| 0 <= i < d.len() && d[i] == x;
                assert(s[i] == x);
            }
            assert(s[s.len() - 1] == s.last());
            if p(s.last()) {
                let q = k.push(s.last());
                assert(q[k.len() as int] == s.last());
                if k.contains(x) {
                    let i = choose|i: int| 0 <= i < k.len() && k[i] == x;
                    assert(q[i] == x);
                }
                if q.contains(x) {
                    let i = choose|i: int| 0 <= i < q.len() && q[i] == x;
                    if i < k.len() {
                        assert(k[i] == x);
                    }
                }
            }
        }
    }
}

/// Two positions of what is kept come from two positions in the same order.
pub proof fn lemma_keep_order<T>(s: Seq<T>, p: spec_fn(T) -> bool, i: int, j: int) -> (r: (
    int,
    int,
))
    requires
        0 <= i < j < keep(s, p).len(),
    ensures
        0 <= r.0 < r.1 < s.len(),
        s[r.0] == keep(s, p)[i],
        s[r.1] == keep(s, p)[j],
        p(s[r.0]),
        p(s[r.1]),
    decreases s.len(),
{
    let d = s.drop_last();
    if p(s.last()) && j == keep(s, p).len() - 1 {
        lemma_keep_contains(d, p);
        assert(keep(d, p).contains(keep(d, p)[i]));
        let a = choose|a: int| 0 <= a < d.len() && d[a] == keep(d, p)[i];
        (a, s.len() - 1)
    } else {
        let (a, b) = lemma_keep_order(d, p, i, j);
        (a, b)
    }
}

/// Keeping everything changes nothing.
pub proof fn lemma_keep_all<T>(s: Seq<T>, p: spec_fn(T) -> bool)
    requires
        forall|i: int| 0 <= i < s.len() ==> p(#[trigger] s[i]),
    ensures
        keep(s, p) == s,
    decreases s.len(),
{
    if s.len() > 0 {
        assert forall|i: int| 0 <= i < s.drop_last().len() implies p(#[trigger] s.drop_last()[i]) by {
            assert(s.drop_last()[i] == s[i]);
        }
        lemma_keep_all(s.drop_last(), p);
        assert(s =~= s.drop_last().push(s.last()));
    }
}

/// Whether an element is the given one.
pub open spec fn is_one<T>(x: T) -> spec_fn(T) -> bool {
    |y: T| y == x
}

/// Whether an element is another than the given one.
pub open spec fn is_not<T>(x: T) -> spec_fn(T) -> bool {
    |y: T| y != x
}

/// The sequence without the given element.
pub open spec fn without<T>(s: Seq<T>, x: T) -> Seq<T> {
    keep(s, is_not(x))
}

/// The first index of the given element.
pub open spec fn index_in<T>(s: Seq<T>, x: T) -> Option<int> {
    first_index(s, is_one(x))
}

pub proof fn lemma_index_in<T>(s: Seq<T>, x: T)
    ensures
        s.contains(x) <==> index_in(s, x) is Some,
        index_in(s, x) matches Some(i) ==> 0 <= i < s.len() && s[i] == x,
{
    lemma_first_index(s, is_one(x));
    if s.contains(x) {
        let i = choose|i: int| 0 <= i < s.len() && s[i] == x;
        assert(is_one(x)(s[i]));
    }
}

/// No element twice, as it is kept.
pub proof fn lemma_keep_unique<T>(s: Seq<T>, p: spec_fn(T) -> bool)
    requires
        s.no_duplicates(),
    ensures
        keep(s, p).no_duplicates(),
{
    assert forall|i: int, j: int| 0 <= i < keep(s, p).len() && 0 <= j < keep(s, p).len() && i
        != j implies keep(s, p)[i] != keep(s, p)[j] by {
        if i < j {
            let (a, b) = lemma_keep_order(s, p, i, j);
        } else {
            let (a, b) = lemma_keep_order(s, p, j, i);
        }
    }
}

/// A sequence without repetition whose elements all occur in another is no
/// longer than that.
pub proof fn lemma_no_longer<T>(a: Seq<T>, b: Seq<T>)
    requires
        a.no_duplicates(),
        forall|i: int| 0 <= i < a.len() ==> b.contains(#[trigger] a[i]),
    ensures
        a.len() <= b.len(),
{
    broadcast use vstd::seq_lib::seq_to_set_is_finite;

    a.unique_seq_to_set();
    b.lemma_cardinality_of_set();
    assert(a.to_set().subset_of(b.to_set()));
    vstd::set_lib::lemma_len_subset(a.to_set(), b.to_set());
}

/// The elements with the property are what filtering the sequence leaves.
pub proof fn law_keep_filters<T>(s: Seq<T>, p: spec_fn(T) -> bool)
    ensures
        keep(s, p) == s.filter(p),
    decreases s.len(),
{
    reveal(Seq::filter);
    if s.len() > 0 {
        law_keep_filters(s.drop_last(), p);
    }
}

/// Taking an element out leaves the others in their order, and the place of an
/// element is the first that holds it.
pub proof fn law_without<T>(s: Seq<T>, x: T)
    ensures
        without(s, x) == s.filter(|y: T| y != x),
        !without(s, x).contains(x),
        match index_in(s, x) {
            Some(i) => 0 <= i < s.len() && s[i] == x && !s.take(i).contains(x),
            None => !s.contains(x),
        },
{
    law_keep_filters(s, is_not(x));
    assert(is_not(x) =~= (|y: T| y != x));
    lemma_keep_contains(s, is_not(x));
    lemma_first_index(s, is_one(x));
    lemma_index_in(s, x);
    if let Some(i) = index_in(s, x) {
        assert forall|j: int| 0 <= j < s.take(i).len() implies s.take(i)[j] != x by {
            assert(!is_one(x)(s[j]));
        }
    }
}

} // verus!
