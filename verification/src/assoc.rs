//! Tables from texts to values, as lists of entries in the order in which
//! their keys first came.

use vstd::prelude::*;

use crate::seqs::{
    first_index, keep, lemma_first_index, lemma_first_index_is, lemma_keep_contains,
    lemma_keep_order, lemma_keep_step,
};
use crate::text::same;

verus! {

broadcast use vstd::std_specs::vec::group_vec_axioms;

/// Whether an entry has the key.
pub open spec fn has_key<T>(k: Seq<char>) -> spec_fn((Seq<char>, T)) -> bool {
    |e: (Seq<char>, T)| e.0 == k
}

/// Whether an entry has another key.
pub open spec fn lacks_key<T>(k: Seq<char>) -> spec_fn((Seq<char>, T)) -> bool {
    |e: (Seq<char>, T)| e.0 != k
}

/// Where the entry with the key stands.
pub open spec fn slot<T>(m: Seq<(Seq<char>, T)>, k: Seq<char>) -> Option<int> {
    first_index(m, has_key(k))
}

/// The value that a key is bound to.
pub open spec fn lookup<T>(m: Seq<(Seq<char>, T)>, k: Seq<char>) -> Option<T> {
    match slot(m, k) {
        Some(i) => Some(m[i].1),
        None => None,
    }
}

/// The table with a key bound to a value; a new key comes last.
pub open spec fn bind<T>(m: Seq<(Seq<char>, T)>, k: Seq<char>, v: T) -> Seq<(Seq<char>, T)> {
    match slot(m, k) {
        Some(i) => m.update(i, (k, v)),
        None => m.push((k, v)),
    }
}

/// The table without a key.
pub open spec fn unbind<T>(m: Seq<(Seq<char>, T)>, k: Seq<char>) -> Seq<(Seq<char>, T)> {
    keep(m, lacks_key(k))
}

/// No key occurs twice.
pub open spec fn keys_differ<T>(m: Seq<(Seq<char>, T)>) -> bool {
    forall|i: int, j: int| 0 <= i < j < m.len() ==> (#[trigger] m[i]).0 != (#[trigger] m[j]).0
}

pub proof fn lemma_slot<T>(m: Seq<(Seq<char>, T)>, k: Seq<char>)
    ensures
        match slot(m, k) {
            Some(i) => 0 <= i < m.len() && m[i].0 == k && forall|j: int|
                0 <= j < i ==> (#[trigger] m[j]).0 != k,
            None => forall|j: int| 0 <= j < m.len() ==> (#[trigger] m[j]).0 != k,
        },
{
    lemma_first_index(m, has_key(k));
    match slot(m, k) {
        Some(i) => {
            assert forall|j: int| 0 <= j < i implies (#[trigger] m[j]).0 != k by {
                assert(!has_key(k)(m[j]));
            }
        },
        None => {
            assert forall|j: int| 0 <= j < m.len() implies (#[trigger] m[j]).0 != k by {
                assert(!has_key(k)(m[j]));
            }
        },
    }
}

pub proof fn lemma_slot_is<T>(m: Seq<(Seq<char>, T)>, k: Seq<char>, i: int)
    requires
        0 <= i < m.len(),
        m[i].0 == k,
        forall|j: int| 0 <= j < i ==> (#[trigger] m[j]).0 != k,
    ensures
        slot(m, k) == Some(i),
{
    lemma_first_index_is(m, has_key(k), i);
}

/// What was bound is found, and every other key keeps its value.
pub proof fn law_bind_lookup<T>(m: Seq<(Seq<char>, T)>, k: Seq<char>, v: T, other: Seq<char>)
    ensures
        lookup(bind(m, k, v), k) == Some(v),
        other != k ==> lookup(bind(m, k, v), other) == lookup(m, other),
{
    lemma_slot(m, k);
    let b = bind(m, k, v);
    match slot(m, k) {
        Some(i) => {
            assert forall|j: int| 0 <= j < i implies (#[trigger] b[j]).0 != k by {
                assert(m[j].0 != k);
            }
            lemma_slot_is(b, k, i);
        },
        None => {
            assert forall|j: int| 0 <= j < m.len() implies (#[trigger] b[j]).0 != k by {
                assert(m[j].0 != k);
            }
            lemma_slot_is(b, k, m.len() as int);
        },
    }
    if other != k {
        lemma_slot(m, other);
        lemma_slot(b, other);
        match slot(m, other) {
            Some(i) => {
                assert(b[i] == m[i]);
                assert forall|j: int| 0 <= j < i implies (#[trigger] b[j]).0 != other by {
                    assert(m[j].0 != other);
                }
                lemma_slot_is(b, other, i);
            },
            None => {
                if slot(b, other) is Some {
                    let i = slot(b, other)->0;
                    if i < m.len() {
                        assert(m[i].0 != other);
                    }
                }
            },
        }
    }
}

/// A key that was taken out is gone, and every other key keeps its value.
pub proof fn law_unbind_lookup<T>(m: Seq<(Seq<char>, T)>, k: Seq<char>, other: Seq<char>)
    ensures
        lookup(unbind(m, k), k) is None,
        other != k ==> lookup(unbind(m, k), other) == lookup(m, other),
    decreases m.len(),
{
    let u = unbind(m, k);
    lemma_keep_contains(m, lacks_key::<T>(k));
    lemma_slot(u, k);
    if slot(u, k) is Some {
        let i = slot(u, k)->0;
        assert(u.contains(u[i]));
        assert(lacks_key::<T>(k)(u[i]));
    }
    if other != k && m.len() > 0 {
        let d = m.drop_last();
        law_unbind_lookup(d, k, other);
        let v = unbind(d, k);
        if m.last().0 != k {
            assert(u == v.push(m.last()));
            assert(u.drop_last() =~= v);
        } else {
            assert(u == v);
        }
        lemma_slot(d, other);
        lemma_slot(v, other);
    }
}

/// Binding keeps the keys different.
pub proof fn law_bind_keys<T>(m: Seq<(Seq<char>, T)>, k: Seq<char>, v: T)
    requires
        keys_differ(m),
    ensures
        keys_differ(bind(m, k, v)),
{
    lemma_slot(m, k);
    let b = bind(m, k, v);
    assert forall|i: int, j: int| 0 <= i < j < b.len() implies (#[trigger] b[i]).0
        != (#[trigger] b[j]).0 by {
        assert(i < m.len());
        if j < m.len() {
            assert(m[i].0 != m[j].0);
        } else {
            assert(m[i].0 != k);
        }
    }
}

/// Taking a key out keeps the keys different.
pub proof fn law_unbind_keys<T>(m: Seq<(Seq<char>, T)>, k: Seq<char>)
    requires
        keys_differ(m),
    ensures
        keys_differ(unbind(m, k)),
{
    let u = unbind(m, k);
    assert forall|i: int, j: int| 0 <= i < j < u.len() implies (#[trigger] u[i]).0
        != (#[trigger] u[j]).0 by {
        let (a, b) = lemma_keep_order(m, lacks_key::<T>(k), i, j);
        assert(m[a].0 != m[b].0);
    }
}

/// Where the entry with the key stands.
pub fn find_slot<T: DeepView>(m: &Vec<(String, T)>, k: &str) -> (r: Option<usize>)
    ensures
        match r {
            Some(i) => i < m@.len() && slot(m.deep_view(), k@) == Some(i as int),
            None => slot(m.deep_view(), k@) is None,
        },
{
    let ghost all = m.deep_view();
    let mut i: usize = 0;
    while i < m.len()
        invariant
            i <= m.len(),
            all == m.deep_view(),
            forall|j: int| 0 <= j < i ==> (#[trigger] all[j]).0 != k@,
        decreases m.len() - i,
    {
        assert(all[i as int].0 == m@[i as int].0@);
        if same(m[i].0.as_str(), k) {
            proof {
                lemma_slot_is(all, k@, i as int);
            }
            return Some(i);
        }
        i = i + 1;
    }
    proof {
        lemma_slot(all, k@);
    }
    None
}

/// The value that a key is bound to.
pub fn get<'a, T: DeepView>(m: &'a Vec<(String, T)>, k: &str) -> (r: Option<&'a T>)
    ensures
        match r {
            Some(v) => lookup(m.deep_view(), k@) == Some(v.deep_view()),
            None => lookup(m.deep_view(), k@) is None,
        },
{
    match find_slot(m, k) {
        Some(i) => Some(&m[i].1),
        None => None,
    }
}

/// Binds a key to a value.
pub fn put<T: DeepView>(m: &mut Vec<(String, T)>, k: &str, v: T)
    ensures
        final(m).deep_view() == bind(old(m).deep_view(), k@, v.deep_view()),
{
    let ghost all = m.deep_view();
    match find_slot(m, k) {
        Some(i) => {
            m.set(i, (k.to_owned(), v));
            assert(m.deep_view() =~= all.update(i as int, (k@, v.deep_view())));
        },
        None => {
            m.push((k.to_owned(), v));
            assert(m.deep_view() =~= all.push((k@, v.deep_view())));
        },
    }
}

/// Takes a key out; whether it was there.
pub fn remove<T: DeepView>(m: &mut Vec<(String, T)>, k: &str) -> (r: bool)
    ensures
        final(m).deep_view() == unbind(old(m).deep_view(), k@),
        r == (lookup(old(m).deep_view(), k@) is Some),
{
    let ghost all = m.deep_view();
    let ghost p = lacks_key::<T::V>(k@);
    let ghost whole = m@;
    let total: usize = m.len();
    let found = find_slot(m, k).is_some();
    let mut left: Vec<(String, T)> = Vec::new();
    let mut done: usize = 0;
    assert(left.deep_view() =~= keep(all.take(0), p));
    assert(whole.skip(0) =~= m@);
    while m.len() > 0
        invariant
            done <= whole.len(),
            whole.len() == total,
            m@ == whole.skip(done as int),
            all.len() == whole.len(),
            forall|i: int|
                0 <= i < whole.len() ==> #[trigger] all[i] == (
                    whole[i].0.deep_view(),
                    whole[i].1.deep_view(),
                ),
            p == lacks_key::<T::V>(k@),
            left.deep_view() == keep(all.take(done as int), p),
        decreases m.len(),
    {
        let entry = m.remove(0);
        assert(entry == whole[done as int]);
        assert(m@ =~= whole.skip(done + 1));
        proof {
            lemma_keep_step(all, p, done as int);
        }
        let ghost sofar = left.deep_view();
        assert(all[done as int] == (entry.0.deep_view(), entry.1.deep_view()));
        if !same(entry.0.as_str(), k) {
            left.push(entry);
            assert(left.deep_view() =~= sofar.push(all[done as int]));
        }
        done = done + 1;
    }
    assert(all.take(done as int) =~= all);
    *m = left;
    found
}

/// Binding leaves every other entry at its place: a new key comes behind all, and
/// an old one stays where it is. Unbinding leaves the others in their order.
pub proof fn law_bind_order<T>(m: Seq<(Seq<char>, T)>, k: Seq<char>, v: T)
    ensures
        lookup(m, k) is None ==> bind(m, k, v) == m.push((k, v)),
        lookup(m, k) is Some ==> bind(m, k, v).len() == m.len() && exists|i: int|
            0 <= i < m.len() && (#[trigger] m[i]).0 == k && bind(m, k, v) == m.update(i, (k, v)),
        unbind(m, k) == m.filter(|e: (Seq<char>, T)| e.0 != k),
{
    crate::seqs::lemma_first_index(m, has_key(k));
    crate::seqs::law_keep_filters(m, lacks_key(k));
    assert(lacks_key::<T>(k) =~= (|e: (Seq<char>, T)| e.0 != k));
    if let Some(i) = slot(m, k) {
        assert(m[i].0 == k);
    }
}

} // verus!
