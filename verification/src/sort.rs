//! A stable sort by a ranking.

use vstd::prelude::*;

verus! {

/// A way to tell which of two items goes first.
pub trait Ranking<T> {
    /// `a` goes strictly before `b`.
    spec fn before(&self, a: T, b: T) -> bool;

    fn goes_before(&self, a: &T, b: &T) -> (r: bool)
        ensures
            r == self.before(*a, *b),
    ;
}

/// `out` holds the items of `src`, each at the place that `perm` gives.
pub open spec fn arranged<T>(src: Seq<T>, out: Seq<T>, perm: Seq<int>) -> bool {
    &&& out.len() == src.len()
    &&& perm.len() == src.len()
    &&& perm.no_duplicates()
    &&& forall|i: int| #![trigger perm[i]]
        0 <= i < perm.len() ==> 0 <= perm[i] < src.len() && out[i] == src[perm[i]]
}

/// Among the items, going before is never mutual, and what does not go before
/// carries over.
pub open spec fn consistent<T, R: Ranking<T>>(rank: R, s: Seq<T>) -> bool {
    &&& forall|i: int, j: int| #![trigger s[i], s[j]]
        0 <= i < s.len() && 0 <= j < s.len() && rank.before(s[i], s[j]) ==> !rank.before(s[j], s[i])
    &&& forall|i: int, j: int, k: int| #![trigger s[i], s[j], s[k]]
        0 <= i < s.len() && 0 <= j < s.len() && 0 <= k < s.len() && !rank.before(s[i], s[j])
            && !rank.before(s[j], s[k]) ==> !rank.before(s[i], s[k])
}

/// No item goes before an earlier one, and items of which neither goes before
/// the other stand as they stood.
pub open spec fn in_order<T, R: Ranking<T>>(rank: R, out: Seq<T>, perm: Seq<int>) -> bool {
    forall|i: int, j: int| #![trigger out[i], out[j]]
        0 <= i < j < out.len() ==> !rank.before(out[j], out[i]) && (!rank.before(out[i], out[j])
            ==> perm[i] < perm[j])
}

/// `out` is a rearrangement of `src`, and, where the ranking is consistent,
/// stably sorted.
pub open spec fn sorted_from<T, R: Ranking<T>>(rank: R, src: Seq<T>, out: Seq<T>) -> bool {
    exists|perm: Seq<int>|
        #[trigger] arranged(src, out, perm) && (consistent(rank, src) ==> in_order(rank, out, perm))
}

/// Sorts items by a ranking; items that rank equal keep their order.
pub fn stable_sort<T, R: Ranking<T>>(rank: &R, items: Vec<T>) -> (r: Vec<T>)
    ensures
        sorted_from(*rank, items@, r@),
{
    let ghost src = items@;
    let mut rest = items;
    let mut out: Vec<T> = Vec::new();
    let ghost mut perm: Seq<int> = seq![];
    let ghost mut n: int = 0;
    assert(src.skip(0) =~= rest@);
    while rest.len() > 0
        invariant
            0 <= n <= src.len(),
            rest@ == src.skip(n),
            out@.len() == n,
            perm.len() == n,
            perm.no_duplicates(),
            forall|i: int| #![trigger perm[i]]
                0 <= i < n ==> 0 <= perm[i] < n && out@[i] == src[perm[i]],
            consistent(*rank, src) ==> in_order(*rank, out@, perm),
        decreases rest.len(),
    {
        let x = rest.remove(0);
        assert(x == src[n]);
        assert(rest@ =~= src.skip(n + 1));
        let mut pos: usize = out.len();
        while pos > 0 && rank.goes_before(&x, &out[pos - 1])
            invariant
                pos <= out@.len(),
                out@.len() == n,
                forall|k: int| pos <= k < out@.len() ==> rank.before(x, #[trigger] out@[k]),
            decreases pos,
        {
            pos = pos - 1;
        }
        let ghost old_out = out@;
        let ghost old_perm = perm;
        out.insert(pos, x);
        proof {
            perm = perm.insert(pos as int, n);
            lemma_insert(*rank, src, old_out, old_perm, n, pos as int);
            n = n + 1;
        }
    }
    assert(arranged(src, out@, perm));
    out
}

proof fn lemma_insert<T, R: Ranking<T>>(
    rank: R,
    src: Seq<T>,
    out: Seq<T>,
    perm: Seq<int>,
    n: int,
    pos: int,
)
    requires
        0 <= n < src.len(),
        out.len() == n,
        perm.len() == n,
        perm.no_duplicates(),
        forall|i: int| #![trigger perm[i]]
            0 <= i < n ==> 0 <= perm[i] < n && out[i] == src[perm[i]],
        consistent(rank, src) ==> in_order(rank, out, perm),
        0 <= pos <= n,
        forall|k: int| pos <= k < n ==> rank.before(src[n], #[trigger] out[k]),
        pos > 0 ==> !rank.before(src[n], out[pos - 1]),
    ensures
        perm.insert(pos, n).no_duplicates(),
        forall|i: int| #![trigger perm.insert(pos, n)[i]]
            0 <= i < n + 1 ==> 0 <= perm.insert(pos, n)[i] < n + 1 && out.insert(pos, src[n])[i]
                == src[perm.insert(pos, n)[i]],
        consistent(rank, src) ==> in_order(rank, out.insert(pos, src[n]), perm.insert(pos, n)),
{
    let x = src[n];
    let q = perm.insert(pos, n);
    let o = out.insert(pos, x);
    assert forall|i: int| #![trigger q[i]] 0 <= i < n + 1 implies 0 <= q[i] < n + 1 && o[i]
        == src[q[i]] by {
        if i < pos {
            assert(q[i] == perm[i]);
        } else if i > pos {
            assert(q[i] == perm[i - 1]);
        }
    }
    assert(q.no_duplicates()) by {
        assert forall|i: int, j: int|
            0 <= i < q.len() && 0 <= j < q.len() && i != j implies q[i] != q[j] by {
            let a = if i < pos {
                i
            } else {
                i - 1
            };
            let b = if j < pos {
                j
            } else {
                j - 1
            };
            if i != pos {
                assert(q[i] == perm[a]);
            }
            if j != pos {
                assert(q[j] == perm[b]);
            }
        }
    }
    if consistent(rank, src) {
        assert forall|i: int, j: int| #![trigger o[i], o[j]] 0 <= i < j < o.len() implies !rank.before(
            o[j],
            o[i],
        ) && (!rank.before(o[i], o[j]) ==> q[i] < q[j]) by {
            let a = if i < pos {
                i
            } else {
                i - 1
            };
            let b = if j < pos {
                j
            } else {
                j - 1
            };
            if i != pos && j != pos {
                assert(o[i] == out[a] && o[j] == out[b]);
                assert(q[i] == perm[a] && q[j] == perm[b]);
            } else if j == pos {
                assert(o[i] == out[i]);
                assert(q[i] == perm[i]);
                assert(o[j] == src[n]);
                let last = out[pos - 1];
                assert(last == src[perm[pos - 1]]);
                assert(out[i] == src[perm[i]]);
                if i < pos - 1 {
                    assert(!rank.before(out[pos - 1], out[i]));
                    assert(!rank.before(src[n], src[perm[pos - 1]]));
                    assert(!rank.before(src[perm[pos - 1]], src[perm[i]]));
                }
            } else {
                assert(o[j] == out[b]);
                assert(out[b] == src[perm[b]]);
                assert(rank.before(src[n], out[b]));
                assert(rank.before(src[n], src[perm[b]]));
            }
        }
    }
}

/// What is sorted holds each item of the source once, and by a ranking under which
/// going before is never mutual and not going before carries over, no item goes
/// before an earlier one; items that changed places differ in rank.
pub proof fn law_stable_sort<T, R: Ranking<T>>(rank: &R, items: Vec<T>, r: Vec<T>) -> (perm: Seq<
    int,
>)
    requires
        call_ensures(stable_sort::<T, R>, (rank, items), r),
    ensures
        r@.len() == items@.len() && perm.len() == items@.len(),
        forall|i: int, j: int| #![trigger perm[i], perm[j]]
            0 <= i < j < perm.len() ==> perm[i] != perm[j],
        forall|i: int| #![trigger perm[i]]
            0 <= i < perm.len() ==> 0 <= perm[i] < items@.len() && r@[i] == items@[perm[i]],
        (forall|a: T, b: T| #[trigger] rank.before(a, b) ==> !rank.before(b, a)) && (forall|
            a: T,
            b: T,
            c: T,
        | #![trigger rank.before(a, b), rank.before(b, c)]
            !rank.before(a, b) && !rank.before(b, c) ==> !rank.before(a, c)) ==> {
            &&& forall|i: int, j: int| #![trigger r@[i], r@[j]]
                0 <= i < j < r@.len() ==> !rank.before(r@[j], r@[i])
            &&& forall|i: int, j: int| #![trigger perm[i], perm[j]]
                0 <= i < j < r@.len() && perm[i] > perm[j] ==> rank.before(r@[i], r@[j])
        },
{
    let perm = choose|perm: Seq<int>| #[trigger]
        arranged(items@, r@, perm) && (consistent(*rank, items@) ==> in_order(*rank, r@, perm));
    if (forall|a: T, b: T| #[trigger] rank.before(a, b) ==> !rank.before(b, a)) && (forall|
        a: T,
        b: T,
        c: T,
    | #![trigger rank.before(a, b), rank.before(b, c)]
        !rank.before(a, b) && !rank.before(b, c) ==> !rank.before(a, c)) {
        assert(consistent(*rank, items@));
        assert forall|i: int, j: int| #![trigger perm[i], perm[j]]
            0 <= i < j < r@.len() && perm[i] > perm[j] implies rank.before(r@[i], r@[j]) by {
            assert(r@[i] == items@[perm[i]] && r@[j] == items@[perm[j]]);
        }
    }
    perm
}

} // verus!
