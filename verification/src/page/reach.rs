//! Whether walks through the blocks of a page come to an end.

use vstd::prelude::*;

use crate::ids::BlockId;
use crate::page::block::{
    block_at, bounded, find_block, grounded, hangs_within, has_id, kids, rooted, Block, BlockM,
};
use crate::seqs::{lemma_first_index, lemma_no_longer};

verus! {

broadcast use vstd::std_specs::vec::group_vec_axioms;

/// The identities of blocks.
pub open spec fn ids_of(bs: Seq<BlockM>) -> Seq<Seq<char>> {
    Seq::new(bs.len(), |i: int| bs[i].id())
}

pub proof fn lemma_bounded_mono(bs: Seq<BlockM>, id: Seq<char>, n: nat, m: nat)
    requires
        bounded(bs, id, n),
        n <= m,
    ensures
        bounded(bs, id, m),
    decreases n,
{
    assert forall|i: int| 0 <= i < kids(bs, id).len() implies bounded(
        bs,
        #[trigger] kids(bs, id)[i],
        (m - 1) as nat,
    ) by {
        lemma_bounded_mono(bs, kids(bs, id)[i], (n - 1) as nat, (m - 1) as nat);
    }
}

pub proof fn lemma_within_mono(bs: Seq<BlockM>, id: Seq<char>, n: nat, m: nat)
    requires
        hangs_within(bs, id, n),
        n <= m,
    ensures
        hangs_within(bs, id, m),
    decreases n,
{
    assert forall|i: int| 0 <= i < bs.len() && (#[trigger] bs[i]).parent() == Some(
        id,
    ) implies hangs_within(bs, bs[i].id(), (m - 1) as nat) by {
        lemma_within_mono(bs, bs[i].id(), (n - 1) as nat, (m - 1) as nat);
    }
}

/// A longest path downwards along the lists of children, without its last
/// step: blocks that all differ.
proof fn lemma_longest_list(bs: Seq<BlockM>, id: Seq<char>, n: nat) -> (path: Seq<Seq<char>>)
    requires
        n > 0,
        bounded(bs, id, n),
        !bounded(bs, id, (n - 1) as nat),
    ensures
        path.len() == n - 1,
        path.no_duplicates(),
        forall|k: int| 0 <= k < n - 1 ==> ids_of(bs).contains(#[trigger] path[k]),
        forall|k: int| 0 <= k < n - 1 ==> bounded(bs, #[trigger] path[k], (n - k) as nat),
    decreases n,
{
    if n == 1 {
        seq![]
    } else {
        let m = (n - 1) as nat;
        let i = choose|i: int|
            0 <= i < kids(bs, id).len() && !bounded(
                bs,
                #[trigger] kids(bs, id)[i],
                (m - 1) as nat,
            );
        lemma_first_index(bs, has_id(id));
        assert(ids_of(bs)[block_at(bs, id)->0] == id);
        let rest = lemma_longest_list(bs, kids(bs, id)[i], m);
        let path = seq![id] + rest;
        assert forall|k: int| 0 <= k < m implies ids_of(bs).contains(#[trigger] path[k]) && bounded(
            bs,
            path[k],
            (n - k) as nat,
        ) by {
            if k > 0 {
                assert(path[k] == rest[k - 1]);
            }
        }
        assert forall|j: int, k: int| 0 <= j < m && 0 <= k < m && j != k implies path[j]
            != path[k] by {
            if j > 0 && k > 0 {
                assert(path[j] == rest[j - 1] && path[k] == rest[k - 1]);
            } else {
                let far = if j > 0 {
                    j
                } else {
                    k
                };
                assert(path[far] == rest[far - 1]);
                if path[far] == id {
                    lemma_bounded_mono(bs, id, (n - far) as nat, m);
                }
            }
        }
        path
    }
}

/// A longest path downwards along the parents that blocks name, without its
/// start: blocks that all differ.
proof fn lemma_longest_line(bs: Seq<BlockM>, id: Seq<char>, n: nat) -> (path: Seq<Seq<char>>)
    requires
        n > 0,
        hangs_within(bs, id, n),
        !hangs_within(bs, id, (n - 1) as nat),
    ensures
        path.len() == n - 1,
        path.no_duplicates(),
        forall|k: int| 0 <= k < n - 1 ==> ids_of(bs).contains(#[trigger] path[k]),
        forall|k: int| 0 <= k < n - 1 ==> hangs_within(bs, #[trigger] path[k], (n - 1 - k) as nat),
    decreases n,
{
    if n == 1 {
        seq![]
    } else {
        let m = (n - 1) as nat;
        let i = choose|i: int|
            0 <= i < bs.len() && (#[trigger] bs[i]).parent() == Some(id) && !hangs_within(
                bs,
                bs[i].id(),
                (m - 1) as nat,
            );
        let head = bs[i].id();
        assert(ids_of(bs)[i] == head);
        let rest = lemma_longest_line(bs, head, m);
        let path = seq![head] + rest;
        assert forall|k: int| 0 <= k < m implies ids_of(bs).contains(#[trigger] path[k])
            && hangs_within(bs, path[k], (n - 1 - k) as nat) by {
            if k > 0 {
                assert(path[k] == rest[k - 1]);
            }
        }
        assert forall|j: int, k: int| 0 <= j < m && 0 <= k < m && j != k implies path[j]
            != path[k] by {
            if j > 0 && k > 0 {
                assert(path[j] == rest[j - 1] && path[k] == rest[k - 1]);
            } else {
                let far = if j > 0 {
                    j
                } else {
                    k
                };
                assert(path[far] == rest[far - 1]);
                if path[far] == head {
                    lemma_within_mono(bs, head, (n - 1 - far) as nat, (m - 1) as nat);
                }
            }
        }
        path
    }
}

proof fn lemma_list_bound(bs: Seq<BlockM>, id: Seq<char>, n: nat)
    requires
        bounded(bs, id, n),
    ensures
        bounded(bs, id, bs.len() + 1),
    decreases n,
{
    if n <= bs.len() + 1 {
        lemma_bounded_mono(bs, id, n, bs.len() + 1);
    } else if bounded(bs, id, (n - 1) as nat) {
        lemma_list_bound(bs, id, (n - 1) as nat);
    } else {
        let path = lemma_longest_list(bs, id, n);
        lemma_no_longer(path, ids_of(bs));
    }
}

proof fn lemma_line_bound(bs: Seq<BlockM>, id: Seq<char>, n: nat)
    requires
        hangs_within(bs, id, n),
    ensures
        hangs_within(bs, id, bs.len() + 1),
    decreases n,
{
    if n <= bs.len() + 1 {
        lemma_within_mono(bs, id, n, bs.len() + 1);
    } else if hangs_within(bs, id, (n - 1) as nat) {
        lemma_line_bound(bs, id, (n - 1) as nat);
    } else {
        let path = lemma_longest_line(bs, id, n);
        lemma_no_longer(path, ids_of(bs));
    }
}

/// Whether no path downwards along the lists of children has more than `n`
/// steps.
fn lists_within(blocks: &Vec<Block>, id: &BlockId, n: usize) -> (r: bool)
    ensures
        r == bounded(blocks.deep_view(), id.deep_view(), n as nat + 1),
    decreases n,
{
    let ghost bs = blocks.deep_view();
    let ghost ids = kids(bs, id.deep_view());
    if let Some(b) = find_block(blocks, id) {
        let children = b.children();
        let mut i: usize = 0;
        while i < children.len()
            invariant
                i <= children.len(),
                bs == blocks.deep_view(),
                ids == kids(bs, id.deep_view()),
                ids == children.deep_view(),
                forall|k: int| 0 <= k < i ==> bounded(bs, #[trigger] ids[k], n as nat),
            decreases children.len() - i,
        {
            assert(ids[i as int] == children@[i as int].deep_view());
            if n == 0 || !lists_within(blocks, &children[i], n - 1) {
                assert(!bounded(bs, ids[i as int], n as nat));
                return false;
            }
            i = i + 1;
        }
    }
    true
}

/// Whether no path downwards along the parents that blocks name has more than
/// `n` steps.
fn lines_within(blocks: &Vec<Block>, id: &BlockId, n: usize) -> (r: bool)
    ensures
        r == hangs_within(blocks.deep_view(), id.deep_view(), n as nat + 1),
    decreases n,
{
    let ghost bs = blocks.deep_view();
    let mut i: usize = 0;
    while i < blocks.len()
        invariant
            i <= blocks.len(),
            bs == blocks.deep_view(),
            forall|k: int|
                0 <= k < i && (#[trigger] bs[k]).parent() == Some(id.deep_view())
                    ==> hangs_within(bs, bs[k].id(), n as nat),
        decreases blocks.len() - i,
    {
        assert(bs[i as int] == blocks@[i as int].deep_view());
        if let Some(q) = blocks[i].parent() {
            if q.same(id) {
                if n == 0 || !lines_within(blocks, blocks[i].id(), n - 1) {
                    assert(!hangs_within(bs, bs[i as int].id(), n as nat));
                    return false;
                }
            }
        }
        i = i + 1;
    }
    true
}

/// Whether walking downwards from `id`, along the lists of children, comes to
/// an end.
pub fn is_grounded(blocks: &Vec<Block>, id: &BlockId) -> (r: bool)
    ensures
        r == grounded(blocks.deep_view(), id.deep_view()),
{
    let ghost bs = blocks.deep_view();
    assert(bs.len() == blocks.len());
    proof {
        if grounded(bs, id.deep_view()) {
            lemma_list_bound(bs, id.deep_view(), choose|n: nat| bounded(bs, id.deep_view(), n));
        }
    }
    lists_within(blocks, id, blocks.len())
}

/// Whether the parents that blocks name lead back to `id` on finite paths
/// only.
pub fn is_rooted(blocks: &Vec<Block>, id: &BlockId) -> (r: bool)
    ensures
        r == rooted(blocks.deep_view(), id.deep_view()),
{
    let ghost bs = blocks.deep_view();
    assert(bs.len() == blocks.len());
    proof {
        if rooted(bs, id.deep_view()) {
            lemma_line_bound(bs, id.deep_view(), choose|n: nat| hangs_within(bs, id.deep_view(), n));
        }
    }
    lines_within(blocks, id, blocks.len())
}

} // verus!
