//! Embedding only what changed.

use vstd::prelude::*;

use crate::assoc::{bind, get, lookup, put};
use crate::float::F32;
use crate::llm::unit::{TextUnit, TextUnitM};
use crate::seqs::{keep, lemma_keep_contains, lemma_keep_step};

verus! {

broadcast use vstd::std_specs::vec::group_vec_axioms;

/// An embedding with the version of the text that it was computed from.
#[derive(Debug, PartialEq)]
pub struct CachedEmbedding {
    pub vector: Vec<F32>,
    pub version: u64,
}

/// What a `CachedEmbedding` holds.
#[verifier::ext_equal]
pub struct CachedEmbeddingM {
    pub vector: Seq<F32>,
    pub version: u64,
}

impl DeepView for CachedEmbedding {
    type V = CachedEmbeddingM;

    open spec fn deep_view(&self) -> CachedEmbeddingM {
        CachedEmbeddingM {
            vector: self.vector.deep_view(),
            version: self.version,
        }
    }
}

impl Clone for CachedEmbedding {
    fn clone(&self) -> (r: Self)
        ensures
            r.deep_view() == self.deep_view(),
    {
        CachedEmbedding {
            vector: self.vector.clone(),
            version: self.version,
        }
    }
}

/// Embeddings by block.
#[derive(Debug, PartialEq)]
pub struct EmbeddingCache {
    pub entries: Vec<(String, CachedEmbedding)>,
}

/// What a `EmbeddingCache` holds.
#[verifier::ext_equal]
pub struct EmbeddingCacheM {
    pub entries: Seq<(Seq<char>, CachedEmbeddingM)>,
}

impl DeepView for EmbeddingCache {
    type V = EmbeddingCacheM;

    open spec fn deep_view(&self) -> EmbeddingCacheM {
        EmbeddingCacheM {
            entries: self.entries.deep_view(),
        }
    }
}


/// The embedding of a block, if it is of the version or a later one.
pub open spec fn cached(c: EmbeddingCacheM, id: Seq<char>, version: u64) -> Option<Seq<F32>> {
    match lookup(c.entries, id) {
        Some(e) => if e.version >= version {
            Some(e.vector)
        } else {
            None
        },
        None => None,
    }
}

impl EmbeddingCache {
    pub fn new() -> (r: EmbeddingCache)
        ensures
            r.deep_view() == (EmbeddingCacheM { entries: seq![] }),
    {
        let r = EmbeddingCache { entries: Vec::new() };
        assert(r.deep_view().entries =~= seq![]);
        r
    }

    /// Sets the embedding of a block.
    pub fn load(&mut self, block_id: &str, vector: Vec<F32>, version: u64)
        ensures
            final(self).deep_view().entries == bind(
                old(self).deep_view().entries,
                block_id@,
                (CachedEmbeddingM { vector: vector.deep_view(), version }),
            ),
    {
        put(&mut self.entries, block_id, CachedEmbedding { vector, version });
    }

    /// The embedding of a block, if it is of the version or a later one.
    pub fn get(&self, block_id: &str, content_version: u64) -> (r: Option<&Vec<F32>>)
        ensures
            match r {
                Some(v) => cached(self.deep_view(), block_id@, content_version) == Some(
                    v.deep_view(),
                ),
                None => cached(self.deep_view(), block_id@, content_version) is None,
            },
    {
        match get(&self.entries, block_id) {
            Some(e) => if e.version >= content_version {
                Some(&e.vector)
            } else {
                None
            },
            None => None,
        }
    }

    /// How many blocks have an embedding.
    pub fn len(&self) -> (r: usize)
        ensures
            r == self.deep_view().entries.len(),
    {
        self.entries.len()
    }

    pub fn is_empty(&self) -> (r: bool)
        ensures
            r == (self.deep_view().entries.len() == 0),
    {
        self.entries.len() == 0
    }
}

/// A unit of text with its version, and the version that was embedded last.
#[derive(Debug, PartialEq)]
pub struct EmbedUnit {
    pub unit: TextUnit,
    pub content_version: u64,
    pub embedding_version: u64,
}

/// What a `EmbedUnit` holds.
#[verifier::ext_equal]
pub struct EmbedUnitM {
    pub unit: TextUnitM,
    pub content_version: u64,
    pub embedding_version: u64,
}

impl DeepView for EmbedUnit {
    type V = EmbedUnitM;

    open spec fn deep_view(&self) -> EmbedUnitM {
        EmbedUnitM {
            unit: self.unit.deep_view(),
            content_version: self.content_version,
            embedding_version: self.embedding_version,
        }
    }
}

impl Clone for EmbedUnit {
    fn clone(&self) -> (r: Self)
        ensures
            r.deep_view() == self.deep_view(),
    {
        EmbedUnit {
            unit: self.unit.clone(),
            content_version: self.content_version,
            embedding_version: self.embedding_version,
        }
    }
}

/// A unit of text with its embedding.
#[derive(Debug, PartialEq)]
pub struct Embedded {
    pub unit: TextUnit,
    pub vector: Vec<F32>,
}

/// What a `Embedded` holds.
#[verifier::ext_equal]
pub struct EmbeddedM {
    pub unit: TextUnitM,
    pub vector: Seq<F32>,
}

impl DeepView for Embedded {
    type V = EmbeddedM;

    open spec fn deep_view(&self) -> EmbeddedM {
        EmbeddedM {
            unit: self.unit.deep_view(),
            vector: self.vector.deep_view(),
        }
    }
}

impl Clone for Embedded {
    fn clone(&self) -> (r: Self)
        ensures
            r.deep_view() == self.deep_view(),
    {
        Embedded {
            unit: self.unit.clone(),
            vector: self.vector.clone(),
        }
    }
}

/// What was embedded anew, and what was taken over.
#[derive(Debug, PartialEq)]
pub struct DiffEmbedResult {
    pub refreshed: Vec<Embedded>,
    pub reused: Vec<Embedded>,
}

/// What a `DiffEmbedResult` holds.
#[verifier::ext_equal]
pub struct DiffEmbedResultM {
    pub refreshed: Seq<EmbeddedM>,
    pub reused: Seq<EmbeddedM>,
}

impl DeepView for DiffEmbedResult {
    type V = DiffEmbedResultM;

    open spec fn deep_view(&self) -> DiffEmbedResultM {
        DiffEmbedResultM {
            refreshed: self.refreshed.deep_view(),
            reused: self.reused.deep_view(),
        }
    }
}

impl Clone for DiffEmbedResult {
    fn clone(&self) -> (r: Self)
        ensures
            r.deep_view() == self.deep_view(),
    {
        DiffEmbedResult {
            refreshed: self.refreshed.clone(),
            reused: self.reused.clone(),
        }
    }
}

/// What is taken over, and what is to be embedded, batch by batch.
#[derive(Debug, PartialEq)]
pub struct EmbedPlan {
    pub reused: Vec<Embedded>,
    pub batches: Vec<Vec<TextUnit>>,
}

/// What a `EmbedPlan` holds.
#[verifier::ext_equal]
pub struct EmbedPlanM {
    pub reused: Seq<EmbeddedM>,
    pub batches: Seq<Seq<TextUnitM>>,
}

impl DeepView for EmbedPlan {
    type V = EmbedPlanM;

    open spec fn deep_view(&self) -> EmbedPlanM {
        EmbedPlanM {
            reused: self.reused.deep_view(),
            batches: self.batches.deep_view(),
        }
    }
}

impl Clone for EmbedPlan {
    fn clone(&self) -> (r: Self)
        ensures
            r.deep_view() == self.deep_view(),
    {
        EmbedPlan {
            reused: self.reused.clone(),
            batches: self.batches.clone(),
        }
    }
}

/// The embedding that can be taken over for a unit: one of the version that
/// was embedded last where that is up to date, else one of the text's version.
pub open spec fn reusable(c: Option<EmbeddingCacheM>, u: EmbedUnitM) -> Option<Seq<F32>> {
    match c {
        Some(c) => cached(
            c,
            u.unit.id,
            if u.embedding_version >= u.content_version {
                u.embedding_version
            } else {
                u.content_version
            },
        ),
        None => None,
    }
}

/// Whether a unit has to be embedded anew.
pub open spec fn needs_embedding(c: Option<EmbeddingCacheM>) -> spec_fn(EmbedUnitM) -> bool {
    |u: EmbedUnitM| u.embedding_version < u.content_version && reusable(c, u) is None
}

/// Whether an embedding can be taken over for a unit.
pub open spec fn has_reusable(c: Option<EmbeddingCacheM>) -> spec_fn(EmbedUnitM) -> bool {
    |u: EmbedUnitM| reusable(c, u) is Some
}

/// The units with the embeddings that are taken over.
pub open spec fn reused_units(c: Option<EmbeddingCacheM>, units: Seq<EmbedUnitM>) -> Seq<
    EmbeddedM,
> {
    let us = keep(units, has_reusable(c));
    Seq::new(us.len(), |i: int| EmbeddedM { unit: us[i].unit, vector: reusable(c, us[i])->0 })
}

/// The units that are to be embedded anew.
pub open spec fn stale_units(c: Option<EmbeddingCacheM>, units: Seq<EmbedUnitM>) -> Seq<
    TextUnitM,
> {
    let us = keep(units, needs_embedding(c));
    Seq::new(us.len(), |i: int| us[i].unit)
}

/// Cut into batches of `n` items, the last with what is left.
pub open spec fn chunks<T>(s: Seq<T>, n: nat) -> Seq<Seq<T>>
    decreases s.len(),
{
    if s.len() == 0 || n == 0 {
        seq![]
    } else if s.len() <= n {
        seq![s]
    } else {
        seq![s.take(n as int)] + chunks(s.skip(n as int), n)
    }
}

/// All batches, one behind the other.
pub open spec fn flat<T>(bs: Seq<Seq<T>>) -> Seq<T>
    decreases bs.len(),
{
    if bs.len() == 0 {
        seq![]
    } else {
        bs[0] + flat(bs.drop_first())
    }
}

/// What is to be done for the units.
pub open spec fn embed_plan(
    c: Option<EmbeddingCacheM>,
    units: Seq<EmbedUnitM>,
    batch_size: nat,
) -> EmbedPlanM {
    EmbedPlanM {
        reused: reused_units(c, units),
        batches: chunks(stale_units(c, units), batch_size),
    }
}

/// What a cache holds, if there is one.
pub open spec fn cache_view(c: Option<&EmbeddingCache>) -> Option<EmbeddingCacheM> {
    match c {
        Some(c) => Some(c.deep_view()),
        None => None,
    }
}

fn find_embedding(cache: Option<&EmbeddingCache>, u: &EmbedUnit) -> (r: Option<Vec<F32>>)
    ensures
        r.deep_view() == reusable(cache_view(cache), u.deep_view()),
{
    let version: u64 = if u.embedding_version >= u.content_version {
        u.embedding_version
    } else {
        u.content_version
    };
    match cache {
        Some(c) => match c.get(u.unit.id.as_str(), version) {
            Some(v) => Some(v.clone()),
            None => None,
        },
        None => None,
    }
}

fn copy_units(s: &Vec<TextUnit>, from: usize, to: usize) -> (r: Vec<TextUnit>)
    requires
        from <= to <= s@.len(),
    ensures
        r.deep_view() == s.deep_view().subrange(from as int, to as int),
{
    let ghost all = s.deep_view();
    let mut r: Vec<TextUnit> = Vec::new();
    let mut i: usize = from;
    assert(r.deep_view() =~= all.subrange(from as int, from as int));
    while i < to
        invariant
            from <= i <= to <= s@.len(),
            all == s.deep_view(),
            r.deep_view() == all.subrange(from as int, i as int),
        decreases to - i,
    {
        let ghost done = r.deep_view();
        r.push(s[i].clone());
        assert(r.deep_view() =~= done.push(all[i as int]));
        assert(all.subrange(from as int, i + 1) =~= done.push(all[i as int]));
        i = i + 1;
    }
    r
}

fn cut_batches(s: &Vec<TextUnit>, n: usize) -> (r: Vec<Vec<TextUnit>>)
    requires
        n > 0,
    ensures
        r.deep_view() == chunks(s.deep_view(), n as nat),
{
    let ghost all = s.deep_view();
    let ghost want = chunks(all, n as nat);
    let mut r: Vec<Vec<TextUnit>> = Vec::new();
    let mut at: usize = 0;
    assert(all.skip(0) =~= all);
    assert(r.deep_view() + chunks(all.skip(0), n as nat) =~= want);
    while at < s.len()
        invariant
            n > 0,
            at <= s.len(),
            all == s.deep_view(),
            want == r.deep_view() + chunks(all.skip(at as int), n as nat),
        decreases s.len() - at,
    {
        let rest: usize = s.len() - at;
        let ghost tail = all.skip(at as int);
        let end: usize = if rest <= n {
            s.len()
        } else {
            at + n
        };
        let ghost done = r.deep_view();
        let batch = copy_units(s, at, end);
        r.push(batch);
        assert(r.deep_view() =~= done.push(batch.deep_view()));
        proof {
            assert(batch.deep_view() =~= if rest <= n {
                tail
            } else {
                tail.take(n as int)
            });
            if rest > n {
                assert(tail.skip(n as int) =~= all.skip(end as int));
            }
            if rest <= n {
                assert(chunks(all.skip(end as int), n as nat) =~= seq![]);
            }
            assert(want =~= r.deep_view() + chunks(all.skip(end as int), n as nat));
        }
        at = end;
    }
    assert(chunks(all.skip(at as int), n as nat) =~= seq![]);
    assert(r.deep_view() =~= want);
    r
}

/// What is to be done for the units: which embeddings are taken over, and
/// which texts are embedded anew, at most `batch_size` at a time.
pub fn plan_embed(
    cache: Option<&EmbeddingCache>,
    units: &Vec<EmbedUnit>,
    batch_size: usize,
) -> (r: EmbedPlan)
    requires
        batch_size > 0,
    ensures
        r.deep_view() == embed_plan(cache_view(cache), units.deep_view(), batch_size as nat),
{
    let ghost c = cache_view(cache);
    let ghost all = units.deep_view();
    let ghost p = needs_embedding(c);
    let ghost q = has_reusable(c);
    let mut reused: Vec<Embedded> = Vec::new();
    let mut stale: Vec<TextUnit> = Vec::new();
    let mut i: usize = 0;
    assert(reused.deep_view() =~= reused_units(c, all.take(0)));
    assert(stale.deep_view() =~= stale_units(c, all.take(0)));
    while i < units.len()
        invariant
            i <= units.len(),
            c == cache_view(cache),
            all == units.deep_view(),
            p == needs_embedding(c),
            q == has_reusable(c),
            reused.deep_view() == reused_units(c, all.take(i as int)),
            stale.deep_view() == stale_units(c, all.take(i as int)),
        decreases units.len() - i,
    {
        proof {
            lemma_keep_step(all, p, i as int);
            lemma_keep_step(all, q, i as int);
        }
        assert(all[i as int] == units@[i as int].deep_view());
        let ghost old_reused = reused.deep_view();
        let ghost old_stale = stale.deep_view();
        let u = &units[i];
        match find_embedding(cache, u) {
            Some(v) => {
                let e = Embedded { unit: u.unit.clone(), vector: v };
                reused.push(e);
                assert(reused.deep_view() =~= old_reused.push(e.deep_view()));
                assert(reused.deep_view() =~= reused_units(c, all.take(i + 1)));
            },
            None => {
                if u.embedding_version < u.content_version {
                    stale.push(u.unit.clone());
                    assert(stale.deep_view() =~= old_stale.push(u.unit.deep_view()));
                    assert(stale.deep_view() =~= stale_units(c, all.take(i + 1)));
                }
            },
        }
        i = i + 1;
    }
    assert(all.take(i as int) =~= all);
    EmbedPlan { reused, batches: cut_batches(&stale, batch_size) }
}

/// The texts of units.
pub open spec fn texts_of(units: Seq<TextUnitM>) -> Seq<Seq<char>> {
    Seq::new(units.len(), |i: int| units[i].text)
}

/// The texts that a batch hands to the language model.
pub fn batch_texts(batch: &Vec<TextUnit>) -> (r: Vec<String>)
    ensures
        r.deep_view() == texts_of(batch.deep_view()),
{
    let ghost us = batch.deep_view();
    let ghost want = texts_of(us);
    let mut r: Vec<String> = Vec::new();
    let mut i: usize = 0;
    assert(r.deep_view() =~= want.take(0));
    while i < batch.len()
        invariant
            i <= batch.len(),
            us == batch.deep_view(),
            want == texts_of(us),
            r.deep_view() == want.take(i as int),
        decreases batch.len() - i,
    {
        assert(us[i as int] == batch@[i as int].deep_view());
        let ghost done = r.deep_view();
        r.push(batch[i].text.clone());
        assert(r.deep_view() =~= done.push(want[i as int]));
        assert(want.take(i + 1) =~= done.push(want[i as int]));
        i = i + 1;
    }
    assert(want.take(i as int) =~= want);
    r
}

/// Units with the vectors that came back, as far as both go.
pub open spec fn paired(units: Seq<TextUnitM>, vectors: Seq<Seq<F32>>) -> Seq<EmbeddedM> {
    Seq::new(
        if units.len() < vectors.len() {
            units.len()
        } else {
            vectors.len()
        },
        |i: int| EmbeddedM { unit: units[i], vector: vectors[i] },
    )
}

/// Units with the vectors that came back for a batch.
pub fn accept_batch(batch: &Vec<TextUnit>, vectors: &Vec<Vec<F32>>) -> (r: Vec<Embedded>)
    ensures
        r.deep_view() == paired(batch.deep_view(), vectors.deep_view()),
{
    let ghost us = batch.deep_view();
    let ghost vs = vectors.deep_view();
    let ghost want = paired(us, vs);
    let mut r: Vec<Embedded> = Vec::new();
    let mut i: usize = 0;
    assert(r.deep_view() =~= want.take(0));
    while i < batch.len() && i < vectors.len()
        invariant
            i <= batch.len(),
            i <= vectors.len(),
            us == batch.deep_view(),
            vs == vectors.deep_view(),
            want == paired(us, vs),
            r.deep_view() == want.take(i as int),
        decreases batch.len() - i,
    {
        assert(us[i as int] == batch@[i as int].deep_view());
        assert(vs[i as int] == vectors@[i as int].deep_view());
        let ghost done = r.deep_view();
        let e = Embedded { unit: batch[i].clone(), vector: vectors[i].clone() };
        r.push(e);
        assert(e.deep_view() == want[i as int]);
        assert(r.deep_view() =~= done.push(e.deep_view()));
        assert(want.take(i + 1) =~= done.push(want[i as int]));
        i = i + 1;
    }
    assert(want.take(i as int) =~= want);
    r
}

/// The batches hold what was cut, in order, none of them more than allowed and
/// none of them empty.
pub proof fn law_batches<T>(s: Seq<T>, n: nat)
    requires
        n > 0,
    ensures
        flat(chunks(s, n)) == s,
        forall|i: int|
            0 <= i < chunks(s, n).len() ==> 0 < (#[trigger] chunks(s, n)[i]).len() <= n,
    decreases s.len(),
{
    if s.len() == 0 {
        assert(flat(chunks(s, n)) =~= s);
    } else if s.len() <= n {
        let one = chunks(s, n);
        assert(one.drop_first() =~= seq![]);
        assert(flat(one.drop_first()) =~= seq![]);
        assert(flat(one) =~= s);
    } else {
        let head = s.take(n as int);
        let rest = s.skip(n as int);
        law_batches(rest, n);
        let all = chunks(s, n);
        assert(all.drop_first() =~= chunks(rest, n));
        assert(flat(all) == head + flat(chunks(rest, n)));
        assert(head + rest =~= s);
        assert forall|i: int| 0 <= i < all.len() implies 0 < (#[trigger] all[i]).len() <= n by {
            if i > 0 {
                assert(all[i] == chunks(rest, n)[i - 1]);
            }
        }
    }
}

/// A unit whose embedding is up to date, or can be taken over, is never
/// embedded anew; and every other unit is.
pub proof fn law_only_stale_embedded(c: Option<EmbeddingCacheM>, units: Seq<EmbedUnitM>, i: int)
    requires
        0 <= i < units.len(),
    ensures
        keep(units, needs_embedding(c)).contains(units[i]) <==> units[i].embedding_version
            < units[i].content_version && reusable(c, units[i]) is None,
{
    lemma_keep_contains(units, needs_embedding(c));
    assert(units.contains(units[i]));
}

/// What was loaded is found for its version and older ones, and not for later
/// ones.
pub proof fn law_load_then_get(
    c: EmbeddingCacheM,
    id: Seq<char>,
    vector: Seq<F32>,
    version: u64,
    asked: u64,
)
    ensures
        cached(
            EmbeddingCacheM {
                entries: bind(c.entries, id, CachedEmbeddingM { vector, version }),
            },
            id,
            asked,
        ) == if asked <= version {
            Some(vector)
        } else {
            None
        },
{
    crate::assoc::law_bind_lookup(c.entries, id, CachedEmbeddingM { vector, version }, id);
}

} // verus!
