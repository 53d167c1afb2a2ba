//! Identifiers.

use vstd::prelude::*;

verus! {

/// A lower-case hexadecimal digit.
pub open spec fn hex_digit(c: char) -> bool {
    '0' <= c && c <= '9' || 'a' <= c && c <= 'f'
}

/// The hyphenated notation of a UUID of the given version.
pub open spec fn uuid_text(s: Seq<char>, version: char) -> bool {
    &&& s.len() == 36
    &&& forall|i: int|
        0 <= i < 36 ==> if i == 8 || i == 13 || i == 18 || i == 23 {
            #[trigger] s[i] == '-'
        } else {
            hex_digit(s[i])
        }
    &&& s[14] == version
    &&& s[19] == '8' || s[19] == '9' || s[19] == 'a' || s[19] == 'b'
}

/// `uuid::Uuid::now_v7().to_string()`: the hyphenated notation of a UUID of
/// version 7. Which one is a matter of the clock and of chance.
#[verifier::external_body]
pub(crate) fn fresh_v7() -> (r: String)
    ensures
        uuid_text(r@, '7'),
{
    uuid::Uuid::now_v7().to_string()
}

/// `uuid::Uuid::new_v4().to_string()`: the hyphenated notation of a UUID of
/// version 4. Which one is a matter of chance.
#[verifier::external_body]
pub(crate) fn fresh_v4() -> (r: String)
    ensures
        uuid_text(r@, '4'),
{
    uuid::Uuid::new_v4().to_string()
}

/// The identity of a block.
#[derive(Debug, PartialEq, Eq, Hash)]
pub struct BlockId(pub String);

impl DeepView for BlockId {
    type V = Seq<char>;

    open spec fn deep_view(&self) -> Seq<char> {
        self.0@
    }
}

impl Clone for BlockId {
    fn clone(&self) -> (r: Self)
        ensures
            r == *self,
    {
        BlockId(self.0.clone())
    }
}

impl BlockId {
    pub fn new() -> (r: BlockId)
        ensures
            uuid_text(r.deep_view(), '7'),
    {
        BlockId(fresh_v7())
    }

    /// The identity with the given text.
    pub fn of(s: &str) -> (r: BlockId)
        ensures
            r.deep_view() == s@,
    {
        BlockId(s.to_owned())
    }

    pub fn as_str(&self) -> (r: &str)
        ensures
            r@ == self.deep_view(),
    {
        self.0.as_str()
    }

    pub fn same(&self, other: &BlockId) -> (r: bool)
        ensures
            r == (self.deep_view() == other.deep_view()),
    {
        self.0 == other.0
    }
}

/// The identity of a document.
#[derive(Debug, PartialEq, Eq, Hash)]
pub struct DocId(pub String);

impl DeepView for DocId {
    type V = Seq<char>;

    open spec fn deep_view(&self) -> Seq<char> {
        self.0@
    }
}

impl Clone for DocId {
    fn clone(&self) -> (r: Self)
        ensures
            r == *self,
    {
        DocId(self.0.clone())
    }
}

impl DocId {
    pub fn new() -> (r: DocId)
        ensures
            uuid_text(r.deep_view(), '7'),
    {
        DocId(fresh_v7())
    }

    /// The identity with the given text.
    pub fn of(s: &str) -> (r: DocId)
        ensures
            r.deep_view() == s@,
    {
        DocId(s.to_owned())
    }

    pub fn as_str(&self) -> (r: &str)
        ensures
            r@ == self.deep_view(),
    {
        self.0.as_str()
    }

    pub fn same(&self, other: &DocId) -> (r: bool)
        ensures
            r == (self.deep_view() == other.deep_view()),
    {
        self.0 == other.0
    }
}

/// Where the first of the identities that equals `id` stands.
pub fn find_id(ids: &Vec<BlockId>, id: &BlockId) -> (r: Option<usize>)
    ensures
        match r {
            Some(i) => i < ids@.len() && crate::seqs::index_in(ids.deep_view(), id.deep_view()) == Some(i as int),
            None => crate::seqs::index_in(ids.deep_view(), id.deep_view()) is None,
        },
{
    let ghost all = ids.deep_view();
    let mut i: usize = 0;
    while i < ids.len()
        invariant
            i <= ids.len(),
            all == ids.deep_view(),
            forall|j: int| 0 <= j < i ==> #[trigger] all[j] != id.deep_view(),
        decreases ids.len() - i,
    {
        assert(all[i as int] == ids@[i as int].deep_view());
        if ids[i].same(id) {
            proof {
                crate::seqs::lemma_first_index_is(
                    all,
                    crate::seqs::is_one(id.deep_view()),
                    i as int,
                );
            }
            return Some(i);
        }
        i = i + 1;
    }
    proof {
        crate::seqs::lemma_first_index(all, crate::seqs::is_one(id.deep_view()));
    }
    None
}

/// The identities other than `id`.
pub fn drop_id(ids: &Vec<BlockId>, id: &BlockId) -> (r: Vec<BlockId>)
    ensures
        r.deep_view() == crate::seqs::without(ids.deep_view(), id.deep_view()),
{
    let ghost all = ids.deep_view();
    let ghost p = crate::seqs::is_not(id.deep_view());
    let mut r: Vec<BlockId> = Vec::new();
    let mut i: usize = 0;
    assert(r.deep_view() =~= crate::seqs::keep(all.take(0), p));
    while i < ids.len()
        invariant
            i <= ids.len(),
            all == ids.deep_view(),
            p == crate::seqs::is_not(id.deep_view()),
            r.deep_view() == crate::seqs::keep(all.take(i as int), p),
        decreases ids.len() - i,
    {
        proof {
            crate::seqs::lemma_keep_step(all, p, i as int);
        }
        let ghost done = r.deep_view();
        if !ids[i].same(id) {
            r.push(ids[i].clone());
            assert(r.deep_view() =~= done.push(all[i as int]));
        }
        i = i + 1;
    }
    assert(all.take(i as int) =~= all);
    r
}

} // verus!
