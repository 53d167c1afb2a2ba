//! Who may read which block.

use vstd::prelude::*;

use crate::assoc::{bind, get, lookup, put};
use crate::json::{Json, JsonValue};
use crate::seqs::{keep, lemma_keep_contains, lemma_keep_step};
use crate::text::same;

verus! {

broadcast use vstd::std_specs::vec::group_vec_axioms;

/// What a user may do in a space, the least first.
#[derive(Clone, Copy, Debug, PartialEq, Eq, PartialOrd, Ord, Structural)]
pub enum SpaceRole {
    Viewer,
    Editor,
    Owner,
}

impl DeepView for SpaceRole {
    type V = SpaceRole;

    open spec fn deep_view(&self) -> SpaceRole {
        *self
    }
}

/// The place of a role among the roles.
pub open spec fn rank_of(r: SpaceRole) -> int {
    match r {
        SpaceRole::Viewer => 0,
        SpaceRole::Editor => 1,
        SpaceRole::Owner => 2,
    }
}

impl SpaceRole {
    /// Whether the role allows at least what the other does.
    pub fn covers(self, other: SpaceRole) -> (r: bool)
        ensures
            r == (rank_of(self) >= rank_of(other)),
    {
        match (self, other) {
            (SpaceRole::Owner, _) => true,
            (_, SpaceRole::Viewer) => true,
            (SpaceRole::Editor, SpaceRole::Editor) => true,
            _ => false,
        }
    }
}

/// Who asks, and with which roles.
#[derive(Debug, PartialEq)]
pub struct RequestContext {
    pub user_id: String,
    pub roles: Vec<SpaceRole>,
}

/// What a `RequestContext` holds.
#[verifier::ext_equal]
pub struct RequestContextM {
    pub user_id: Seq<char>,
    pub roles: Seq<SpaceRole>,
}

impl DeepView for RequestContext {
    type V = RequestContextM;

    open spec fn deep_view(&self) -> RequestContextM {
        RequestContextM {
            user_id: self.user_id.deep_view(),
            roles: self.roles.deep_view(),
        }
    }
}

impl Clone for RequestContext {
    fn clone(&self) -> (r: Self)
        ensures
            r.deep_view() == self.deep_view(),
    {
        RequestContext {
            user_id: self.user_id.clone(),
            roles: self.roles.clone(),
        }
    }
}

/// The role is among the roles, and none of them ranks above it.
pub open spec fn is_highest(roles: Seq<SpaceRole>, r: SpaceRole) -> bool {
    &&& roles.contains(r)
    &&& forall|i: int| 0 <= i < roles.len() ==> rank_of(#[trigger] roles[i]) <= rank_of(r)
}

/// Some role reaches the one that is required.
pub open spec fn reaches(roles: Seq<SpaceRole>, required: SpaceRole) -> bool {
    exists|i: int| 0 <= i < roles.len() && rank_of(#[trigger] roles[i]) >= rank_of(required)
}

impl RequestContext {
    /// The highest of the roles, if there is one.
    pub fn highest_role(&self) -> (r: Option<SpaceRole>)
        ensures
            match r {
                Some(h) => is_highest(self.deep_view().roles, h),
                None => self.deep_view().roles.len() == 0,
            },
    {
        let ghost all = self.deep_view().roles;
        assert(all =~= self.roles@);
        if self.roles.len() == 0 {
            return None;
        }
        let mut best = self.roles[0];
        let mut i: usize = 1;
        assert(all[0] == best);
        while i < self.roles.len()
            invariant
                1 <= i <= self.roles.len(),
                all == self.roles@,
                all.contains(best),
                forall|k: int| 0 <= k < i ==> rank_of(#[trigger] all[k]) <= rank_of(best),
            decreases self.roles.len() - i,
        {
            let next = self.roles[i];
            assert(all[i as int] == next);
            if next.covers(best) {
                best = next;
            }
            i = i + 1;
        }
        Some(best)
    }

    /// The context of the wiki itself.
    pub fn system() -> (r: RequestContext)
        ensures
            r.deep_view() == (RequestContextM {
                user_id: "system"@,
                roles: seq![SpaceRole::Owner],
            }),
    {
        let mut roles: Vec<SpaceRole> = Vec::new();
        roles.push(SpaceRole::Owner);
        let r = RequestContext { user_id: "system".to_owned(), roles };
        assert(r.deep_view().roles =~= seq![SpaceRole::Owner]);
        r
    }
}

/// Says who may read which block.
pub trait PermissionFilter: Sized {
    /// Which blocks may be read.
    spec fn reader(&self, ctx: RequestContextM) -> spec_fn(Seq<char>) -> bool;

    fn can_read(&self, ctx: &RequestContext, block_id: &str) -> (r: bool)
        ensures
            r == self.reader(ctx.deep_view())(block_id@),
    ;

    /// The blocks that may be read, in their order.
    fn filter_readable(&self, ctx: &RequestContext, block_ids: Vec<String>) -> (r: Vec<String>)
        ensures
            r.deep_view() == keep(block_ids.deep_view(), self.reader(ctx.deep_view())),
    {
        let ghost all = block_ids.deep_view();
        let ghost p = self.reader(ctx.deep_view());
        let mut r: Vec<String> = Vec::new();
        let mut i: usize = 0;
        assert(r.deep_view() =~= keep(all.take(0), p));
        while i < block_ids.len()
            invariant
                i <= block_ids.len(),
                all == block_ids.deep_view(),
                p == self.reader(ctx.deep_view()),
                r.deep_view() == keep(all.take(i as int), p),
            decreases block_ids.len() - i,
        {
            proof {
                lemma_keep_step(all, p, i as int);
            }
            let ghost done = r.deep_view();
            assert(all[i as int] == block_ids@[i as int]@);
            if self.can_read(ctx, block_ids[i].as_str()) {
                r.push(block_ids[i].clone());
                assert(r.deep_view() =~= done.push(all[i as int]));
            }
            i = i + 1;
        }
        assert(all.take(i as int) =~= all);
        r
    }
}

/// The least role that may read a block, block by block.
#[derive(Debug, PartialEq)]
pub struct AclPermissionFilter {
    /// A block that is not listed asks for a viewer.
    pub block_min_role: Vec<(String, SpaceRole)>,
}

/// What a `AclPermissionFilter` holds.
#[verifier::ext_equal]
pub struct AclPermissionFilterM {
    pub block_min_role: Seq<(Seq<char>, SpaceRole)>,
}

impl DeepView for AclPermissionFilter {
    type V = AclPermissionFilterM;

    open spec fn deep_view(&self) -> AclPermissionFilterM {
        AclPermissionFilterM {
            block_min_role: self.block_min_role.deep_view(),
        }
    }
}


/// The least role that may read a block.
pub open spec fn required_role(f: AclPermissionFilterM, block_id: Seq<char>) -> SpaceRole {
    match lookup(f.block_min_role, block_id) {
        Some(r) => r,
        None => SpaceRole::Viewer,
    }
}

impl AclPermissionFilter {
    pub fn new() -> (r: AclPermissionFilter)
        ensures
            r.deep_view() == (AclPermissionFilterM { block_min_role: seq![] }),
    {
        let r = AclPermissionFilter { block_min_role: Vec::new() };
        assert(r.deep_view().block_min_role =~= seq![]);
        r
    }

    /// Asks for a role to read a block.
    pub fn restrict(&mut self, block_id: &str, min_role: SpaceRole)
        ensures
            final(self).deep_view().block_min_role == bind(
                old(self).deep_view().block_min_role,
                block_id@,
                min_role,
            ),
    {
        put(&mut self.block_min_role, block_id, min_role);
    }

    /// Whether the one who asks may read a block.
    pub fn allowed(&self, ctx: &RequestContext, block_id: &str) -> (r: bool)
        ensures
            r == reaches(ctx.deep_view().roles, required_role(self.deep_view(), block_id@)),
    {
        let required = match get(&self.block_min_role, block_id) {
            Some(r) => *r,
            None => SpaceRole::Viewer,
        };
        let ghost roles = ctx.deep_view().roles;
        match ctx.highest_role() {
            Some(h) => {
                let ok = h.covers(required);
                proof {
                    if ok {
                        let i = choose|i: int| 0 <= i < roles.len() && roles[i] == h;
                        assert(rank_of(roles[i]) >= rank_of(required));
                    }
                }
                ok
            },
            None => false,
        }
    }
}

impl PermissionFilter for AclPermissionFilter {
    open spec fn reader(&self, ctx: RequestContextM) -> spec_fn(Seq<char>) -> bool {
        |id: Seq<char>| reaches(ctx.roles, required_role(self.deep_view(), id))
    }

    fn can_read(&self, ctx: &RequestContext, block_id: &str) -> (r: bool) {
        self.allowed(ctx, block_id)
    }
}

/// Lets everything be read.
#[derive(Clone, Copy, Debug)]
pub struct AllowAllPermissionFilter {}

impl PermissionFilter for AllowAllPermissionFilter {
    open spec fn reader(&self, ctx: RequestContextM) -> spec_fn(Seq<char>) -> bool {
        |id: Seq<char>| true
    }

    fn can_read(&self, ctx: &RequestContext, block_id: &str) -> (r: bool) {
        true
    }
}

/// Lets everything be read but the blocks on a list.
#[derive(Debug, PartialEq)]
pub struct DenyListPermissionFilter {
    pub deny: Vec<String>,
}

/// What a `DenyListPermissionFilter` holds.
#[verifier::ext_equal]
pub struct DenyListPermissionFilterM {
    pub deny: Seq<Seq<char>>,
}

impl DeepView for DenyListPermissionFilter {
    type V = DenyListPermissionFilterM;

    open spec fn deep_view(&self) -> DenyListPermissionFilterM {
        DenyListPermissionFilterM {
            deny: self.deny.deep_view(),
        }
    }
}

impl Clone for DenyListPermissionFilter {
    fn clone(&self) -> (r: Self)
        ensures
            r.deep_view() == self.deep_view(),
    {
        DenyListPermissionFilter {
            deny: self.deny.clone(),
        }
    }
}

impl DenyListPermissionFilter {
    pub fn new(deny_ids: Vec<String>) -> (r: DenyListPermissionFilter)
        ensures
            r.deep_view().deny == deny_ids.deep_view(),
    {
        DenyListPermissionFilter { deny: deny_ids }
    }
}

impl PermissionFilter for DenyListPermissionFilter {
    open spec fn reader(&self, ctx: RequestContextM) -> spec_fn(Seq<char>) -> bool {
        |id: Seq<char>| !self.deep_view().deny.contains(id)
    }

    fn can_read(&self, ctx: &RequestContext, block_id: &str) -> (r: bool) {
        let ghost all = self.deep_view().deny;
        let mut i: usize = 0;
        while i < self.deny.len()
            invariant
                i <= self.deny.len(),
                all == self.deny.deep_view(),
                forall|k: int| 0 <= k < i ==> #[trigger] all[k] != block_id@,
            decreases self.deny.len() - i,
        {
            assert(all[i as int] == self.deny@[i as int]@);
            if same(self.deny[i].as_str(), block_id) {
                return false;
            }
            i = i + 1;
        }
        true
    }
}

/// Of what a filter lets through, everything may be read; and whatever was
/// asked for and may be read comes through.
pub proof fn law_filter_exact<F: PermissionFilter>(
    f: F,
    ctx: RequestContextM,
    ids: Seq<Seq<char>>,
    id: Seq<char>,
)
    ensures
        keep(ids, f.reader(ctx)).contains(id) <==> ids.contains(id) && f.reader(ctx)(id),
{
    lemma_keep_contains(ids, f.reader(ctx));
}

/// A block that asks for a role cannot be read by those whose roles all rank
/// below it, and can be read by those who have it; every other block is read by
/// whom it was read by before.
pub proof fn law_restricted(
    f: AclPermissionFilterM,
    block_id: Seq<char>,
    min_role: SpaceRole,
    ctx: RequestContextM,
    other: Seq<char>,
)
    ensures
        ({
            let g = AclPermissionFilterM {
                block_min_role: bind(f.block_min_role, block_id, min_role),
            };
            &&& reaches(ctx.roles, required_role(g, block_id)) <==> reaches(ctx.roles, min_role)
            &&& other != block_id ==> (reaches(ctx.roles, required_role(g, other)) <==> reaches(
                ctx.roles,
                required_role(f, other),
            ))
        }),
{
    crate::assoc::law_bind_lookup(f.block_min_role, block_id, min_role, other);
}

/// A connection to a document, with what was done while it was down.
#[derive(Debug, PartialEq)]
pub struct CollabSession {
    pub session_id: String,
    pub user: RequestContext,
    pub offline_queue: Vec<JsonValue>,
}

/// What a `CollabSession` holds.
#[verifier::ext_equal]
pub struct CollabSessionM {
    pub session_id: Seq<char>,
    pub user: RequestContextM,
    pub offline_queue: Seq<Json>,
}

impl DeepView for CollabSession {
    type V = CollabSessionM;

    open spec fn deep_view(&self) -> CollabSessionM {
        CollabSessionM {
            session_id: self.session_id.deep_view(),
            user: self.user.deep_view(),
            offline_queue: self.offline_queue.deep_view(),
        }
    }
}

impl Clone for CollabSession {
    fn clone(&self) -> (r: Self)
        ensures
            r.deep_view() == self.deep_view(),
    {
        CollabSession {
            session_id: self.session_id.clone(),
            user: self.user.clone(),
            offline_queue: self.offline_queue.clone(),
        }
    }
}

impl CollabSession {
    pub fn new(session_id: &str, user: RequestContext) -> (r: CollabSession)
        ensures
            r.deep_view() == (CollabSessionM {
                session_id: session_id@,
                user: user.deep_view(),
                offline_queue: seq![],
            }),
    {
        let r = CollabSession {
            session_id: session_id.to_owned(),
            user,
            offline_queue: Vec::new(),
        };
        assert(r.deep_view().offline_queue =~= seq![]);
        r
    }

    /// Keeps an operation for later.
    pub fn enqueue_offline(&mut self, op: JsonValue)
        ensures
            final(self).deep_view() == (CollabSessionM {
                offline_queue: old(self).deep_view().offline_queue.push(op.deep_view()),
                ..old(self).deep_view()
            }),
    {
        self.offline_queue.push(op);
        assert(self.deep_view().offline_queue =~= old(self).deep_view().offline_queue.push(
            op.deep_view(),
        ));
    }

    /// Hands out what was kept, the oldest first, and keeps nothing of it.
    pub fn drain_offline(&mut self) -> (r: Vec<JsonValue>)
        ensures
            r.deep_view() == old(self).deep_view().offline_queue,
            final(self).deep_view() == (CollabSessionM {
                offline_queue: seq![],
                ..old(self).deep_view()
            }),
    {
        let mut out: Vec<JsonValue> = Vec::new();
        std::mem::swap(&mut out, &mut self.offline_queue);
        assert(self.deep_view().offline_queue =~= seq![]);
        out
    }
}

} // verus!
