//! What is told to the others, and who may read what.

use vstd::prelude::*;

use crate::assoc::{bind, law_bind_lookup, lookup};
use crate::collab::access::{
    is_highest, rank_of, reaches, required_role, AclPermissionFilter, AclPermissionFilterM,
    AllowAllPermissionFilter, CollabSession, DenyListPermissionFilter, PermissionFilter,
    RequestContext, RequestContextM, SpaceRole,
};
use crate::collab::crdt::{sync_error_text, SyncError, SyncErrorM};
use crate::collab::page_sync;
use crate::collab::tree_sync;
use crate::json::JsonValue;
use crate::page;
use crate::text::decimal;
use crate::tree;

verus! {

// ---- Roles -----------------------------------------------------------------

/// An owner may do what an editor may, and an editor what a viewer may, and not
/// the other way round.
pub proof fn law_roles(roles: Seq<SpaceRole>, r: SpaceRole)
    ensures
        reaches(seq![SpaceRole::Owner], r),
        reaches(seq![SpaceRole::Editor], r) <==> r != SpaceRole::Owner,
        reaches(seq![SpaceRole::Viewer], r) <==> r == SpaceRole::Viewer,
        !reaches(seq![], r),
        roles.len() > 0 ==> reaches(roles, SpaceRole::Viewer),
        is_highest(roles, r) ==> reaches(roles, r),
{
    assert(seq![SpaceRole::Owner][0] == SpaceRole::Owner);
    assert(seq![SpaceRole::Editor][0] == SpaceRole::Editor);
    assert(seq![SpaceRole::Viewer][0] == SpaceRole::Viewer);
    if roles.len() > 0 {
        assert(rank_of(roles[0]) >= rank_of(SpaceRole::Viewer));
    }
}

/// One with several roles may do what one of them allows.
pub proof fn law_roles_add(a: Seq<SpaceRole>, b: Seq<SpaceRole>, r: SpaceRole, highest: SpaceRole)
    ensures
        reaches(a + b, r) <==> reaches(a, r) || reaches(b, r),
        is_highest(a, highest) ==> (reaches(a, r) <==> reaches(seq![highest], r)),
{
    if reaches(a, r) {
        let i = choose|i: int| 0 <= i < a.len() && rank_of(#[trigger] a[i]) >= rank_of(r);
        assert((a + b)[i] == a[i]);
    }
    if reaches(b, r) {
        let i = choose|i: int| 0 <= i < b.len() && rank_of(#[trigger] b[i]) >= rank_of(r);
        assert((a + b)[a.len() + i] == b[i]);
    }
    if reaches(a + b, r) {
        let i = choose|i: int|
            0 <= i < (a + b).len() && rank_of(#[trigger] (a + b)[i]) >= rank_of(r);
        if i < a.len() {
            assert(a[i] == (a + b)[i]);
        } else {
            assert(b[i - a.len()] == (a + b)[i]);
        }
    }
    assert(seq![highest][0] == highest);
    if is_highest(a, highest) {
        let k = choose|k: int| 0 <= k < a.len() && a[k] == highest;
        assert(a[k] == highest);
    }
}

/// A block that nothing is said of asks for a viewer.
pub proof fn law_unlisted(f: AclPermissionFilterM, id: Seq<char>)
    ensures
        lookup(f.block_min_role, id) is None ==> required_role(f, id) == SpaceRole::Viewer,
        lookup(f.block_min_role, id) matches Some(r) ==> required_role(f, id) == r,
{
}

// ---- Telling operations ----------------------------------------------------

/// What is told of an operation on a page: an insertion with the block, its
/// identity, its parent and the one it stands behind; an update with its block and
/// its patch; a deletion with its block; a move with its block, its new parent and
/// the one it stands behind. Of the text and of the fields nothing is told.
pub proof fn law_page_told(op: page::doc::OpM)
    ensures
        page_sync::translated(op) is None <==> op is TextUpdate || op is UpdateMeta,
        op matches page::doc::OpM::InsertBlock { after, block } ==> (page_sync::translated(
            op,
        ) matches Some(page_sync::CrdtOpM::Insert { id, parent, after: behind, block: told }) && id
            == block.id() && parent == block.parent() && behind == after && told == block),
        op matches page::doc::OpM::BlockUpdate { block_id, patch } ==> (page_sync::translated(
            op,
        ) matches Some(page_sync::CrdtOpM::Update { id, patch: told }) && id == block_id && told
            == patch),
        op matches page::doc::OpM::DeleteBlock { block_id } ==> (page_sync::translated(
            op,
        ) matches Some(page_sync::CrdtOpM::Delete { id }) && id == block_id),
        op matches page::doc::OpM::MoveBlock { id, new_parent, after } ==> (page_sync::translated(
            op,
        ) matches Some(page_sync::CrdtOpM::Move { id: told, new_parent: under, after: behind })
            && told == id && under == Some(new_parent) && behind == after),
{
}

/// What is told of an operation on a document: the same, where the root as a
/// parent is told as none. Of the fields nothing is told.
pub proof fn law_tree_told(op: tree::doc::OpM, root: Seq<char>)
    ensures
        tree_sync::translated(op, root) is None <==> op is UpdateDocMeta,
        op matches tree::doc::OpM::InsertBlock { parent, after, block } ==> (tree_sync::translated(
            op,
            root,
        ) matches Some(tree_sync::CrdtOpM::Insert { id, parent: under, after: behind, block: told })
            && id == block.id && (parent == root ==> under is None) && (parent != root ==> under
            == Some(parent)) && behind == after && told == block),
        op matches tree::doc::OpM::UpdateBlock { id, patch } ==> (tree_sync::translated(
            op,
            root,
        ) matches Some(tree_sync::CrdtOpM::Update { id: told, patch: put }) && told == id && put
            == patch),
        op matches tree::doc::OpM::DeleteBlock { id } ==> (tree_sync::translated(
            op,
            root,
        ) matches Some(tree_sync::CrdtOpM::Delete { id: told }) && told == id),
        op matches tree::doc::OpM::MoveBlock { id, new_parent, after } ==> (tree_sync::translated(
            op,
            root,
        ) matches Some(tree_sync::CrdtOpM::Move { id: told, new_parent: under, after: behind })
            && told == id && (new_parent == root ==> under is None) && (new_parent != root ==> under
            == Some(new_parent)) && behind == after),
{
}

/// A batch tells its operations in their order, and counts those that it leaves
/// out.
pub proof fn law_page_batch(ops: Seq<page::doc::OpM>)
    requires
        ops.len() <= usize::MAX,
    ensures
        page_sync::batch_of(ops).ops == ops.filter(
            |op: page::doc::OpM| page_sync::translated(op) is Some,
        ).map_values(|op: page::doc::OpM| page_sync::translated(op)->0),
        page_sync::batch_of(ops).skipped + page_sync::batch_of(ops).ops.len() == ops.len(),
{
    lemma_page_batch(ops);
    ops.lemma_filter_len(|op: page::doc::OpM| page_sync::translated(op) is Some);
}

proof fn lemma_page_batch(ops: Seq<page::doc::OpM>)
    ensures
        page_sync::all_translated(ops) == ops.filter(
            |op: page::doc::OpM| page_sync::translated(op) is Some,
        ).map_values(|op: page::doc::OpM| page_sync::translated(op)->0),
    decreases ops.len(),
{
    reveal(Seq::filter);
    let f = |op: page::doc::OpM| page_sync::translated(op) is Some;
    let g = |op: page::doc::OpM| page_sync::translated(op)->0;
    if ops.len() > 0 {
        lemma_page_batch(ops.drop_last());
        if f(ops.last()) {
            assert(ops.filter(f).map_values(g) =~= ops.drop_last().filter(f).map_values(g).push(
                g(ops.last()),
            ));
        }
    }
    assert(page_sync::all_translated(ops) =~= ops.filter(f).map_values(g));
}

/// A batch for a document, likewise.
pub proof fn law_tree_batch(ops: Seq<tree::doc::OpM>, root: Seq<char>)
    requires
        ops.len() <= usize::MAX,
    ensures
        tree_sync::batch_of(ops, root).ops == ops.filter(
            |op: tree::doc::OpM| tree_sync::translated(op, root) is Some,
        ).map_values(|op: tree::doc::OpM| tree_sync::translated(op, root)->0),
        tree_sync::batch_of(ops, root).skipped + tree_sync::batch_of(ops, root).ops.len()
            == ops.len(),
{
    lemma_tree_batch(ops, root);
    ops.lemma_filter_len(|op: tree::doc::OpM| tree_sync::translated(op, root) is Some);
}

proof fn lemma_tree_batch(ops: Seq<tree::doc::OpM>, root: Seq<char>)
    ensures
        tree_sync::all_translated(ops, root) == ops.filter(
            |op: tree::doc::OpM| tree_sync::translated(op, root) is Some,
        ).map_values(|op: tree::doc::OpM| tree_sync::translated(op, root)->0),
    decreases ops.len(),
{
    reveal(Seq::filter);
    let f = |op: tree::doc::OpM| tree_sync::translated(op, root) is Some;
    let g = |op: tree::doc::OpM| tree_sync::translated(op, root)->0;
    if ops.len() > 0 {
        lemma_tree_batch(ops.drop_last(), root);
        if f(ops.last()) {
            assert(ops.filter(f).map_values(g) =~= ops.drop_last().filter(f).map_values(g).push(
                g(ops.last()),
            ));
        }
    }
    assert(tree_sync::all_translated(ops, root) =~= ops.filter(f).map_values(g));
}

/// Work from before the last commit is refused, naming the version that was
/// committed and the one it started from; any other is told as a batch.
pub proof fn law_delta(c: page_sync::CollabDocM, ops: Seq<page::doc::OpM>, base: u64)
    ensures
        base < c.committed_version ==> (page_sync::delta_outcome(c, ops, base) matches Err(
            SyncErrorM::VersionConflict { expected, actual },
        ) && expected == c.committed_version && actual == base),
        base >= c.committed_version ==> (page_sync::delta_outcome(c, ops, base) matches Ok(b) && b
            == page_sync::batch_of(ops)),
{
}

/// The message of a conflict names the expected version before the actual one.
pub proof fn law_sync_error_text(s: Seq<char>, expected: u64, actual: u64)
    ensures
        sync_error_text(SyncErrorM::Serialize(s)) == "serialize: "@ + s,
        sync_error_text(SyncErrorM::Crdt(s)) == "crdt: "@ + s,
        sync_error_text(SyncErrorM::NotTranslatable(s)) == "not translatable: "@ + s,
        ("version conflict: expected "@ + decimal(expected as nat)).is_prefix_of(
            sync_error_text(SyncErrorM::VersionConflict { expected, actual }),
        ),
        (", got "@ + decimal(actual as nat)).is_suffix_of(
            sync_error_text(SyncErrorM::VersionConflict { expected, actual }),
        ),
{
    let t = sync_error_text(SyncErrorM::VersionConflict { expected, actual });
    assert(("version conflict: expected "@ + decimal(expected as nat)).is_prefix_of(t));
    assert((", got "@ + decimal(actual as nat)).is_suffix_of(t));
}

/// A committed page is written with its title first, then its kind of content,
/// its status and its author, each behind its name, and last its blocks.
pub proof fn law_committed_text(d: page::doc::DocumentM)
    ensures
        page_sync::committed_text(d) == ("---\ntitle: "@ + d.title) + ("\ncontent_type: "@
            + page::doc::content_name(d.content_type)) + ("\nstatus: "@ + page::doc::status_name(
            d.status,
        )) + ("\nauthor: "@ + d.author) + "\n---\n\n"@ + page::doc::texts_of(d.blocks),
{
    let a = "---\ntitle: "@ + d.title;
    let b = page::doc::content_name(d.content_type);
    let c = page::doc::status_name(d.status);
    lemma_assoc(a, "\ncontent_type: "@, b);
    let ab = a + ("\ncontent_type: "@ + b);
    lemma_assoc(ab, "\nstatus: "@, c);
    let abc = ab + ("\nstatus: "@ + c);
    lemma_assoc(abc, "\nauthor: "@, d.author);
}

proof fn lemma_assoc(x: Seq<char>, y: Seq<char>, z: Seq<char>)
    ensures
        x + y + z == x + (y + z),
{
    assert(x + y + z =~= x + (y + z));
}

/// What the filters let a user read: one with a list of refusals all that is not
/// on it, one with roles what the roles of the user reach, and one without rules all.
pub proof fn law_readers(
    deny: DenyListPermissionFilter,
    acl: AclPermissionFilter,
    all: AllowAllPermissionFilter,
    ctx: RequestContextM,
    id: Seq<char>,
)
    ensures
        deny.reader(ctx)(id) <==> !deny.deep_view().deny.contains(id),
        acl.reader(ctx)(id) <==> exists|i: int|
            0 <= i < ctx.roles.len() && reaches(
                seq![#[trigger] ctx.roles[i]],
                required_role(acl.deep_view(), id),
            ),
        all.reader(ctx)(id),
{
    let need = required_role(acl.deep_view(), id);
    assert forall|i: int| 0 <= i < ctx.roles.len() implies (reaches(
        seq![#[trigger] ctx.roles[i]],
        need,
    ) <==> rank_of(ctx.roles[i]) >= rank_of(need)) by {
        assert(seq![ctx.roles[i]][0] == ctx.roles[i]);
    }
    if acl.reader(ctx)(id) {
        let i = choose|i: int|
            0 <= i < ctx.roles.len() && rank_of(#[trigger] ctx.roles[i]) >= rank_of(need);
        assert(reaches(seq![ctx.roles[i]], need));
    }
}

// ---- Calls -----------------------------------------------------------------

/// What is queued while nobody is reached comes out in the order it went in, once.
pub proof fn law_offline_queue(
    s: &mut CollabSession,
    op: JsonValue,
    out: (),
    t: &mut CollabSession,
    r: Vec<JsonValue>,
)
    requires
        call_ensures(CollabSession::enqueue_offline, (s, op), out),
        *old(t) == *final(s),
        call_ensures(CollabSession::drain_offline, (t,), r),
    ensures
        r.deep_view() == old(s).deep_view().offline_queue.push(op.deep_view()),
        final(t).deep_view().offline_queue.len() == 0,
        final(t).deep_view().session_id == old(s).deep_view().session_id,
        final(t).deep_view().user == old(s).deep_view().user,
{
}

/// A commit notes the version of the page, and hands out its text, its version, its
/// author and the message.
pub proof fn law_finalized(
    c: &mut page_sync::CollabDoc,
    d: &page::doc::Document,
    message: &str,
    r: Result<page_sync::FinalizeResult, SyncError>,
)
    requires
        call_ensures(page_sync::CollabDoc::finalize, (c, d, message), r),
    ensures
        final(c).deep_view().committed_version == d.deep_view().version,
        final(c).deep_view().peer_id == old(c).deep_view().peer_id,
        r matches Ok(f) && f.deep_view().new_raw_markdown == page_sync::committed_text(
            d.deep_view(),
        ) && f.deep_view().commit_message == message@ && f.deep_view().author
            == d.deep_view().author && f.deep_view().version == d.deep_view().version,
{
}

/// The system may read everything, and a restriction is what decides on a block.
pub proof fn law_restricted_calls(
    system: RequestContext,
    f: &mut AclPermissionFilter,
    id: &str,
    role: SpaceRole,
    out: (),
    g: &AclPermissionFilter,
    ctx: &RequestContext,
    r: bool,
)
    requires
        call_ensures(RequestContext::system, (), system),
        call_ensures(AclPermissionFilter::restrict, (f, id, role), out),
        *g == *final(f),
        call_ensures(AclPermissionFilter::allowed, (g, ctx, id), r),
    ensures
        reaches(system.deep_view().roles, role),
        r <==> reaches(ctx.deep_view().roles, role),
{
    law_bind_lookup(old(f).deep_view().block_min_role, id@, role, id@);
    law_roles(system.deep_view().roles, role);
}

} // verus!
