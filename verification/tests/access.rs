//! Roles, permissions and sessions.

use uwu_wiki::collab::access::{
    AclPermissionFilter, AllowAllPermissionFilter, CollabSession, DenyListPermissionFilter,
    PermissionFilter, RequestContext, SpaceRole,
};
use uwu_wiki::json::JsonValue;

fn user(roles: Vec<SpaceRole>) -> RequestContext {
    RequestContext { user_id: "u1".to_string(), roles }
}

#[test]
fn role_ordering() {
    assert!(SpaceRole::Owner > SpaceRole::Editor);
    assert!(SpaceRole::Editor > SpaceRole::Viewer);
}

#[test]
fn roles_cover_those_below() {
    let all = [SpaceRole::Viewer, SpaceRole::Editor, SpaceRole::Owner];
    for a in all {
        for b in all {
            assert_eq!(a.covers(b), a >= b);
        }
    }
}

#[test]
fn acl_filters_unauthorized_blocks() {
    let mut acl = AclPermissionFilter::new();
    acl.restrict("secret-block", SpaceRole::Owner);

    let viewer = user(vec![SpaceRole::Viewer]);

    assert!(!acl.can_read(&viewer, "secret-block"));
    assert!(acl.can_read(&viewer, "public-block"));

    let readable = acl.filter_readable(
        &viewer,
        vec!["secret-block".to_string(), "public-block".to_string()],
    );
    assert_eq!(readable, vec!["public-block".to_string()]);
}

#[test]
fn highest_role_wins() {
    let mixed = user(vec![SpaceRole::Viewer, SpaceRole::Owner, SpaceRole::Editor]);
    assert_eq!(mixed.highest_role(), Some(SpaceRole::Owner));
    assert_eq!(user(vec![]).highest_role(), None);
    let mut acl = AclPermissionFilter::new();
    acl.restrict("b", SpaceRole::Editor);
    assert!(acl.allowed(&mixed, "b"));
    assert!(!acl.allowed(&user(vec![SpaceRole::Viewer]), "b"));
}

#[test]
fn nobody_without_a_role_reads() {
    let acl = AclPermissionFilter::new();
    assert!(!acl.can_read(&user(vec![]), "anything"));
}

#[test]
fn restriction_can_be_lifted() {
    let mut acl = AclPermissionFilter::new();
    acl.restrict("b", SpaceRole::Owner);
    acl.restrict("b", SpaceRole::Viewer);
    assert!(acl.can_read(&user(vec![SpaceRole::Viewer]), "b"));
}

#[test]
fn allow_all_permission_filter() {
    let filter = AllowAllPermissionFilter {};
    let ctx = RequestContext { user_id: "any".to_string(), roles: vec![] };
    assert!(filter.can_read(&ctx, "secret"));
    let ids = vec!["a".to_string(), "b".to_string()];
    assert_eq!(filter.filter_readable(&ctx, ids).len(), 2);
}

#[test]
fn deny_list_permission_filter() {
    let filter =
        DenyListPermissionFilter::new(vec!["secret".to_string(), "classified".to_string()]);
    let ctx = user(vec![]);
    assert!(!filter.can_read(&ctx, "secret"));
    assert!(filter.can_read(&ctx, "public"));

    let readable = filter.filter_readable(
        &ctx,
        vec!["secret".to_string(), "public".to_string(), "classified".to_string()],
    );
    assert_eq!(readable, vec!["public".to_string()]);
}

#[test]
fn system_context_owns_the_space() {
    let ctx = RequestContext::system();
    assert_eq!(ctx.user_id, "system");
    assert_eq!(ctx.highest_role(), Some(SpaceRole::Owner));
}

#[test]
fn session_hands_out_what_it_kept_once() {
    let mut s = CollabSession::new("s1", user(vec![SpaceRole::Editor]));
    s.enqueue_offline(JsonValue::text("a"));
    s.enqueue_offline(JsonValue::text("b"));
    let out = s.drain_offline();
    assert_eq!(out.len(), 2);
    assert_eq!(out[0].as_str(), Some("a"));
    assert!(s.drain_offline().is_empty());
    assert_eq!(s.session_id, "s1");
}
