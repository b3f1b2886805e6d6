use std::any::TypeId;

use bevy_save::reflect::checkpoint::{CheckpointRegistry, ReflectIgnoreCheckpoint};
use bevy_save::registry::{RollbackRegistry, TypeFilter};

struct A;
struct B;

#[test]
fn unset_filter_allows_everything() {
    let f = TypeFilter::unset();
    assert!(f.is_allowed_by_id(TypeId::of::<A>()));
    assert!(!f.is_denied_by_id(TypeId::of::<B>()));
    assert!(TypeFilter::default().is_allowed_by_id(TypeId::of::<A>()));
}

#[test]
fn allow_makes_an_allowlist() {
    let f = TypeFilter::unset().allow::<A>();
    assert!(f.is_allowed_by_id(TypeId::of::<A>()));
    assert!(!f.is_allowed_by_id(TypeId::of::<B>()));
    assert!(f.is_denied_by_id(TypeId::of::<B>()));
}

#[test]
fn deny_makes_a_denylist() {
    let f = TypeFilter::unset().deny::<A>();
    assert!(!f.is_allowed_by_id(TypeId::of::<A>()));
    assert!(f.is_allowed_by_id(TypeId::of::<B>()));
}

#[test]
fn deny_on_allowlist_removes_and_allow_on_denylist_removes() {
    let f = TypeFilter::unset().allow::<A>().allow::<B>().deny::<A>();
    assert!(!f.is_allowed_by_id(TypeId::of::<A>()));
    assert!(f.is_allowed_by_id(TypeId::of::<B>()));
    let g = TypeFilter::deny_all().allow::<A>();
    assert!(g.is_allowed_by_id(TypeId::of::<A>()));
    assert!(!g.is_allowed_by_id(TypeId::of::<B>()));
    let h = TypeFilter::allow_all().deny::<A>().allow::<A>();
    assert!(h.is_allowed_by_id(TypeId::of::<A>()));
}

#[test]
fn allow_all_and_deny_all() {
    assert!(TypeFilter::allow_all().is_allowed_by_id(TypeId::of::<A>()));
    assert!(!TypeFilter::deny_all().is_allowed_by_id(TypeId::of::<A>()));
}

#[test]
fn allow_then_deny_leaves_other_types() {
    let f = TypeFilter::allow_all().deny::<A>();
    assert!(f.is_allowed_by_id(TypeId::of::<B>()));
    let g = TypeFilter::deny_all().allow::<A>();
    assert!(!g.is_allowed_by_id(TypeId::of::<B>()));
}

#[test]
fn rollback_registry_filters() {
    let mut r = RollbackRegistry::new();
    assert!(r.is_allowed::<A>());
    r.deny::<A>();
    assert!(r.is_denied::<A>());
    assert!(r.is_allowed::<B>());
    r.allow::<A>();
    assert!(r.is_allowed::<A>());
    r.deny_all();
    assert!(r.is_denied_by_id(TypeId::of::<B>()));
    r.allow_id(TypeId::of::<B>());
    assert!(r.is_allowed_by_id(TypeId::of::<B>()));
    r.allow_all();
    assert!(r.is_allowed::<A>());
}

#[test]
fn checkpoint_registry_filters() {
    let mut r = CheckpointRegistry::new();
    assert!(r.is_allowed::<A>());
    r.deny::<ReflectIgnoreCheckpoint>();
    assert!(r.is_denied::<ReflectIgnoreCheckpoint>());
    r.deny_id(TypeId::of::<A>());
    assert!(r.is_denied_by_id(TypeId::of::<A>()));
    assert!(r.is_allowed_by_id(TypeId::of::<B>()));
    r.allow::<A>();
    assert!(r.is_allowed::<A>());
}
