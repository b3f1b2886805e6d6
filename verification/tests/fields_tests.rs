use std::any::TypeId;

use bevy_save::reflect::fields::{FieldError, FieldTracker, TypeGuard};

#[test]
fn fields_read_once_each() {
    let mut t = FieldTracker::new(vec![true, true, false]);
    assert_eq!(t.key(1), Ok(()));
    assert_eq!(t.key(0), Ok(()));
    assert_eq!(t.finish(), Ok(()));
    assert_eq!(t.key(1), Err(FieldError::Duplicate(1)));
    assert_eq!(t.key(2), Ok(()));
    assert_eq!(t.key(2), Err(FieldError::Duplicate(2)));
}

#[test]
fn missing_required_field_is_the_first() {
    let mut t = FieldTracker::new(vec![true, true, false]);
    assert_eq!(t.finish(), Err(FieldError::Missing(0)));
    assert_eq!(t.key(0), Ok(()));
    assert_eq!(t.finish(), Err(FieldError::Missing(1)));
    let mut opt = FieldTracker::new(vec![false]);
    assert_eq!(opt.finish(), Ok(()));
    assert_eq!(opt.key(0), Ok(()));
    assert_eq!(opt.finish(), Ok(()));
}

#[test]
fn type_guard_refuses_second_type() {
    let mut g = TypeGuard::new();
    assert!(g.record(TypeId::of::<u8>()));
    assert!(g.record(TypeId::of::<u16>()));
    assert!(!g.record(TypeId::of::<u8>()));
}
