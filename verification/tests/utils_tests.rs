use std::any::TypeId;

use bevy_save::reflect::relationship::{ReflectRelationship, ReflectRelationshipTarget};
use bevy_save::saver::{default_extension, JSONFormat, RMPFormat};
use bevy_save::utils::{MaybeMut, MaybeRef};

#[test]
fn maybe_ref_owned_converts_back() {
    let owned: MaybeRef<'static, u32> = MaybeRef::from(7u32);
    assert_eq!(*owned, 7);
    assert_eq!(*owned.get(), 7);
    assert!(matches!(owned.try_into_owned(), Ok(7)));
}

#[test]
fn maybe_ref_borrowed_stays_borrowed() {
    static VALUE: u32 = 9;
    let borrowed: MaybeRef<'static, u32> = MaybeRef::from(&VALUE);
    assert_eq!(*borrowed, 9);
    assert!(matches!(borrowed.try_into_owned(), Err(MaybeRef::Borrowed(_))));
}

#[test]
fn maybe_mut_reads_its_value() {
    let owned: MaybeMut<'static, String> = MaybeMut::from(String::from("a"));
    assert_eq!(owned.get(), "a");
    let mut x = 3u8;
    let m = MaybeMut::Mut(&mut x);
    assert_eq!(*m, 3);
    let d: MaybeMut<'static, u16> = MaybeMut::default();
    assert!(matches!(d, MaybeMut::Owned(0)));
}

#[test]
fn relationship_type_data_keeps_the_other_side() {
    let r = ReflectRelationship::new(TypeId::of::<u8>());
    assert_eq!(r.target(), TypeId::of::<u8>());
    let t = ReflectRelationshipTarget::new(TypeId::of::<u16>());
    assert_eq!(t.relationship(), TypeId::of::<u16>());
}

#[test]
fn format_extensions() {
    assert_eq!(default_extension(), ".sav");
    assert_eq!(RMPFormat::extension(), ".mp");
    assert_eq!(JSONFormat::extension(), ".json");
}
