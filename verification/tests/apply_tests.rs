use std::any::TypeId;

use bevy_save::reflect::applier::{
    decide_component,
    decide_resource,
    ApplyErrorKind,
    ComponentAction,
    ReflectedValue,
    RegisteredData,
    RepresentedType,
    ResourceAction,
};
use bevy_save::snapshot_apply::{
    decide_raw,
    decide_snapshot_component,
    decide_snapshot_resource,
    despawn_targets,
    target_for,
    DespawnMode,
    SavedEntity,
    WorldEntity,
};

struct Prefabbed;
struct Plain;

fn data() -> RegisteredData {
    RegisteredData {
        ignored: false,
        relationship_target: false,
        map_entities: false,
        component: true,
        clone_ignored: false,
        resource: true,
    }
}

fn value<T: 'static>(registration: Option<RegisteredData>) -> ReflectedValue {
    ReflectedValue {
        reflect_type_path: String::from("dyn::Value"),
        represented: Some(RepresentedType {
            type_path: String::from("game::Thing"),
            type_id: TypeId::of::<T>(),
            registration,
        }),
    }
}

fn unrepresented() -> ReflectedValue {
    ReflectedValue { reflect_type_path: String::from("dyn::Value"), represented: None }
}

#[test]
fn component_is_inserted_with_mapping_when_registered() {
    let v = value::<Plain>(Some(RegisteredData { map_entities: true, ..data() }));
    assert!(matches!(
        decide_component(&v, &vec![]),
        Ok(ComponentAction::Insert { map_entities: true })
    ));
}

#[test]
fn component_errors_in_check_order() {
    let e = decide_component(&unrepresented(), &vec![]).unwrap_err();
    assert_eq!(e.kind, ApplyErrorKind::NoRepresentedType);
    assert_eq!(e.type_path, "dyn::Value");
    let e = decide_component(&value::<Plain>(None), &vec![]).unwrap_err();
    assert_eq!(e.kind, ApplyErrorKind::UnregisteredButReflectedType);
    assert_eq!(e.type_path, "game::Thing");
    let v = value::<Plain>(Some(RegisteredData { component: false, ..data() }));
    let e = decide_component(&v, &vec![]).unwrap_err();
    assert_eq!(e.kind, ApplyErrorKind::UnregisteredComponent);
}

#[test]
fn component_skips_ignored_relationship_targets_and_uncloned() {
    let ignored = value::<Plain>(Some(RegisteredData { ignored: true, component: false, ..data() }));
    assert!(matches!(decide_component(&ignored, &vec![]), Ok(ComponentAction::Skip)));
    let target = value::<Plain>(Some(RegisteredData { relationship_target: true, ..data() }));
    assert!(matches!(decide_component(&target, &vec![]), Ok(ComponentAction::Skip)));
    let uncloned = value::<Plain>(Some(RegisteredData { clone_ignored: true, ..data() }));
    assert!(matches!(decide_component(&uncloned, &vec![]), Ok(ComponentAction::Skip)));
}

#[test]
fn prefab_component_goes_to_its_hook() {
    let prefabs = vec![TypeId::of::<Prefabbed>()];
    let v = value::<Prefabbed>(Some(RegisteredData { component: false, map_entities: true, ..data() }));
    assert!(matches!(
        decide_component(&v, &prefabs),
        Ok(ComponentAction::Prefab { map_entities: true })
    ));
    let other = value::<Plain>(Some(data()));
    assert!(matches!(
        decide_component(&other, &prefabs),
        Ok(ComponentAction::Insert { map_entities: false })
    ));
}

#[test]
fn resource_decisions() {
    assert!(matches!(
        decide_resource(&value::<Plain>(Some(data()))),
        Ok(ResourceAction::Insert { map_entities: false })
    ));
    let ignored = value::<Plain>(Some(RegisteredData { ignored: true, ..data() }));
    assert!(matches!(decide_resource(&ignored), Ok(ResourceAction::Skip)));
    let not_res = value::<Plain>(Some(RegisteredData { resource: false, ..data() }));
    assert_eq!(decide_resource(&not_res).unwrap_err().kind, ApplyErrorKind::UnregisteredResource);
    assert_eq!(
        decide_resource(&unrepresented()).unwrap_err().kind,
        ApplyErrorKind::NoRepresentedType
    );
    assert_eq!(
        decide_resource(&value::<Plain>(None)).unwrap_err().kind,
        ApplyErrorKind::UnregisteredButReflectedType
    );
}

#[test]
fn snapshot_applier_checks_prefabs_first() {
    let prefabs = vec![TypeId::of::<Prefabbed>()];
    let unregistered_prefab = value::<Prefabbed>(None);
    assert!(matches!(
        decide_snapshot_component(&unregistered_prefab, &prefabs),
        Ok(ComponentAction::Prefab { map_entities: false })
    ));
    let ignored = value::<Plain>(Some(RegisteredData { ignored: true, ..data() }));
    assert!(matches!(
        decide_snapshot_component(&ignored, &prefabs),
        Ok(ComponentAction::Insert { map_entities: false })
    ));
    let e = decide_snapshot_component(&value::<Plain>(None), &prefabs).unwrap_err();
    assert_eq!(e.kind, ApplyErrorKind::UnregisteredButReflectedType);
    let not_comp = value::<Plain>(Some(RegisteredData { component: false, ..data() }));
    assert_eq!(
        decide_snapshot_component(&not_comp, &prefabs).unwrap_err().kind,
        ApplyErrorKind::UnregisteredComponent
    );
    assert_eq!(
        decide_snapshot_component(&unrepresented(), &prefabs).unwrap_err().kind,
        ApplyErrorKind::NoRepresentedType
    );
}

#[test]
fn snapshot_applier_resources() {
    let ignored = value::<Plain>(Some(RegisteredData { ignored: true, map_entities: true, ..data() }));
    assert!(matches!(
        decide_snapshot_resource(&ignored),
        Ok(ResourceAction::Insert { map_entities: true })
    ));
    let not_res = value::<Plain>(Some(RegisteredData { resource: false, ..data() }));
    assert_eq!(
        decide_snapshot_resource(&not_res).unwrap_err().kind,
        ApplyErrorKind::UnregisteredResource
    );
}

#[test]
fn raw_decisions_by_type_path() {
    let t = RepresentedType {
        type_path: String::from("game::Raw"),
        type_id: TypeId::of::<Plain>(),
        registration: None,
    };
    let e = decide_raw(&t, true).unwrap_err();
    assert_eq!(e.kind, ApplyErrorKind::UnregisteredType);
    assert_eq!(e.type_path, "game::Raw");
    let t = RepresentedType {
        registration: Some(RegisteredData { component: false, map_entities: true, ..data() }),
        ..t
    };
    assert!(matches!(decide_raw(&t, true), Ok(ResourceAction::Insert { map_entities: true })));
    assert_eq!(decide_raw(&t, false).unwrap_err().kind, ApplyErrorKind::UnregisteredComponent);
    let t = RepresentedType { registration: Some(RegisteredData { resource: false, ..data() }), ..t };
    assert_eq!(decide_raw(&t, true).unwrap_err().kind, ApplyErrorKind::UnregisteredResource);
    assert!(matches!(decide_raw(&t, false), Ok(ResourceAction::Insert { map_entities: false })));
}

fn world() -> Vec<WorldEntity> {
    vec![
        WorldEntity { id: 100, index: 0 },
        WorldEntity { id: 101, index: 1 },
        WorldEntity { id: 102, index: 2 },
        WorldEntity { id: 103, index: 3 },
    ]
}

fn saved() -> Vec<SavedEntity> {
    vec![
        SavedEntity { index: 0, mapped: None },
        SavedEntity { index: 7, mapped: Some(WorldEntity { id: 102, index: 2 }) },
    ]
}

#[test]
fn despawn_missing_spares_what_saved_entities_stand_for() {
    assert_eq!(despawn_targets(&DespawnMode::Missing, &saved(), &world()), vec![101, 103]);
    assert_eq!(
        despawn_targets(&DespawnMode::MissingWith(vec![103, 100]), &saved(), &world()),
        vec![103]
    );
}

#[test]
fn despawn_unmapped_spares_only_mapped_targets() {
    assert_eq!(despawn_targets(&DespawnMode::Unmapped, &saved(), &world()), vec![100, 101, 103]);
    assert_eq!(
        despawn_targets(&DespawnMode::UnmappedWith(vec![100]), &saved(), &world()),
        vec![100]
    );
}

#[test]
fn despawn_all_keep_and_listed() {
    assert_eq!(despawn_targets(&DespawnMode::All, &saved(), &world()), vec![100, 101, 102, 103]);
    assert_eq!(despawn_targets(&DespawnMode::AllWith(vec![9, 8]), &saved(), &world()), vec![9, 8]);
    assert!(despawn_targets(&DespawnMode::Keep, &saved(), &world()).is_empty());
}

#[test]
fn write_target_prefers_mapping_then_fallback() {
    let w = vec![
        WorldEntity { id: 10, index: 4 },
        WorldEntity { id: 11, index: 5 },
        WorldEntity { id: 12, index: 4 },
    ];
    let mapped = SavedEntity { index: 4, mapped: Some(WorldEntity { id: 77, index: 9 }) };
    assert_eq!(target_for(&mapped, &w, true), Some(77));
    let unmapped = SavedEntity { index: 4, mapped: None };
    assert_eq!(target_for(&unmapped, &w, true), Some(12));
    assert_eq!(target_for(&unmapped, &w, false), None);
    let absent = SavedEntity { index: 6, mapped: None };
    assert_eq!(target_for(&absent, &w, true), None);
}
