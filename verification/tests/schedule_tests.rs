use std::any::TypeId;

use bevy_save::apply_schedule::{plan_apply, plan_raw_apply, ApplyRules, ApplyStep, RawStep};
use bevy_save::reflect::applier::{ApplyErrorKind, ReflectedValue, RegisteredData, RepresentedType};
use bevy_save::snapshot_apply::{DespawnMode, SavedEntity, WorldEntity};

struct Prefab;
struct Comp;
struct Res;

fn data() -> RegisteredData {
    RegisteredData {
        ignored: false,
        relationship_target: false,
        map_entities: false,
        component: true,
        clone_ignored: false,
        resource: true,
    }
}

fn represented<T: 'static>(registration: Option<RegisteredData>) -> RepresentedType {
    RepresentedType { type_path: String::from("t::T"), type_id: TypeId::of::<T>(), registration }
}

fn value<T: 'static>(registration: Option<RegisteredData>) -> ReflectedValue {
    ReflectedValue {
        reflect_type_path: String::from("t::T"),
        represented: Some(represented::<T>(registration)),
    }
}

#[test]
fn prefabs_spawn_after_all_values_then_hooks() {
    let values = vec![
        (0, value::<Prefab>(None)),
        (0, value::<Comp>(Some(data()))),
        (1, value::<Prefab>(None)),
    ];
    let targets = vec![10, 11];
    let resources = vec![value::<Res>(Some(data()))];
    let prefabs = vec![TypeId::of::<Prefab>()];
    let (steps, result) = plan_apply(ApplyRules::Snapshot, &values, &targets, &resources, &prefabs);
    assert!(result.is_ok());
    assert_eq!(
        steps,
        vec![
            ApplyStep::KeepPrefab { value: 0, target: 10, map_entities: false },
            ApplyStep::InsertComponent { value: 1, target: 10, map_entities: false },
            ApplyStep::KeepPrefab { value: 2, target: 11, map_entities: false },
            ApplyStep::InsertResource { index: 0, map_entities: false },
            ApplyStep::SpawnPrefab { value: 0, target: 10 },
            ApplyStep::SpawnPrefab { value: 2, target: 11 },
            ApplyStep::RunHook { target: 10 },
            ApplyStep::RunHook { target: 11 },
        ]
    );
}

#[test]
fn apply_stops_at_first_refused_value() {
    let values = vec![(0, value::<Comp>(Some(data()))), (0, value::<Res>(None))];
    let (steps, result) =
        plan_apply(ApplyRules::Reflect, &values, &vec![5], &vec![], &vec![]);
    assert_eq!(steps, vec![ApplyStep::InsertComponent { value: 0, target: 5, map_entities: false }]);
    assert_eq!(result.unwrap_err().kind, ApplyErrorKind::UnregisteredButReflectedType);
    let (steps, result) = plan_apply(
        ApplyRules::Reflect,
        &vec![],
        &vec![5],
        &vec![value::<Res>(Some(RegisteredData { resource: false, ..data() }))],
        &vec![],
    );
    assert!(steps.is_empty());
    assert_eq!(result.unwrap_err().kind, ApplyErrorKind::UnregisteredResource);
}

#[test]
fn raw_apply_runs_resources_despawns_entities_then_hooks() {
    let resources = vec![represented::<Res>(Some(RegisteredData { map_entities: true, ..data() }))];
    let saved = vec![
        SavedEntity { index: 0, mapped: None },
        SavedEntity { index: 3, mapped: None },
    ];
    let components = vec![vec![represented::<Comp>(Some(data()))], vec![]];
    let world = vec![WorldEntity { id: 100, index: 0 }, WorldEntity { id: 101, index: 1 }];
    let (steps, result) =
        plan_raw_apply(&resources, &DespawnMode::All, &saved, &components, &world, true);
    assert!(result.is_ok());
    assert_eq!(
        steps,
        vec![
            RawStep::InsertResource { index: 0, map_entities: true },
            RawStep::Despawn { entity: 100 },
            RawStep::Despawn { entity: 101 },
            RawStep::SpawnFor { saved: 0 },
            RawStep::InsertComponent { saved: 0, component: 0 },
            RawStep::SpawnFor { saved: 1 },
            RawStep::MapEntities,
            RawStep::RunHook { saved: 0 },
            RawStep::RunHook { saved: 1 },
        ]
    );
}

#[test]
fn raw_apply_keeps_fallback_and_stops_on_error() {
    let saved = vec![SavedEntity { index: 1, mapped: None }];
    let world = vec![WorldEntity { id: 101, index: 1 }];
    let components = vec![vec![represented::<Comp>(None)]];
    let (steps, result) =
        plan_raw_apply(&vec![], &DespawnMode::Keep, &saved, &components, &world, true);
    assert_eq!(steps, vec![RawStep::WriteInto { saved: 0, entity: 101 }]);
    assert_eq!(result.unwrap_err().kind, ApplyErrorKind::UnregisteredType);
}
