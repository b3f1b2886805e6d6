use std::any::TypeId;

use bevy_save::reflect::checkpoint::CheckpointRegistry;
use bevy_save::reflect::snapshot::{
    upgrade_v0_16,
    Builder,
    CheckpointV0_16,
    CheckpointsV0_16,
    DynamicEntity,
    SnapshotV0_16,
    TypeMarks,
};
use bevy_save::registry::TypeFilter;

struct Pos;
struct Vel;
struct Tag;

const PLAIN: TypeMarks =
    TypeMarks { ignored: false, ignore_checkpoint: false, relationship_target: false };
const IGNORED: TypeMarks =
    TypeMarks { ignored: true, ignore_checkpoint: false, relationship_target: false };
const NOT_IN_CHECKPOINTS: TypeMarks =
    TypeMarks { ignored: false, ignore_checkpoint: true, relationship_target: false };
const TARGET: TypeMarks =
    TypeMarks { ignored: false, ignore_checkpoint: false, relationship_target: true };

fn ids(b: Builder<&'static str, u32>) -> Vec<(u64, Vec<&'static str>)> {
    b.build().entities.into_iter().map(|e| (e.entity, e.components)).collect()
}

#[test]
fn builder_keeps_entities_in_id_order() {
    let b = Builder::<&'static str, u32>::new()
        .insert_entity(5, vec!["five"])
        .insert_entity(2, vec!["two"])
        .insert_entity(9, vec![]);
    assert_eq!(ids(b), vec![(2, vec!["two"]), (5, vec!["five"]), (9, vec![])]);
}

#[test]
fn builder_replaces_an_entity_extracted_twice() {
    let b = Builder::<&'static str, u32>::new()
        .insert_entity(1, vec!["old"])
        .insert_entity(1, vec!["new"]);
    assert_eq!(ids(b), vec![(1, vec!["new"])]);
}

#[test]
fn extract_entity_applies_the_filter() {
    let b = Builder::<&'static str, u32>::new().deny_id(TypeId::of::<Vel>());
    let b = b.extract_entity(
        3,
        vec![
            (TypeId::of::<Pos>(), PLAIN, Some("pos")),
            (TypeId::of::<Vel>(), PLAIN, Some("vel")),
            (TypeId::of::<Tag>(), PLAIN, None),
        ],
        None,
    );
    assert_eq!(ids(b), vec![(3, vec!["pos"])]);
}

#[test]
fn checkpoint_builder_also_applies_checkpoint_registry() {
    let mut reg = CheckpointRegistry::new();
    reg.deny::<Pos>();
    let cands = || vec![(TypeId::of::<Pos>(), PLAIN, Some("pos")), (TypeId::of::<Vel>(), PLAIN, Some("vel"))];
    let plain = Builder::<&'static str, u32>::new().extract_entity(1, cands(), Some(&reg));
    assert_eq!(ids(plain), vec![(1, vec!["pos", "vel"])]);
    let cp = Builder::<&'static str, u32>::checkpoint().extract_entity(1, cands(), Some(&reg));
    assert_eq!(ids(cp), vec![(1, vec!["vel"])]);
    let cp2 = Builder::<&'static str, u32>::new().into_checkpoint().extract_entity(1, cands(), None);
    assert_eq!(ids(cp2), vec![(1, vec!["pos", "vel"])]);
}

#[test]
fn includes_type_follows_filter() {
    let b = Builder::<u8, u8>::new().filter(TypeFilter::deny_all().allow::<Pos>());
    assert!(b.includes_type(TypeId::of::<Pos>(), PLAIN, None));
    assert!(!b.includes_type(TypeId::of::<Vel>(), PLAIN, None));
    let b = b.allow_all();
    assert!(b.includes_type(TypeId::of::<Vel>(), PLAIN, None));
    let b = b.deny_all();
    assert!(!b.includes_type(TypeId::of::<Pos>(), PLAIN, None));
    let b = b.allow_id(TypeId::of::<Tag>());
    assert!(b.includes_type(TypeId::of::<Tag>(), PLAIN, None));
}

#[test]
fn extract_resources_in_component_order() {
    let b = Builder::<u8, &'static str>::new().deny_id(TypeId::of::<Tag>());
    let b = b.extract_resources(
        vec![
            (TypeId::of::<Vel>(), PLAIN, Some((7, "vel"))),
            (TypeId::of::<Tag>(), PLAIN, Some((1, "tag"))),
            (TypeId::of::<Pos>(), PLAIN, Some((3, "pos"))),
            (TypeId::of::<Pos>(), PLAIN, None),
        ],
        None,
    );
    assert_eq!(b.build().resources, vec!["pos", "vel"]);
}

#[test]
fn insert_resource_replaces_by_component_id() {
    let b = Builder::<u8, &'static str>::new()
        .insert_resource(4, "a")
        .insert_resource(4, "b")
        .insert_resource(2, "c");
    assert_eq!(b.build().resources, vec!["c", "b"]);
}

#[test]
fn clear_empty_drops_entities_without_components() {
    let b = Builder::<&'static str, u32>::new()
        .insert_entity(1, vec![])
        .insert_entity(2, vec!["x"])
        .insert_entity(3, vec![])
        .clear_empty();
    assert_eq!(ids(b), vec![(2, vec!["x"])]);
}

#[test]
fn clears_empty_everything() {
    let b = Builder::<&'static str, u32>::new()
        .insert_entity(1, vec!["a"])
        .insert_resource(1, 5);
    let s = b.clear().build();
    assert!(s.entities.is_empty());
    assert!(s.resources.is_empty());
    let b = Builder::<&'static str, u32>::new().insert_entity(1, vec!["a"]).insert_resource(1, 5);
    let s = b.clear_entities().build();
    assert!(s.entities.is_empty());
    assert_eq!(s.resources, vec![5]);
    let b = Builder::<&'static str, u32>::new().insert_entity(1, vec!["a"]).insert_resource(1, 5);
    let s = b.clear_resources().build();
    assert_eq!(s.entities.len(), 1);
    assert!(s.resources.is_empty());
}

#[test]
fn upgrade_moves_checkpoints_into_parts() {
    let old = SnapshotV0_16 {
        entities: vec![DynamicEntity { entity: 1, components: vec!["c"] }],
        resources: vec![7u32],
        rollbacks: Some(CheckpointsV0_16 {
            checkpoints: vec![
                CheckpointV0_16 { entities: vec![], resources: vec![1] },
                CheckpointV0_16 {
                    entities: vec![DynamicEntity { entity: 4, components: vec!["d"] }],
                    resources: vec![2],
                },
            ],
            active: Some(1),
        }),
    };
    let (snapshot, parts) = upgrade_v0_16(old);
    assert_eq!(snapshot.entities.len(), 1);
    assert_eq!(snapshot.entities[0].entity, 1);
    assert_eq!(snapshot.resources, vec![7]);
    let parts = parts.unwrap();
    assert_eq!(parts.active, Some(1));
    assert_eq!(parts.snapshots.len(), 2);
    assert_eq!(parts.snapshots[0].resources, vec![1]);
    assert_eq!(parts.snapshots[1].entities[0].entity, 4);
    assert_eq!(parts.snapshots[1].resources, vec![2]);
}

#[test]
fn upgrade_without_checkpoints() {
    let old: SnapshotV0_16<u8, u8> = SnapshotV0_16 { entities: vec![], resources: vec![3], rollbacks: None };
    let (snapshot, parts) = upgrade_v0_16(old);
    assert_eq!(snapshot.resources, vec![3]);
    assert!(parts.is_none());
}

#[test]
fn ignored_types_never_reach_snapshots_or_checkpoints() {
    let cands = || {
        vec![
            (TypeId::of::<Pos>(), IGNORED, Some("pos")),
            (TypeId::of::<Vel>(), PLAIN, Some("vel")),
        ]
    };
    let snap = Builder::<&'static str, u32>::new().extract_entity(1, cands(), None);
    assert_eq!(ids(snap), vec![(1, vec!["vel"])]);
    let cp = Builder::<&'static str, u32>::checkpoint().extract_entity(1, cands(), None);
    assert_eq!(ids(cp), vec![(1, vec!["vel"])]);
    let b = Builder::<u8, &'static str>::new().extract_resources(
        vec![(TypeId::of::<Pos>(), IGNORED, Some((1, "pos"))), (TypeId::of::<Vel>(), PLAIN, Some((2, "vel")))],
        None,
    );
    assert_eq!(b.build().resources, vec!["vel"]);
}

#[test]
fn ignore_checkpoint_types_stay_in_snapshots_only() {
    let cands = || {
        vec![
            (TypeId::of::<Pos>(), NOT_IN_CHECKPOINTS, Some("pos")),
            (TypeId::of::<Vel>(), PLAIN, Some("vel")),
        ]
    };
    let snap = Builder::<&'static str, u32>::new().extract_entity(1, cands(), None);
    assert_eq!(ids(snap), vec![(1, vec!["pos", "vel"])]);
    let cp = Builder::<&'static str, u32>::checkpoint().extract_entity(1, cands(), None);
    assert_eq!(ids(cp), vec![(1, vec!["vel"])]);
    let res = || vec![(TypeId::of::<Pos>(), NOT_IN_CHECKPOINTS, Some((3, "pos")))];
    let b = Builder::<u8, &'static str>::new().extract_resources(res(), None);
    assert_eq!(b.build().resources, vec!["pos"]);
    let b = Builder::<u8, &'static str>::checkpoint().extract_resources(res(), None);
    assert!(b.build().resources.is_empty());
    let b = Builder::<u8, u8>::checkpoint();
    assert!(!b.includes_type(TypeId::of::<Pos>(), NOT_IN_CHECKPOINTS, None));
    assert!(!b.includes_type(TypeId::of::<Pos>(), IGNORED, None));
    assert!(b.includes_type(TypeId::of::<Pos>(), PLAIN, None));
}

#[test]
fn relationship_targets_never_reach_snapshots() {
    let cands = vec![
        (TypeId::of::<Pos>(), TARGET, Some("children")),
        (TypeId::of::<Vel>(), PLAIN, Some("vel")),
    ];
    let snap = Builder::<&'static str, u32>::new().extract_entity(1, cands, None);
    assert_eq!(ids(snap), vec![(1, vec!["vel"])]);
    assert!(!Builder::<u8, u8>::new().includes_type(TypeId::of::<Pos>(), TARGET, None));
}

#[test]
fn snapshots_clone() {
    let s = Builder::<&'static str, u32>::new().insert_entity(2, vec!["a"]).insert_resource(1, 9).build();
    let c = s.clone();
    assert_eq!(c.entities[0].entity, 2);
    assert_eq!(c.entities[0].components, vec!["a"]);
    assert_eq!(c.resources, vec![9]);
}
