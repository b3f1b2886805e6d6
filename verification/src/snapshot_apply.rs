//! Applying a snapshot held as plain reflected values: the registry checks
//! made for each value, which world entities are despawned first, and which
//! world entity each saved entity is written into.

use vstd::prelude::*;

use crate::reflect::applier::{
    apply_error,
    ApplyError,
    ApplyErrorKind,
    ComponentAction,
    ReflectedValue,
    RepresentedType,
    ResourceAction,
};
use crate::registry::list_contains;
use std::any::TypeId;

verus! {

/// What applying a snapshot does with a component, when prefab types are
/// looked up before the registry: a component needs a represented type; a
/// prefab type is kept for its hook as it is; any other type needs a
/// registration as a reflected component and is inserted.
pub open spec fn snapshot_component_outcome(value: ReflectedValue, prefabs: Seq<TypeId>) -> Result<
    ComponentAction,
    ApplyError,
> {
    match value.represented {
        None => Err(apply_error(ApplyErrorKind::NoRepresentedType, value.reflect_type_path)),
        Some(t) => if prefabs.contains(t.type_id) {
            Ok(ComponentAction::Prefab { map_entities: false })
        } else {
            match t.registration {
                None => Err(
                    apply_error(ApplyErrorKind::UnregisteredButReflectedType, t.type_path),
                ),
                Some(d) => if !d.component {
                    Err(apply_error(ApplyErrorKind::UnregisteredComponent, t.type_path))
                } else {
                    Ok(ComponentAction::Insert { map_entities: d.map_entities })
                },
            }
        },
    }
}

/// What applying a snapshot does with a resource: it needs a represented
/// type registered as a reflected resource, and is then applied or inserted.
pub open spec fn snapshot_resource_outcome(value: ReflectedValue) -> Result<ResourceAction, ApplyError> {
    match value.represented {
        None => Err(apply_error(ApplyErrorKind::NoRepresentedType, value.reflect_type_path)),
        Some(t) => match t.registration {
            None => Err(apply_error(ApplyErrorKind::UnregisteredButReflectedType, t.type_path)),
            Some(d) => if !d.resource {
                Err(apply_error(ApplyErrorKind::UnregisteredResource, t.type_path))
            } else {
                Ok(ResourceAction::Insert { map_entities: d.map_entities })
            },
        },
    }
}

/// What applying a raw snapshot does with a value of type `t`, whose
/// registration was looked up by type path: without one the type is
/// unregistered; a component needs component data and a resource resource
/// data. Entities are mapped for a whole registry after the fact, so a
/// component is inserted as it is.
pub open spec fn raw_outcome(t: RepresentedType, resource: bool) -> Result<ResourceAction, ApplyError> {
    match t.registration {
        None => Err(apply_error(ApplyErrorKind::UnregisteredType, t.type_path)),
        Some(d) => if resource && !d.resource {
            Err(apply_error(ApplyErrorKind::UnregisteredResource, t.type_path))
        } else if !resource && !d.component {
            Err(apply_error(ApplyErrorKind::UnregisteredComponent, t.type_path))
        } else {
            Ok(ResourceAction::Insert { map_entities: resource && d.map_entities })
        },
    }
}

/// Decides what applying a snapshot does with a component, prefab types
/// first.
pub fn decide_snapshot_component(value: &ReflectedValue, prefabs: &Vec<TypeId>) -> (r: Result<
    ComponentAction,
    ApplyError,
>)
    ensures
        r == snapshot_component_outcome(*value, prefabs@),
        match value.represented {
            Some(t) => match t.registration {
                Some(d) => !prefabs@.contains(t.type_id) && d.component ==> r == Ok::<
                    ComponentAction,
                    ApplyError,
                >(ComponentAction::Insert { map_entities: d.map_entities }),
                None => true,
            },
            None => true,
        },
{
    match &value.represented {
        None => Err(
            ApplyError {
                kind: ApplyErrorKind::NoRepresentedType,
                type_path: value.reflect_type_path.clone(),
            },
        ),
        Some(t) => {
            if list_contains(prefabs, &t.type_id) {
                return Ok(ComponentAction::Prefab { map_entities: false });
            }
            match t.registration {
                None => Err(
                    ApplyError {
                        kind: ApplyErrorKind::UnregisteredButReflectedType,
                        type_path: t.type_path.clone(),
                    },
                ),
                Some(d) => {
                    if !d.component {
                        Err(
                            ApplyError {
                                kind: ApplyErrorKind::UnregisteredComponent,
                                type_path: t.type_path.clone(),
                            },
                        )
                    } else {
                        Ok(ComponentAction::Insert { map_entities: d.map_entities })
                    }
                },
            }
        },
    }
}

/// Decides what applying a snapshot does with a resource.
pub fn decide_snapshot_resource(value: &ReflectedValue) -> (r: Result<ResourceAction, ApplyError>)
    ensures
        r == snapshot_resource_outcome(*value),
        match value.represented {
            Some(t) => match t.registration {
                Some(d) => d.resource ==> r == Ok::<ResourceAction, ApplyError>(
                    ResourceAction::Insert { map_entities: d.map_entities },
                ),
                None => true,
            },
            None => true,
        },
{
    match &value.represented {
        None => Err(
            ApplyError {
                kind: ApplyErrorKind::NoRepresentedType,
                type_path: value.reflect_type_path.clone(),
            },
        ),
        Some(t) => match t.registration {
            None => Err(
                ApplyError {
                    kind: ApplyErrorKind::UnregisteredButReflectedType,
                    type_path: t.type_path.clone(),
                },
            ),
            Some(d) => {
                if !d.resource {
                    Err(
                        ApplyError {
                            kind: ApplyErrorKind::UnregisteredResource,
                            type_path: t.type_path.clone(),
                        },
                    )
                } else {
                    Ok(ResourceAction::Insert { map_entities: d.map_entities })
                }
            },
        },
    }
}

/// Decides what applying a raw snapshot does with a resource (`resource`)
/// or a component (`!resource`) of type `t`.
pub fn decide_raw(t: &RepresentedType, resource: bool) -> (r: Result<ResourceAction, ApplyError>)
    ensures
        r == raw_outcome(*t, resource),
        match t.registration {
            Some(d) => resource && d.resource ==> r == Ok::<ResourceAction, ApplyError>(
                ResourceAction::Insert { map_entities: d.map_entities },
            ),
            None => true,
        },
{
    match t.registration {
        None => Err(
            ApplyError { kind: ApplyErrorKind::UnregisteredType, type_path: t.type_path.clone() },
        ),
        Some(d) => {
            if resource && !d.resource {
                Err(
                    ApplyError {
                        kind: ApplyErrorKind::UnregisteredResource,
                        type_path: t.type_path.clone(),
                    },
                )
            } else if !resource && !d.component {
                Err(
                    ApplyError {
                        kind: ApplyErrorKind::UnregisteredComponent,
                        type_path: t.type_path.clone(),
                    },
                )
            } else {
                Ok(ResourceAction::Insert { map_entities: resource && d.map_entities })
            }
        },
    }
}

/// An entity of the world: its bits and its index.
#[derive(Clone, Copy, Debug, PartialEq, Eq, Structural)]
pub struct WorldEntity {
    /// The entity's bits.
    pub id: u64,
    /// The entity's index.
    pub index: u32,
}

/// An entity of a raw snapshot: the index it was saved under and, if the
/// entity map maps it, the world entity it maps to.
#[derive(Clone, Copy, Debug, PartialEq, Eq, Structural)]
pub struct SavedEntity {
    /// The index the entity was saved under.
    pub index: u32,
    /// The world entity the entity map gives it, if any.
    pub mapped: Option<WorldEntity>,
}

/// Which entities of the world applying a raw snapshot despawns before it
/// writes the snapshot's entities. A variant with a list despawns only
/// entities on that list: those a query filter matched.
#[derive(Debug)]
pub enum DespawnMode {
    /// Entities whose index no saved entity stands for, mapped or not.
    Missing,
    /// As `Missing`, among the listed entities.
    MissingWith(Vec<u64>),
    /// Entities whose index no mapped saved entity stands for.
    Unmapped,
    /// As `Unmapped`, among the listed entities.
    UnmappedWith(Vec<u64>),
    /// Every entity.
    All,
    /// The listed entities.
    AllWith(Vec<u64>),
    /// No entity: every entity of the world is kept.
    Keep,
}

/// The index a saved entity stands for: that of its mapped entity, or its
/// own when it is not mapped.
pub open spec fn standing_index(e: SavedEntity) -> u32 {
    match e.mapped {
        Some(w) => w.index,
        None => e.index,
    }
}

/// The indices saved entities stand for, mapped or not.
pub open spec fn indices_standing(saved: Seq<SavedEntity>) -> Seq<u32> {
    saved.map_values(|e: SavedEntity| standing_index(e))
}

/// The indices of the entities that mapped saved entities map to, in order.
pub open spec fn indices_mapped(saved: Seq<SavedEntity>) -> Seq<u32>
    decreases saved.len(),
{
    if saved.len() == 0 {
        Seq::empty()
    } else {
        let rest = indices_mapped(saved.drop_last());
        match saved.last().mapped {
            Some(w) => rest.push(w.index),
            None => rest,
        }
    }
}

/// The ids of the world entities, in order, whose index is not in `kept`
/// and which, when `only` is given, it lists.
pub open spec fn ids_outside(world: Seq<WorldEntity>, kept: Seq<u32>, only: Option<Seq<u64>>) -> Seq<
    u64,
>
    decreases world.len(),
{
    if world.len() == 0 {
        Seq::empty()
    } else {
        let rest = ids_outside(world.drop_last(), kept, only);
        let e = world.last();
        if !kept.contains(e.index) && match only {
            None => true,
            Some(f) => f.contains(e.id),
        } {
            rest.push(e.id)
        } else {
            rest
        }
    }
}

/// The entities that `mode` despawns, in the order they are despawned.
pub open spec fn despawned(mode: DespawnMode, saved: Seq<SavedEntity>, world: Seq<WorldEntity>) -> Seq<
    u64,
> {
    match mode {
        DespawnMode::Missing => ids_outside(world, indices_standing(saved), None),
        DespawnMode::MissingWith(f) => ids_outside(world, indices_standing(saved), Some(f@)),
        DespawnMode::Unmapped => ids_outside(world, indices_mapped(saved), None),
        DespawnMode::UnmappedWith(f) => ids_outside(world, indices_mapped(saved), Some(f@)),
        DespawnMode::All => ids_outside(world, Seq::empty(), None),
        DespawnMode::AllWith(f) => f@,
        DespawnMode::Keep => Seq::empty(),
    }
}

/// The last world entity with index `index`, which the simple mapping falls
/// back to.
pub open spec fn fallback_entity(world: Seq<WorldEntity>, index: u32) -> Option<u64>
    decreases world.len(),
{
    if world.len() == 0 {
        None
    } else if world.last().index == index {
        Some(world.last().id)
    } else {
        fallback_entity(world.drop_last(), index)
    }
}

/// The world entity a saved entity is written into: the one it is mapped
/// to, else under the simple mapping the world entity with its index; with
/// neither, a new entity is spawned (`None`).
pub open spec fn write_target(saved: SavedEntity, world: Seq<WorldEntity>, simple: bool) -> Option<
    u64,
> {
    match saved.mapped {
        Some(w) => Some(w.id),
        None => if simple {
            fallback_entity(world, saved.index)
        } else {
            None
        },
    }
}

/// Whether `v` holds `x`.
fn contains_index(v: &Vec<u32>, x: u32) -> (r: bool)
    ensures
        r == v@.contains(x),
{
    let mut i: usize = 0;
    while i < v.len()
        invariant
            i <= v.len(),
            forall|j: int| 0 <= j < i ==> v@[j] != x,
        decreases v.len() - i,
    {
        if v[i] == x {
            return true;
        }
        i = i + 1;
    }
    false
}

/// Whether `v` holds `x`.
fn contains_id(v: &Vec<u64>, x: u64) -> (r: bool)
    ensures
        r == v@.contains(x),
{
    let mut i: usize = 0;
    while i < v.len()
        invariant
            i <= v.len(),
            forall|j: int| 0 <= j < i ==> v@[j] != x,
        decreases v.len() - i,
    {
        if v[i] == x {
            return true;
        }
        i = i + 1;
    }
    false
}

/// The ids of the world entities outside `kept` (and on `only`, if given).
fn select_outside(world: &Vec<WorldEntity>, kept: &Vec<u32>, only: Option<&Vec<u64>>) -> (r: Vec<u64>)
    ensures
        r@ == ids_outside(
            world@,
            kept@,
            match only {
                None => None,
                Some(f) => Some(f@),
            },
        ),
{
    let ghost o = match only {
        None => None,
        Some(f) => Some(f@),
    };
    let mut r: Vec<u64> = Vec::new();
    let mut i: usize = 0;
    while i < world.len()
        invariant
            i <= world@.len(),
            o == match only {
                None => None,
                Some(f) => Some(f@),
            },
            r@ == ids_outside(world@.take(i as int), kept@, o),
        decreases world@.len() - i,
    {
        let e = world[i];
        proof {
            assert(world@.take(i as int + 1).drop_last() =~= world@.take(i as int));
            assert(world@.take(i as int + 1).last() == e);
        }
        let listed = match only {
            None => true,
            Some(f) => contains_id(f, e.id),
        };
        if !contains_index(kept, e.index) && listed {
            r.push(e.id);
        }
        i = i + 1;
    }
    assert(world@.take(world@.len() as int) =~= world@);
    r
}

/// The entities that applying a raw snapshot despawns under `mode`, given
/// the snapshot's entities and the entities of the world.
pub fn despawn_targets(mode: &DespawnMode, saved: &Vec<SavedEntity>, world: &Vec<WorldEntity>) -> (r:
    Vec<u64>)
    ensures
        r@ == despawned(*mode, saved@, world@),
{
    let mut standing: Vec<u32> = Vec::new();
    let mut mapped: Vec<u32> = Vec::new();
    let mut i: usize = 0;
    while i < saved.len()
        invariant
            i <= saved@.len(),
            standing@ == indices_standing(saved@.take(i as int)),
            mapped@ == indices_mapped(saved@.take(i as int)),
        decreases saved@.len() - i,
    {
        let e = saved[i];
        proof {
            assert(saved@.take(i as int + 1).drop_last() =~= saved@.take(i as int));
            assert(saved@.take(i as int + 1).last() == e);
        }
        match e.mapped {
            Some(w) => {
                standing.push(w.index);
                mapped.push(w.index);
            },
            None => {
                standing.push(e.index);
            },
        }
        i = i + 1;
        assert(standing@ =~= indices_standing(saved@.take(i as int)));
    }
    assert(saved@.take(saved@.len() as int) =~= saved@);
    match mode {
        DespawnMode::Missing => select_outside(world, &standing, None),
        DespawnMode::MissingWith(f) => select_outside(world, &standing, Some(f)),
        DespawnMode::Unmapped => select_outside(world, &mapped, None),
        DespawnMode::UnmappedWith(f) => select_outside(world, &mapped, Some(f)),
        DespawnMode::All => {
            let none: Vec<u32> = Vec::new();
            assert(none@ =~= Seq::<u32>::empty());
            select_outside(world, &none, None)
        },
        DespawnMode::AllWith(f) => {
            let mut r: Vec<u64> = Vec::new();
            let mut j: usize = 0;
            while j < f.len()
                invariant
                    j <= f@.len(),
                    r@ == f@.take(j as int),
                decreases f@.len() - j,
            {
                r.push(f[j]);
                j = j + 1;
                assert(r@ =~= f@.take(j as int));
            }
            assert(r@ =~= f@);
            r
        },
        DespawnMode::Keep => Vec::new(),
    }
}

/// The world entity a saved entity is written into, or `None` when a new
/// entity has to be spawned for it. `simple` selects the simple mapping,
/// which falls back to the world entity with the saved index.
pub fn target_for(saved: &SavedEntity, world: &Vec<WorldEntity>, simple: bool) -> (r: Option<u64>)
    ensures
        r == write_target(*saved, world@, simple),
{
    match saved.mapped {
        Some(w) => Some(w.id),
        None => {
            if !simple {
                return None;
            }
            let mut i: usize = world.len();
            assert(world@.take(world@.len() as int) =~= world@);
            while i > 0
                invariant
                    i <= world@.len(),
                    saved.mapped is None,
                    simple,
                    fallback_entity(world@, saved.index) == fallback_entity(
                        world@.take(i as int),
                        saved.index,
                    ),
                decreases i,
            {
                let e = world[i - 1];
                proof {
                    assert(world@.take(i as int).drop_last() =~= world@.take(i - 1));
                    assert(world@.take(i as int).last() == e);
                }
                if e.index == saved.index {
                    assert(fallback_entity(world@.take(i as int), saved.index) == Some(e.id));
                    return Some(e.id);
                }
                i = i - 1;
            }
            None
        },
    }
}

/// What `ids_outside` lists: ids of world entities outside `kept` (and on
/// `only`, if given), and every such entity's id.
proof fn lemma_ids_outside(world: Seq<WorldEntity>, kept: Seq<u32>, only: Option<Seq<u64>>)
    ensures
        forall|x: u64|
            #[trigger] ids_outside(world, kept, only).contains(x) ==> exists|i: int|
                0 <= i < world.len() && world[i].id == x && !kept.contains(world[i].index),
        forall|i: int|
            0 <= i < world.len() && !kept.contains(world[i].index) && match only {
                None => true,
                Some(f) => f.contains(world[i].id),
            } ==> #[trigger] ids_outside(world, kept, only).contains(world[i].id),
    decreases world.len(),
{
    if world.len() > 0 {
        let init = world.drop_last();
        lemma_ids_outside(init, kept, only);
        let rest = ids_outside(init, kept, only);
        let r = ids_outside(world, kept, only);
        assert forall|x: u64| #[trigger] r.contains(x) implies exists|i: int|
            0 <= i < world.len() && world[i].id == x && !kept.contains(world[i].index) by {
            let w = choose|w: int| 0 <= w < r.len() && r[w] == x;
            if w < rest.len() {
                assert(rest[w] == r[w]);
                assert(rest.contains(x));
                let i = choose|i: int|
                    0 <= i < init.len() && init[i].id == x && !kept.contains(init[i].index);
                assert(world[i] == init[i]);
            } else {
                assert(world[world.len() - 1] == world.last());
            }
        }
        assert forall|i: int|
            0 <= i < world.len() && !kept.contains(world[i].index) && match only {
                None => true,
                Some(f) => f.contains(world[i].id),
            } implies #[trigger] r.contains(world[i].id) by {
            if i < world.len() - 1 {
                assert(init[i] == world[i]);
                assert(rest.contains(init[i].id));
                let w = choose|w: int| 0 <= w < rest.len() && rest[w] == init[i].id;
                assert(r[w] == rest[w]);
            } else {
                assert(world.last() == world[i]);
                assert(r[r.len() - 1] == world[i].id);
            }
        }
    }
}

/// Despawning the entities missing from a snapshot despawns exactly the
/// world entities whose index no saved entity stands for, mapped or not;
/// despawning the unmapped ones, exactly those whose index no mapped saved
/// entity maps to. (World entities have distinct ids.)
pub proof fn law_despawn_spares_what_snapshot_holds(saved: Seq<SavedEntity>, world: Seq<WorldEntity>)
    requires
        forall|i: int, j: int|
            0 <= i < world.len() && 0 <= j < world.len() && world[i].id == world[j].id ==> i == j,
    ensures
        forall|i: int|
            0 <= i < world.len() ==> (#[trigger] despawned(DespawnMode::Missing, saved, world).contains(
                world[i].id,
            ) <==> !indices_standing(saved).contains(world[i].index)),
        forall|i: int|
            0 <= i < world.len() ==> (#[trigger] despawned(DespawnMode::Unmapped, saved, world).contains(
                world[i].id,
            ) <==> !indices_mapped(saved).contains(world[i].index)),
{
    lemma_ids_outside(world, indices_standing(saved), None);
    lemma_ids_outside(world, indices_mapped(saved), None);
    assert forall|i: int| 0 <= i < world.len() implies (#[trigger] despawned(
        DespawnMode::Missing,
        saved,
        world,
    ).contains(world[i].id) <==> !indices_standing(saved).contains(world[i].index)) by {
        let r = ids_outside(world, indices_standing(saved), None);
        if r.contains(world[i].id) {
            let j = choose|j: int|
                0 <= j < world.len() && world[j].id == world[i].id && !indices_standing(
                    saved,
                ).contains(world[j].index);
        }
    }
    assert forall|i: int| 0 <= i < world.len() implies (#[trigger] despawned(
        DespawnMode::Unmapped,
        saved,
        world,
    ).contains(world[i].id) <==> !indices_mapped(saved).contains(world[i].index)) by {
        let r = ids_outside(world, indices_mapped(saved), None);
        if r.contains(world[i].id) {
            let j = choose|j: int|
                0 <= j < world.len() && world[j].id == world[i].id && !indices_mapped(
                    saved,
                ).contains(world[j].index);
        }
    }
}

} // verus!
