//! The order in which applying a snapshot touches the world: components
//! entity by entity, then resources, then the prefab spawns, then the entity
//! hooks; the first value the registry refuses stops it, after what came
//! before it was done.

use std::any::TypeId;

use vstd::prelude::*;

use crate::reflect::applier::{
    component_outcome,
    decide_component,
    decide_resource,
    resource_outcome,
    ApplyError,
    ComponentAction,
    ReflectedValue,
    ResourceAction,
};
use crate::registry::type_id_eq;
use crate::reflect::applier::RepresentedType;
use crate::snapshot_apply::{
    decide_raw,
    decide_snapshot_component,
    decide_snapshot_resource,
    despawn_targets,
    despawned,
    raw_outcome,
    snapshot_component_outcome,
    snapshot_resource_outcome,
    target_for,
    write_target,
    DespawnMode,
    SavedEntity,
    WorldEntity,
};

verus! {

/// Which checks applying makes of each value.
#[derive(Clone, Copy, Debug, PartialEq, Eq, Structural)]
pub enum ApplyRules {
    /// The reflection applier's: ignored types and relationship targets
    /// are skipped, prefab types are looked up after the registration.
    Reflect,
    /// The snapshot applier's: prefab types are looked up before the
    /// registration.
    Snapshot,
}

/// One thing applying does to the world.
#[derive(Clone, Copy, Debug, PartialEq, Eq, Structural)]
pub enum ApplyStep {
    /// Inserts component `value` (a position among the snapshot's
    /// components) into world entity `target`, its entities mapped first if
    /// `map_entities` holds.
    InsertComponent { value: usize, target: u64, map_entities: bool },
    /// Keeps component `value` of a prefab type for its spawn, its entities
    /// mapped first if `map_entities` holds.
    KeepPrefab { value: usize, target: u64, map_entities: bool },
    /// Applies or inserts resource `index`, its entities mapped first if
    /// `map_entities` holds.
    InsertResource { index: usize, map_entities: bool },
    /// Runs the spawn of the prefab kept from component `value` on world
    /// entity `target`: it gives the entity the prefab's marker and spawns
    /// the prefab.
    SpawnPrefab { value: usize, target: u64 },
    /// Runs the entity hooks on world entity `target`.
    RunHook { target: u64 },
}

/// What applying does with a component under `rules`.
pub open spec fn rule_component_outcome(
    rules: ApplyRules,
    value: ReflectedValue,
    prefabs: Seq<TypeId>,
) -> Result<ComponentAction, ApplyError> {
    match rules {
        ApplyRules::Reflect => component_outcome(value, prefabs),
        ApplyRules::Snapshot => snapshot_component_outcome(value, prefabs),
    }
}

/// What applying does with a resource under `rules`.
pub open spec fn rule_resource_outcome(rules: ApplyRules, value: ReflectedValue) -> Result<
    ResourceAction,
    ApplyError,
> {
    match rules {
        ApplyRules::Reflect => resource_outcome(value),
        ApplyRules::Snapshot => snapshot_resource_outcome(value),
    }
}

/// The type a value represents (meaningful where it has one).
pub open spec fn value_type(value: ReflectedValue) -> TypeId {
    match value.represented {
        Some(t) => t.type_id,
        None => vstd::pervasive::arbitrary(),
    }
}

/// A prefab value kept for its spawn: its position, its target and its
/// type.
pub type KeptPrefab = (usize, u64, TypeId);

/// Going through the components in order (each with the position of its
/// snapshot entity, whose world entity `targets` gives): the steps taken,
/// the prefab values kept, and the error that stopped it, if any.
pub open spec fn component_pass(
    rules: ApplyRules,
    values: Seq<(usize, ReflectedValue)>,
    targets: Seq<u64>,
    prefabs: Seq<TypeId>,
) -> (Seq<ApplyStep>, Seq<KeptPrefab>, Option<ApplyError>)
    decreases values.len(),
{
    if values.len() == 0 {
        (Seq::empty(), Seq::empty(), None)
    } else {
        let prev = component_pass(rules, values.drop_last(), targets, prefabs);
        let i = (values.len() - 1) as usize;
        let target = targets[values.last().0 as int];
        let v = values.last().1;
        if prev.2 is Some {
            prev
        } else {
            match rule_component_outcome(rules, v, prefabs) {
                Err(e) => (prev.0, prev.1, Some(e)),
                Ok(ComponentAction::Skip) => prev,
                Ok(ComponentAction::Prefab { map_entities }) => (
                    prev.0.push(ApplyStep::KeepPrefab { value: i, target, map_entities }),
                    prev.1.push((i, target, value_type(v))),
                    None,
                ),
                Ok(ComponentAction::Insert { map_entities }) => (
                    prev.0.push(ApplyStep::InsertComponent { value: i, target, map_entities }),
                    prev.1,
                    None,
                ),
            }
        }
    }
}

/// Going through the resources in order: the steps taken and the error
/// that stopped it, if any.
pub open spec fn resource_pass(rules: ApplyRules, values: Seq<ReflectedValue>) -> (
    Seq<ApplyStep>,
    Option<ApplyError>,
)
    decreases values.len(),
{
    if values.len() == 0 {
        (Seq::empty(), None)
    } else {
        let prev = resource_pass(rules, values.drop_last());
        let i = (values.len() - 1) as usize;
        if prev.1 is Some {
            prev
        } else {
            match rule_resource_outcome(rules, values.last()) {
                Err(e) => (prev.0, Some(e)),
                Ok(ResourceAction::Skip) => prev,
                Ok(ResourceAction::Insert { map_entities }) => (
                    prev.0.push(ApplyStep::InsertResource { index: i, map_entities }),
                    None,
                ),
            }
        }
    }
}

/// The types of the kept prefab values, each once, in the order they were
/// first kept.
pub open spec fn prefab_types(kept: Seq<KeptPrefab>) -> Seq<TypeId>
    decreases kept.len(),
{
    if kept.len() == 0 {
        Seq::empty()
    } else {
        let rest = prefab_types(kept.drop_last());
        if rest.contains(kept.last().2) {
            rest
        } else {
            rest.push(kept.last().2)
        }
    }
}

/// The spawns of the kept prefab values of type `t`, in the order kept.
pub open spec fn spawns_of_type(kept: Seq<KeptPrefab>, t: TypeId) -> Seq<ApplyStep>
    decreases kept.len(),
{
    if kept.len() == 0 {
        Seq::empty()
    } else {
        let rest = spawns_of_type(kept.drop_last(), t);
        if kept.last().2 == t {
            rest.push(ApplyStep::SpawnPrefab { value: kept.last().0, target: kept.last().1 })
        } else {
            rest
        }
    }
}

/// The spawns of the kept prefab values, type by type in `types` order,
/// each type's values in the order kept.
pub open spec fn spawns_grouped(kept: Seq<KeptPrefab>, types: Seq<TypeId>) -> Seq<ApplyStep>
    decreases types.len(),
{
    if types.len() == 0 {
        Seq::empty()
    } else {
        spawns_grouped(kept, types.drop_last()) + spawns_of_type(kept, types.last())
    }
}

/// The entity hooks: one run on the world entity of each snapshot entity,
/// in snapshot order.
pub open spec fn hook_steps(targets: Seq<u64>) -> Seq<ApplyStep> {
    targets.map_values(|t: u64| ApplyStep::RunHook { target: t })
}

/// Everything applying a snapshot does, and its result: the components in
/// order, then the resources in order; if the registry refuses a value,
/// applying stops there with that error, after the steps before it. Else
/// the kept prefab values are spawned, grouped by type, and then the entity
/// hooks run on each snapshot entity's world entity.
pub open spec fn apply_schedule(
    rules: ApplyRules,
    values: Seq<(usize, ReflectedValue)>,
    targets: Seq<u64>,
    resources: Seq<ReflectedValue>,
    prefabs: Seq<TypeId>,
) -> (Seq<ApplyStep>, Result<(), ApplyError>) {
    let c = component_pass(rules, values, targets, prefabs);
    if c.2 is Some {
        (c.0, Err(c.2->0))
    } else {
        let r = resource_pass(rules, resources);
        if r.1 is Some {
            (c.0 + r.0, Err(r.1->0))
        } else {
            (
                c.0 + r.0 + spawns_grouped(c.1, prefab_types(c.1)) + hook_steps(targets),
                Ok(()),
            )
        }
    }
}

/// Decides what applying does with a component under `rules`.
fn decide_by_rules(rules: ApplyRules, value: &ReflectedValue, prefabs: &Vec<TypeId>) -> (r: Result<
    ComponentAction,
    ApplyError,
>)
    ensures
        r == rule_component_outcome(rules, *value, prefabs@),
{
    match rules {
        ApplyRules::Reflect => decide_component(value, prefabs),
        ApplyRules::Snapshot => decide_snapshot_component(value, prefabs),
    }
}

/// Decides what applying does with a resource under `rules`.
fn decide_resource_by_rules(rules: ApplyRules, value: &ReflectedValue) -> (r: Result<
    ResourceAction,
    ApplyError,
>)
    ensures
        r == rule_resource_outcome(rules, *value),
{
    match rules {
        ApplyRules::Reflect => decide_resource(value),
        ApplyRules::Snapshot => decide_snapshot_resource(value),
    }
}

/// Whether `v` holds `t`.
fn contains_type(v: &Vec<TypeId>, t: &TypeId) -> (r: bool)
    ensures
        r == v@.contains(*t),
{
    let mut i: usize = 0;
    while i < v.len()
        invariant
            i <= v.len(),
            forall|j: int| 0 <= j < i ==> v@[j] != *t,
        decreases v.len() - i,
    {
        if type_id_eq(&v[i], t) {
            return true;
        }
        i = i + 1;
    }
    false
}

/// The spawns of the kept prefab values of type `t`.
fn collect_spawns(kept: &Vec<KeptPrefab>, t: &TypeId, out: &mut Vec<ApplyStep>)
    ensures
        final(out)@ == old(out)@ + spawns_of_type(kept@, *t),
{
    let ghost start = out@;
    let mut i: usize = 0;
    while i < kept.len()
        invariant
            i <= kept@.len(),
            out@ == start + spawns_of_type(kept@.take(i as int), *t),
        decreases kept@.len() - i,
    {
        let k = kept[i];
        proof {
            assert(kept@.take(i as int + 1).drop_last() =~= kept@.take(i as int));
            assert(kept@.take(i as int + 1).last() == k);
        }
        if type_id_eq(&k.2, t) {
            out.push(ApplyStep::SpawnPrefab { value: k.0, target: k.1 });
            proof {
                assert(out@ =~= start + spawns_of_type(kept@.take(i as int + 1), *t));
            }
        }
        i = i + 1;
    }
    assert(kept@.take(kept@.len() as int) =~= kept@);
}

/// Plans applying a snapshot: `values` are its components in order, each
/// with the position of its snapshot entity; `targets` gives the world
/// entity of each snapshot entity (the entity map prepared first);
/// `resources` are its resources; `prefabs` are the types with a prefab
/// spawn. Returns the steps to take in order and the result that applying
/// returns once they are taken.
pub fn plan_apply(
    rules: ApplyRules,
    values: &Vec<(usize, ReflectedValue)>,
    targets: &Vec<u64>,
    resources: &Vec<ReflectedValue>,
    prefabs: &Vec<TypeId>,
) -> (r: (Vec<ApplyStep>, Result<(), ApplyError>))
    requires
        forall|i: int| 0 <= i < values@.len() ==> (#[trigger] values@[i]).0 < targets@.len(),
    ensures
        r.0@ == apply_schedule(rules, values@, targets@, resources@, prefabs@).0,
        r.1 == apply_schedule(rules, values@, targets@, resources@, prefabs@).1,
        forall|k: int|
            0 <= k < r.0@.len() ==> match #[trigger] r.0@[k] {
                ApplyStep::InsertComponent { value, target, .. } => value < values@.len() && target
                    == targets@[values@[value as int].0 as int],
                ApplyStep::KeepPrefab { value, target, .. } => value < values@.len() && target
                    == targets@[values@[value as int].0 as int],
                ApplyStep::SpawnPrefab { value, target } => value < values@.len() && target
                    == targets@[values@[value as int].0 as int],
                _ => true,
            },
{
    let count: usize = values.len();
    proof {
        assert(values@.len() == count);
        law_apply_targets(rules, values@, targets@, resources@, prefabs@);
    }
    let mut steps: Vec<ApplyStep> = Vec::new();
    let mut kept: Vec<KeptPrefab> = Vec::new();
    let mut i: usize = 0;
    while i < values.len()
        invariant
            i <= values@.len(),
            forall|j: int| 0 <= j < values@.len() ==> (#[trigger] values@[j]).0 < targets@.len(),
            component_pass(rules, values@.take(i as int), targets@, prefabs@) == (
                steps@,
                kept@,
                None::<ApplyError>,
            ),
        decreases values@.len() - i,
    {
        let entity = values[i].0;
        let target = targets[entity];
        proof {
            assert(values@.take(i as int + 1).drop_last() =~= values@.take(i as int));
            assert(values@.take(i as int + 1).last() == values@[i as int]);
        }
        match decide_by_rules(rules, &values[i].1, prefabs) {
            Err(e) => {
                proof {
                    let n = i as int + 1;
                    assert forall|m: int| n <= m <= values@.len() implies component_pass(
                        rules,
                        #[trigger] values@.take(m),
                        targets@,
                        prefabs@,
                    ) == (steps@, kept@, Some(e)) by {
                        lemma_pass_stays_stopped(rules, values@, targets@, prefabs@, n, m);
                    }
                    assert(values@.take(values@.len() as int) =~= values@);
                    law_apply_targets(rules, values@, targets@, resources@, prefabs@);
                }
                return (steps, Err(e));
            },
            Ok(ComponentAction::Skip) => {},
            Ok(ComponentAction::Prefab { map_entities }) => {
                steps.push(ApplyStep::KeepPrefab { value: i, target, map_entities });
                let t = match &values[i].1.represented {
                    Some(t) => t.type_id,
                    None => {
                        proof {
                            assert(false);
                        }
                        return (steps, Ok(()));
                    },
                };
                kept.push((i, target, t));
            },
            Ok(ComponentAction::Insert { map_entities }) => {
                steps.push(ApplyStep::InsertComponent { value: i, target, map_entities });
            },
        }
        i = i + 1;
    }
    assert(values@.take(values@.len() as int) =~= values@);
    let ghost csteps = steps@;
    let mut k: usize = 0;
    let ghost rsteps: Seq<ApplyStep> = Seq::empty();
    while k < resources.len()
        invariant
            k <= resources@.len(),
            values@.len() == count,
            component_pass(rules, values@, targets@, prefabs@) == (
                csteps,
                kept@,
                None::<ApplyError>,
            ),
            resource_pass(rules, resources@.take(k as int)) == (rsteps, None::<ApplyError>),
            steps@ == csteps + rsteps,
        decreases resources@.len() - k,
    {
        proof {
            assert(resources@.take(k as int + 1).drop_last() =~= resources@.take(k as int));
            assert(resources@.take(k as int + 1).last() == resources@[k as int]);
        }
        match decide_resource_by_rules(rules, &resources[k]) {
            Err(e) => {
                proof {
                    let n = k as int + 1;
                    assert forall|m: int| n <= m <= resources@.len() implies resource_pass(
                        rules,
                        #[trigger] resources@.take(m),
                    ) == (rsteps, Some(e)) by {
                        lemma_resource_pass_stays_stopped(rules, resources@, n, m);
                    }
                    assert(resources@.take(resources@.len() as int) =~= resources@);
                    law_apply_targets(rules, values@, targets@, resources@, prefabs@);
                }
                return (steps, Err(e));
            },
            Ok(ResourceAction::Skip) => {},
            Ok(ResourceAction::Insert { map_entities }) => {
                steps.push(ApplyStep::InsertResource { index: k, map_entities });
                proof {
                    rsteps = rsteps.push(ApplyStep::InsertResource { index: k, map_entities });
                }
            },
        }
        k = k + 1;
    }
    assert(resources@.take(resources@.len() as int) =~= resources@);
    // The types of the kept prefab values, in the order first kept.
    let mut types: Vec<TypeId> = Vec::new();
    let mut p: usize = 0;
    while p < kept.len()
        invariant
            p <= kept@.len(),
            types@ == prefab_types(kept@.take(p as int)),
        decreases kept@.len() - p,
    {
        let t = kept[p].2;
        proof {
            assert(kept@.take(p as int + 1).drop_last() =~= kept@.take(p as int));
            assert(kept@.take(p as int + 1).last() == kept@[p as int]);
        }
        if !contains_type(&types, &t) {
            types.push(t);
        }
        p = p + 1;
    }
    assert(kept@.take(kept@.len() as int) =~= kept@);
    let ghost before_spawns = steps@;
    let mut q: usize = 0;
    while q < types.len()
        invariant
            q <= types@.len(),
            steps@ == before_spawns + spawns_grouped(kept@, types@.take(q as int)),
        decreases types@.len() - q,
    {
        proof {
            assert(types@.take(q as int + 1).drop_last() =~= types@.take(q as int));
            assert(types@.take(q as int + 1).last() == types@[q as int]);
        }
        collect_spawns(&kept, &types[q], &mut steps);
        q = q + 1;
        assert(steps@ =~= before_spawns + spawns_grouped(kept@, types@.take(q as int)));
    }
    assert(types@.take(types@.len() as int) =~= types@);
    let ghost before_hooks = steps@;
    let mut h: usize = 0;
    while h < targets.len()
        invariant
            h <= targets@.len(),
            steps@ == before_hooks + hook_steps(targets@.take(h as int)),
        decreases targets@.len() - h,
    {
        steps.push(ApplyStep::RunHook { target: targets[h] });
        h = h + 1;
        assert(steps@ =~= before_hooks + hook_steps(targets@.take(h as int)));
    }
    assert(targets@.take(targets@.len() as int) =~= targets@);
    (steps, Ok(()))
}

/// Once the component pass has stopped on an error, later components
/// change nothing.
proof fn lemma_pass_stays_stopped(
    rules: ApplyRules,
    values: Seq<(usize, ReflectedValue)>,
    targets: Seq<u64>,
    prefabs: Seq<TypeId>,
    n: int,
    m: int,
)
    requires
        0 <= n <= m <= values.len(),
        component_pass(rules, values.take(n), targets, prefabs).2 is Some,
    ensures
        component_pass(rules, values.take(m), targets, prefabs) == component_pass(
            rules,
            values.take(n),
            targets,
            prefabs,
        ),
    decreases m - n,
{
    if m > n {
        lemma_pass_stays_stopped(rules, values, targets, prefabs, n, m - 1);
        assert(values.take(m).drop_last() =~= values.take(m - 1));
    }
}

/// Once the resource pass has stopped on an error, later resources change
/// nothing.
proof fn lemma_resource_pass_stays_stopped(
    rules: ApplyRules,
    values: Seq<ReflectedValue>,
    n: int,
    m: int,
)
    requires
        0 <= n <= m <= values.len(),
        resource_pass(rules, values.take(n)).1 is Some,
    ensures
        resource_pass(rules, values.take(m)) == resource_pass(rules, values.take(n)),
    decreases m - n,
{
    if m > n {
        lemma_resource_pass_stays_stopped(rules, values, n, m - 1);
        assert(values.take(m).drop_last() =~= values.take(m - 1));
    }
}

/// One thing applying a raw snapshot does to the world.
#[derive(Clone, Copy, Debug, PartialEq, Eq, Structural)]
pub enum RawStep {
    /// Inserts resource `index`, then, if `map_entities` holds, maps the
    /// entities of its type throughout the world.
    InsertResource { index: usize, map_entities: bool },
    /// Despawns world entity `entity`.
    Despawn { entity: u64 },
    /// Writes saved entity `saved` into the existing world entity `entity`.
    WriteInto { saved: usize, entity: u64 },
    /// Spawns a new world entity for saved entity `saved` and writes it
    /// there.
    SpawnFor { saved: usize },
    /// Inserts component `component` of saved entity `saved` into that
    /// entity's world entity.
    InsertComponent { saved: usize, component: usize },
    /// Maps the entities of every registered type throughout the world.
    MapEntities,
    /// Runs the entity hook on the world entity of saved entity `saved`.
    RunHook { saved: usize },
}

/// Going through the resources of a raw snapshot in order.
pub open spec fn raw_resource_pass(values: Seq<RepresentedType>) -> (Seq<RawStep>, Option<ApplyError>)
    decreases values.len(),
{
    if values.len() == 0 {
        (Seq::empty(), None)
    } else {
        let prev = raw_resource_pass(values.drop_last());
        let i = (values.len() - 1) as usize;
        if prev.1 is Some {
            prev
        } else {
            match raw_outcome(values.last(), true) {
                Err(e) => (prev.0, Some(e)),
                Ok(ResourceAction::Skip) => prev,
                Ok(ResourceAction::Insert { map_entities }) => (
                    prev.0.push(RawStep::InsertResource { index: i, map_entities }),
                    None,
                ),
            }
        }
    }
}

/// Going through the components of saved entity `saved` in order.
pub open spec fn raw_component_pass(values: Seq<RepresentedType>, saved: usize) -> (
    Seq<RawStep>,
    Option<ApplyError>,
)
    decreases values.len(),
{
    if values.len() == 0 {
        (Seq::empty(), None)
    } else {
        let prev = raw_component_pass(values.drop_last(), saved);
        let i = (values.len() - 1) as usize;
        if prev.1 is Some {
            prev
        } else {
            match raw_outcome(values.last(), false) {
                Err(e) => (prev.0, Some(e)),
                Ok(_) => (prev.0.push(RawStep::InsertComponent { saved, component: i }), None),
            }
        }
    }
}

/// The world entities that are not among `gone`, in order.
pub open spec fn survivors(world: Seq<WorldEntity>, gone: Seq<u64>) -> Seq<WorldEntity>
    decreases world.len(),
{
    if world.len() == 0 {
        world
    } else {
        let rest = survivors(world.drop_last(), gone);
        if gone.contains(world.last().id) {
            rest
        } else {
            rest.push(world.last())
        }
    }
}

/// The step that gives saved entity `i` its world entity.
pub open spec fn target_step(saved: SavedEntity, i: usize, world: Seq<WorldEntity>, simple: bool) -> RawStep {
    match write_target(saved, world, simple) {
        Some(e) => RawStep::WriteInto { saved: i, entity: e },
        None => RawStep::SpawnFor { saved: i },
    }
}

/// Going through the first `n` saved entities in order: each gets its world
/// entity, then its components.
pub open spec fn raw_entity_pass(
    saved: Seq<SavedEntity>,
    components: Seq<Seq<RepresentedType>>,
    world: Seq<WorldEntity>,
    simple: bool,
    n: nat,
) -> (Seq<RawStep>, Option<ApplyError>)
    decreases n,
{
    if n == 0 {
        (Seq::empty(), None)
    } else {
        let prev = raw_entity_pass(saved, components, world, simple, (n - 1) as nat);
        let i = (n - 1) as usize;
        if prev.1 is Some {
            prev
        } else {
            let c = raw_component_pass(components[n - 1], i);
            (prev.0.push(target_step(saved[n - 1], i, world, simple)) + c.0, c.1)
        }
    }
}

/// The entity hooks of a raw snapshot: once on each saved entity, in order.
pub open spec fn raw_hook_steps(n: nat) -> Seq<RawStep> {
    Seq::new(n, |i: int| RawStep::RunHook { saved: i as usize })
}

/// Everything applying a raw snapshot does, and its result: its resources
/// in order; then the despawns of `mode`; then each saved entity in order
/// gets its world entity (the one it is mapped to, under the simple mapping
/// the surviving world entity with its index, else a new one) and its
/// components in order; then entities are mapped throughout the world and
/// the hook runs on each saved entity in order. A value whose type is not
/// registered as needed stops it there with that error, after the steps
/// before it.
pub open spec fn raw_schedule(
    resources: Seq<RepresentedType>,
    mode: DespawnMode,
    saved: Seq<SavedEntity>,
    components: Seq<Seq<RepresentedType>>,
    world: Seq<WorldEntity>,
    simple: bool,
) -> (Seq<RawStep>, Result<(), ApplyError>) {
    let r = raw_resource_pass(resources);
    if r.1 is Some {
        (r.0, Err(r.1->0))
    } else {
        let gone = despawned(mode, saved, world);
        let d = gone.map_values(|e: u64| RawStep::Despawn { entity: e });
        let e = raw_entity_pass(saved, components, survivors(world, gone), simple, saved.len());
        if e.1 is Some {
            (r.0 + d + e.0, Err(e.1->0))
        } else {
            (r.0 + d + e.0 + seq![RawStep::MapEntities] + raw_hook_steps(saved.len()), Ok(()))
        }
    }
}

/// Once a raw pass has stopped on an error, later values change nothing.
proof fn lemma_raw_component_pass_stops(values: Seq<RepresentedType>, saved: usize, n: int, m: int)
    requires
        0 <= n <= m <= values.len(),
        raw_component_pass(values.take(n), saved).1 is Some,
    ensures
        raw_component_pass(values.take(m), saved) == raw_component_pass(values.take(n), saved),
    decreases m - n,
{
    if m > n {
        lemma_raw_component_pass_stops(values, saved, n, m - 1);
        assert(values.take(m).drop_last() =~= values.take(m - 1));
    }
}

proof fn lemma_raw_resource_pass_stops(values: Seq<RepresentedType>, n: int, m: int)
    requires
        0 <= n <= m <= values.len(),
        raw_resource_pass(values.take(n)).1 is Some,
    ensures
        raw_resource_pass(values.take(m)) == raw_resource_pass(values.take(n)),
    decreases m - n,
{
    if m > n {
        lemma_raw_resource_pass_stops(values, n, m - 1);
        assert(values.take(m).drop_last() =~= values.take(m - 1));
    }
}

proof fn lemma_raw_entity_pass_stops(
    saved: Seq<SavedEntity>,
    components: Seq<Seq<RepresentedType>>,
    world: Seq<WorldEntity>,
    simple: bool,
    n: nat,
    m: nat,
)
    requires
        n <= m,
        raw_entity_pass(saved, components, world, simple, n).1 is Some,
    ensures
        raw_entity_pass(saved, components, world, simple, m) == raw_entity_pass(
            saved,
            components,
            world,
            simple,
            n,
        ),
    decreases m - n,
{
    if m > n {
        lemma_raw_entity_pass_stops(saved, components, world, simple, n, (m - 1) as nat);
    }
}

/// Whether `step` gives saved entity `s` its world entity.
pub open spec fn gives_entity_to(step: RawStep, s: usize) -> bool {
    match step {
        RawStep::WriteInto { saved, .. } => saved == s,
        RawStep::SpawnFor { saved } => saved == s,
        _ => false,
    }
}

/// Whether `step` inserts a component of saved entity `s`.
pub open spec fn inserts_into(step: RawStep, s: usize) -> bool {
    match step {
        RawStep::InsertComponent { saved, .. } => saved == s,
        _ => false,
    }
}

/// The insert of component `c` of saved entity `s`.
pub open spec fn component_insert(s: int, c: int) -> RawStep {
    RawStep::InsertComponent { saved: s as usize, component: c as usize }
}

/// Whether, in `steps`, the insert at `k` of component `c` of saved entity
/// `s` names a component that entity has, and comes right after the step
/// that gives `s` its world entity and the inserts of its components
/// before `c`.
pub open spec fn insert_in_place(
    steps: Seq<RawStep>,
    components: Seq<Seq<RepresentedType>>,
    k: int,
    s: usize,
    c: usize,
) -> bool {
    &&& s < components.len()
    &&& c < components[s as int].len()
    &&& c < k
    &&& gives_entity_to(steps[k - c - 1], s)
    &&& forall|m: int| k - c - 1 < m < k ==> inserts_into(#[trigger] steps[m], s)
}

/// The component steps of one saved entity: its components in order, each
/// once, all of them unless one stopped the pass.
proof fn lemma_raw_component_steps(values: Seq<RepresentedType>, saved: usize)
    requires
        values.len() <= usize::MAX,
    ensures
        raw_component_pass(values, saved).0.len() <= values.len(),
        forall|m: int|
            0 <= m < raw_component_pass(values, saved).0.len() ==> #[trigger] raw_component_pass(
                values,
                saved,
            ).0[m] == component_insert(saved as int, m),
        raw_component_pass(values, saved).1 is None ==> raw_component_pass(values, saved).0.len()
            == values.len(),
    decreases values.len(),
{
    if values.len() > 0 {
        lemma_raw_component_steps(values.drop_last(), saved);
        let prev = raw_component_pass(values.drop_last(), saved);
        let cur = raw_component_pass(values, saved);
        assert forall|m: int| 0 <= m < cur.0.len() implies #[trigger] cur.0[m] == component_insert(
            saved as int,
            m,
        ) by {
            if m < prev.0.len() {
                assert(cur.0[m] == prev.0[m]);
            }
        }
    }
}

/// The entity steps of the first `n` saved entities: every component
/// insert sits in place after the step that gives its entity a world
/// entity, and, unless a component stopped the pass, every component of
/// those entities is inserted.
proof fn lemma_raw_entity_steps(
    saved: Seq<SavedEntity>,
    components: Seq<Seq<RepresentedType>>,
    world: Seq<WorldEntity>,
    simple: bool,
    n: nat,
)
    requires
        n <= saved.len() <= usize::MAX,
        components.len() == saved.len(),
        forall|s: int| 0 <= s < components.len() ==> (#[trigger] components[s]).len() <= usize::MAX,
    ensures
        forall|k: int|
            0 <= k < raw_entity_pass(saved, components, world, simple, n).0.len() ==> match #[trigger] raw_entity_pass(
                saved,
                components,
                world,
                simple,
                n,
            ).0[k] {
                RawStep::InsertComponent { saved: s, component: c } => s < n && insert_in_place(
                    raw_entity_pass(saved, components, world, simple, n).0,
                    components,
                    k,
                    s,
                    c,
                ),
                RawStep::WriteInto { .. } => true,
                RawStep::SpawnFor { .. } => true,
                _ => false,
            },
        raw_entity_pass(saved, components, world, simple, n).1 is None ==> forall|s: int, c: int|
            0 <= s < n && 0 <= c < components[s].len() ==> raw_entity_pass(
                saved,
                components,
                world,
                simple,
                n,
            ).0.contains(#[trigger] component_insert(s, c)),
    decreases n,
{
    if n > 0 {
        let p = (n - 1) as nat;
        lemma_raw_entity_steps(saved, components, world, simple, p);
        let prev = raw_entity_pass(saved, components, world, simple, p);
        let cur = raw_entity_pass(saved, components, world, simple, n);
        if prev.1 is None {
            let i = p as usize;
            let cp = raw_component_pass(components[p as int], i);
            lemma_raw_component_steps(components[p as int], i);
            let t = target_step(saved[p as int], i, world, simple);
            let base = prev.0.len() as int;
            assert(cur.0 == prev.0.push(t) + cp.0);
            assert forall|m: int| 0 <= m < base implies #[trigger] cur.0[m] == prev.0[m] by {}
            assert(cur.0[base] == t);
            assert forall|m: int| base < m < cur.0.len() implies #[trigger] cur.0[m] == component_insert(
                p as int,
                m - base - 1,
            ) by {
                assert(cur.0[m] == cp.0[m - base - 1]);
            }
            assert forall|k: int| 0 <= k < cur.0.len() implies match #[trigger] cur.0[k] {
                RawStep::InsertComponent { saved: s, component: c } => s < n && insert_in_place(
                    cur.0,
                    components,
                    k,
                    s,
                    c,
                ),
                RawStep::WriteInto { .. } => true,
                RawStep::SpawnFor { .. } => true,
                _ => false,
            } by {
                if k < base {
                    assert(cur.0[k] == prev.0[k]);
                    match prev.0[k] {
                        RawStep::InsertComponent { saved: s, component: c } => {
                            assert(insert_in_place(prev.0, components, k, s, c));
                            assert(cur.0[k - c - 1] == prev.0[k - c - 1]);
                            assert forall|m: int| k - c - 1 < m < k implies inserts_into(
                                #[trigger] cur.0[m],
                                s,
                            ) by {
                                assert(cur.0[m] == prev.0[m]);
                                assert(inserts_into(prev.0[m], s));
                            }
                        },
                        _ => {},
                    }
                } else if k > base {
                    let c = k - base - 1;
                    assert(cur.0[k] == component_insert(p as int, c));
                    assert(cur.0[k - c - 1] == t);
                    assert forall|m: int| k - c - 1 < m < k implies inserts_into(
                        #[trigger] cur.0[m],
                        i,
                    ) by {
                        assert(cur.0[m] == component_insert(p as int, m - base - 1));
                    }
                }
            }
            if cur.1 is None {
                assert forall|s: int, c: int|
                    0 <= s < n && 0 <= c < components[s].len() implies cur.0.contains(
                    #[trigger] component_insert(s, c),
                ) by {
                    if s < p {
                        assert(prev.0.contains(component_insert(s, c)));
                        let w = choose|w: int| 0 <= w < prev.0.len() && prev.0[w] == component_insert(s, c);
                        assert(cur.0[w] == prev.0[w]);
                    } else {
                        assert(cur.0[base + 1 + c] == component_insert(s, c));
                    }
                }
            }
        }
    }
}

/// The raw resource pass yields only resource inserts.
proof fn lemma_raw_resource_steps(values: Seq<RepresentedType>)
    ensures
        forall|k: int|
            0 <= k < raw_resource_pass(values).0.len() ==> (#[trigger] raw_resource_pass(values).0[k]) is InsertResource,
    decreases values.len(),
{
    if values.len() > 0 {
        lemma_raw_resource_steps(values.drop_last());
        let prev = raw_resource_pass(values.drop_last());
        let cur = raw_resource_pass(values);
        assert forall|k: int| 0 <= k < cur.0.len() implies (#[trigger] cur.0[k]) is InsertResource by {
            if k < prev.0.len() {
                assert(cur.0[k] == prev.0[k]);
            }
        }
    }
}

/// Each saved entity gets its own components: every component insert that
/// applying a raw snapshot makes names a component that its saved entity
/// has, and comes right after the step that gives that saved entity its
/// world entity and the inserts of that entity's earlier components; and
/// when applying succeeds, every component of every saved entity is
/// inserted.
pub proof fn law_raw_components_in_place(
    resources: Seq<RepresentedType>,
    mode: DespawnMode,
    saved: Seq<SavedEntity>,
    components: Seq<Seq<RepresentedType>>,
    world: Seq<WorldEntity>,
    simple: bool,
)
    requires
        saved.len() <= usize::MAX,
        components.len() == saved.len(),
        forall|s: int| 0 <= s < components.len() ==> (#[trigger] components[s]).len() <= usize::MAX,
    ensures
        forall|k: int|
            0 <= k < raw_schedule(resources, mode, saved, components, world, simple).0.len() ==> match #[trigger] raw_schedule(
                resources,
                mode,
                saved,
                components,
                world,
                simple,
            ).0[k] {
                RawStep::InsertComponent { saved: s, component: c } => insert_in_place(
                    raw_schedule(resources, mode, saved, components, world, simple).0,
                    components,
                    k,
                    s,
                    c,
                ),
                _ => true,
            },
        raw_schedule(resources, mode, saved, components, world, simple).1 is Ok ==> forall|
            s: int,
            c: int,
        |
            0 <= s < saved.len() && 0 <= c < components[s].len() ==> raw_schedule(
                resources,
                mode,
                saved,
                components,
                world,
                simple,
            ).0.contains(#[trigger] component_insert(s, c)),
{
    let r = raw_resource_pass(resources);
    let steps = raw_schedule(resources, mode, saved, components, world, simple).0;
    lemma_raw_resource_steps(resources);
    if r.1 is None {
        let gone = despawned(mode, saved, world);
        let d = gone.map_values(|e: u64| RawStep::Despawn { entity: e });
        let alive = survivors(world, gone);
        let e = raw_entity_pass(saved, components, alive, simple, saved.len());
        lemma_raw_entity_steps(saved, components, alive, simple, saved.len());
        let o = r.0.len() + d.len();
        let tail = seq![RawStep::MapEntities] + raw_hook_steps(saved.len());
        assert forall|k: int| 0 <= k < o implies !(#[trigger] steps[k] is InsertComponent) by {
            if k < r.0.len() {
                assert(steps[k] == r.0[k]);
            } else {
                assert(steps[k] == d[k - r.0.len()]);
            }
        }
        assert forall|m: int| o <= m < o + e.0.len() implies #[trigger] steps[m] == e.0[m - o] by {}
        assert forall|k: int| o + e.0.len() <= k < steps.len() implies !(#[trigger] steps[k] is InsertComponent) by {
            assert(e.1 is None);
            assert(steps == r.0 + d + e.0 + tail);
            assert(steps[k] == tail[k - o - e.0.len()]);
        }
        assert forall|k: int| 0 <= k < steps.len() implies match #[trigger] steps[k] {
            RawStep::InsertComponent { saved: s, component: c } => insert_in_place(
                steps,
                components,
                k,
                s,
                c,
            ),
            _ => true,
        } by {
            if o <= k < o + e.0.len() {
                let ek = k - o;
                match e.0[ek] {
                    RawStep::InsertComponent { saved: s, component: c } => {
                        assert(insert_in_place(e.0, components, ek, s, c));
                        assert(steps[k - c - 1] == e.0[ek - c - 1]);
                        assert forall|m: int| k - c - 1 < m < k implies inserts_into(
                            #[trigger] steps[m],
                            s,
                        ) by {
                            assert(steps[m] == e.0[m - o]);
                            assert(inserts_into(e.0[m - o], s));
                        }
                    },
                    _ => {},
                }
            }
        }
        if e.1 is None {
            assert forall|s: int, c: int|
                0 <= s < saved.len() && 0 <= c < components[s].len() implies steps.contains(
                #[trigger] component_insert(s, c),
            ) by {
                assert(e.0.contains(component_insert(s, c)));
                let w = choose|w: int| 0 <= w < e.0.len() && e.0[w] == component_insert(s, c);
                assert(steps[o + w] == e.0[w]);
            }
        }
    } else {
        assert forall|k: int| 0 <= k < steps.len() implies !(#[trigger] steps[k] is InsertComponent) by {
            assert(steps[k] == r.0[k]);
        }
    }
}

/// Whether a raw resource step is the decision for the resource it names.
pub open spec fn raw_resource_fits(resources: Seq<RepresentedType>, step: RawStep) -> bool {
    match step {
        RawStep::InsertResource { index, map_entities } => index < resources.len() && raw_outcome(
            resources[index as int],
            true,
        ) == Ok::<ResourceAction, ApplyError>(ResourceAction::Insert { map_entities }),
        _ => false,
    }
}

/// Whether `steps` hold the decision for raw resource `i`.
pub open spec fn raw_resource_done(resources: Seq<RepresentedType>, steps: Seq<RawStep>, i: int) -> bool {
    match raw_outcome(resources[i], true) {
        Ok(ResourceAction::Insert { map_entities }) => steps.contains(
            RawStep::InsertResource { index: i as usize, map_entities },
        ),
        Ok(ResourceAction::Skip) => true,
        Err(_) => false,
    }
}

/// The position a raw resource step names.
pub open spec fn raw_step_index(step: RawStep) -> int {
    match step {
        RawStep::InsertResource { index, .. } => index as int,
        _ => 0,
    }
}

/// The raw resource pass inserts each resource as decided, in order, and
/// stops at the first one refused.
proof fn lemma_raw_resource_decisions(resources: Seq<RepresentedType>)
    requires
        resources.len() <= usize::MAX,
    ensures
        forall|k: int|
            0 <= k < raw_resource_pass(resources).0.len() ==> raw_resource_fits(
                resources,
                #[trigger] raw_resource_pass(resources).0[k],
            ),
        forall|a: int, b: int|
            0 <= a < b < raw_resource_pass(resources).0.len() ==> raw_step_index(
                #[trigger] raw_resource_pass(resources).0[a],
            ) < raw_step_index(#[trigger] raw_resource_pass(resources).0[b]),
        raw_resource_pass(resources).1 is None ==> forall|i: int|
            0 <= i < resources.len() ==> #[trigger] raw_resource_done(
                resources,
                raw_resource_pass(resources).0,
                i,
            ),
        raw_resource_pass(resources).1 is Some ==> exists|i: int|
            0 <= i < resources.len() && raw_outcome(resources[i], true) == Err::<
                ResourceAction,
                ApplyError,
            >(raw_resource_pass(resources).1->0) && (forall|j: int|
                0 <= j < i ==> #[trigger] raw_resource_done(
                    resources,
                    raw_resource_pass(resources).0,
                    j,
                )),
    decreases resources.len(),
{
    if resources.len() > 0 {
        let init = resources.drop_last();
        let n = resources.len() - 1;
        lemma_raw_resource_decisions(init);
        let prev = raw_resource_pass(init);
        let cur = raw_resource_pass(resources);
        assert forall|j: int| 0 <= j < n implies #[trigger] init[j] == resources[j] by {}
        assert forall|k: int| 0 <= k < prev.0.len() implies raw_resource_fits(
            resources,
            #[trigger] prev.0[k],
        ) by {
            assert(raw_resource_fits(init, prev.0[k]));
            match prev.0[k] {
                RawStep::InsertResource { index, .. } => {
                    assert(init[index as int] == resources[index as int]);
                },
                _ => {},
            }
        }
        let v = resources[n];
        assert(resources.last() == v);
        let x = RawStep::InsertResource {
            index: n as usize,
            map_entities: match raw_outcome(v, true) {
                Ok(ResourceAction::Insert { map_entities }) => map_entities,
                _ => false,
            },
        };
        let grows = prev.1 is None && (raw_outcome(v, true) is Ok) && !(raw_outcome(v, true)
            == Ok::<ResourceAction, ApplyError>(ResourceAction::Skip));
        if grows {
            assert(cur.0 == prev.0.push(x));
            assert(cur.0[prev.0.len() as int] == x);
            assert forall|y: RawStep| prev.0.contains(y) implies #[trigger] cur.0.contains(y) by {
                let w = choose|w: int| 0 <= w < prev.0.len() && prev.0[w] == y;
                assert(cur.0[w] == y);
            }
        } else {
            assert(cur.0 == prev.0);
        }
        assert forall|j: int| 0 <= j < n && #[trigger] raw_resource_done(
            init,
            prev.0,
            j,
        ) implies raw_resource_done(resources, cur.0, j) by {
            assert(init[j] == resources[j]);
        }
        assert forall|k: int| 0 <= k < cur.0.len() implies raw_resource_fits(
            resources,
            #[trigger] cur.0[k],
        ) by {
            if k < prev.0.len() {
                assert(cur.0[k] == prev.0[k]);
            }
        }
        assert forall|a: int, b: int| 0 <= a < b < cur.0.len() implies raw_step_index(
            #[trigger] cur.0[a],
        ) < raw_step_index(#[trigger] cur.0[b]) by {
            assert(cur.0[a] == prev.0[a]);
            if b >= prev.0.len() {
                assert(raw_resource_fits(init, prev.0[a]));
            } else {
                assert(cur.0[b] == prev.0[b]);
            }
        }
        if prev.1 is Some {
            let i = choose|i: int|
                0 <= i < init.len() && raw_outcome(init[i], true) == Err::<
                    ResourceAction,
                    ApplyError,
                >(prev.1->0) && (forall|j: int|
                    0 <= j < i ==> #[trigger] raw_resource_done(init, prev.0, j));
            assert(init[i] == resources[i]);
            assert forall|j: int| 0 <= j < i implies #[trigger] raw_resource_done(
                resources,
                cur.0,
                j,
            ) by {
                assert(raw_resource_done(init, prev.0, j));
            }
        } else {
            assert forall|j: int| 0 <= j < n implies #[trigger] raw_resource_done(
                resources,
                cur.0,
                j,
            ) by {
                assert(raw_resource_done(init, prev.0, j));
            }
            if cur.1 is None {
                assert(raw_resource_done(resources, cur.0, n));
            } else {
                assert(raw_outcome(resources[n], true) == Err::<ResourceAction, ApplyError>(
                    cur.1->0,
                ));
            }
        }
    }
}

/// The component pass of one saved entity stops exactly where a component
/// is refused, with the error of the first one.
proof fn lemma_raw_component_outcomes(values: Seq<RepresentedType>, saved: usize)
    ensures
        raw_component_pass(values, saved).1 is None <==> forall|c: int|
            0 <= c < values.len() ==> (#[trigger] raw_outcome(values[c], false)) is Ok,
        match raw_component_pass(values, saved).1 {
            Some(e) => exists|c: int|
                0 <= c < values.len() && raw_outcome(values[c], false) == Err::<
                    ResourceAction,
                    ApplyError,
                >(e) && forall|d: int|
                    0 <= d < c ==> (#[trigger] raw_outcome(values[d], false)) is Ok,
            None => true,
        },
    decreases values.len(),
{
    if values.len() > 0 {
        let init = values.drop_last();
        let n = values.len() - 1;
        lemma_raw_component_outcomes(init, saved);
        assert forall|j: int| 0 <= j < n implies #[trigger] init[j] == values[j] by {}
        assert(values.last() == values[n]);
        let prev = raw_component_pass(init, saved);
        if prev.1 is Some {
            let c = choose|c: int|
                0 <= c < init.len() && raw_outcome(init[c], false) == Err::<
                    ResourceAction,
                    ApplyError,
                >(prev.1->0) && forall|d: int|
                    0 <= d < c ==> (#[trigger] raw_outcome(init[d], false)) is Ok;
            assert(init[c] == values[c]);
            assert forall|d: int| 0 <= d < c implies (#[trigger] raw_outcome(values[d], false)) is Ok by {
                assert(init[d] == values[d]);
            }
        } else {
            assert forall|d: int| 0 <= d < n implies (#[trigger] raw_outcome(values[d], false)) is Ok by {
                assert(init[d] == values[d]);
                assert(raw_outcome(init[d], false) is Ok);
            }
        }
    }
}

/// The entity pass stops exactly where a component is refused, with the
/// error of the first one, entity by entity.
proof fn lemma_raw_entity_outcomes(
    saved: Seq<SavedEntity>,
    components: Seq<Seq<RepresentedType>>,
    world: Seq<WorldEntity>,
    simple: bool,
    n: nat,
)
    requires
        n <= components.len(),
    ensures
        raw_entity_pass(saved, components, world, simple, n).1 is None <==> forall|s: int, c: int|
            0 <= s < n && 0 <= c < components[s].len() ==> (#[trigger] raw_outcome(
                components[s][c],
                false,
            )) is Ok,
        match raw_entity_pass(saved, components, world, simple, n).1 {
            Some(e) => exists|s: int, c: int|
                0 <= s < n && 0 <= c < components[s].len() && raw_outcome(components[s][c], false)
                    == Err::<ResourceAction, ApplyError>(e) && (forall|s2: int, c2: int|
                    0 <= s2 < s && 0 <= c2 < components[s2].len() ==> (
                    #[trigger] raw_outcome(components[s2][c2], false)) is Ok) && (forall|c2: int|
                    0 <= c2 < c ==> (#[trigger] raw_outcome(components[s][c2], false)) is Ok),
            None => true,
        },
    decreases n,
{
    if n > 0 {
        let p = (n - 1) as nat;
        lemma_raw_entity_outcomes(saved, components, world, simple, p);
        let prev = raw_entity_pass(saved, components, world, simple, p);
        let cp = raw_component_pass(components[p as int], p as usize);
        lemma_raw_component_outcomes(components[p as int], p as usize);
        if prev.1 is None {
            if cp.1 is Some {
                let c = choose|c: int|
                    0 <= c < components[p as int].len() && raw_outcome(
                        components[p as int][c],
                        false,
                    ) == Err::<ResourceAction, ApplyError>(cp.1->0) && forall|d: int|
                        0 <= d < c ==> (#[trigger] raw_outcome(components[p as int][d], false)) is Ok;
                assert(raw_outcome(components[p as int][c], false) is Err);
            }
        } else {
            assert(exists|s: int, c: int|
                0 <= s < p && 0 <= c < components[s].len() && (#[trigger] raw_outcome(
                    components[s][c],
                    false,
                )) is Err);
        }
    }
}

/// Applying a raw snapshot inserts each resource as decided, in order; it
/// succeeds exactly when no resource and no component is refused, and then
/// every resource is inserted as decided; else its error is that of the
/// first resource refused, or, where none is, that of the first component
/// refused, saved entity by saved entity.
pub proof fn law_raw_decisions(
    resources: Seq<RepresentedType>,
    mode: DespawnMode,
    saved: Seq<SavedEntity>,
    components: Seq<Seq<RepresentedType>>,
    world: Seq<WorldEntity>,
    simple: bool,
)
    requires
        resources.len() <= usize::MAX,
        saved.len() <= usize::MAX,
        components.len() == saved.len(),
        forall|s: int| 0 <= s < components.len() ==> (#[trigger] components[s]).len() <= usize::MAX,
    ensures
        ({
            let (steps, res) = raw_schedule(resources, mode, saved, components, world, simple);
            &&& forall|k: int|
                0 <= k < steps.len() && (#[trigger] steps[k]) is InsertResource ==> raw_resource_fits(
                    resources,
                    steps[k],
                )
            &&& forall|a: int, b: int|
                0 <= a < b < steps.len() && (#[trigger] steps[a]) is InsertResource && (
                #[trigger] steps[b]) is InsertResource ==> raw_step_index(steps[a])
                    < raw_step_index(steps[b])
            &&& res is Ok ==> forall|i: int|
                0 <= i < resources.len() ==> #[trigger] raw_resource_done(resources, steps, i)
            &&& res is Ok <==> (forall|i: int|
                0 <= i < resources.len() ==> (#[trigger] raw_outcome(resources[i], true)) is Ok)
                && (forall|s: int, c: int|
                0 <= s < saved.len() && 0 <= c < components[s].len() ==> (#[trigger] raw_outcome(
                    components[s][c],
                    false,
                )) is Ok)
            &&& match res {
                Ok(_) => true,
                Err(e) => (exists|i: int|
                    0 <= i < resources.len() && raw_outcome(resources[i], true) == Err::<
                        ResourceAction,
                        ApplyError,
                    >(e) && forall|j: int|
                        0 <= j < i ==> (#[trigger] raw_outcome(resources[j], true)) is Ok) || ((
                forall|i: int|
                    0 <= i < resources.len() ==> (#[trigger] raw_outcome(resources[i], true)) is Ok)
                    && exists|s: int, c: int|
                    0 <= s < saved.len() && 0 <= c < components[s].len() && raw_outcome(
                        components[s][c],
                        false,
                    ) == Err::<ResourceAction, ApplyError>(e) && (forall|s2: int, c2: int|
                        0 <= s2 < s && 0 <= c2 < components[s2].len() ==> (
                        #[trigger] raw_outcome(components[s2][c2], false)) is Ok) && (forall|
                        c2: int,
                    |
                        0 <= c2 < c ==> (#[trigger] raw_outcome(components[s][c2], false)) is Ok)),
            }
        }),
{
    let r = raw_resource_pass(resources);
    let (steps, res) = raw_schedule(resources, mode, saved, components, world, simple);
    lemma_raw_resource_decisions(resources);
    let rn = r.0.len() as int;
    assert forall|k: int| 0 <= k < rn && k < steps.len() implies #[trigger] steps[k] == r.0[k] by {}
    if r.1 is Some {
        let i = choose|i: int|
            0 <= i < resources.len() && raw_outcome(resources[i], true) == Err::<
                ResourceAction,
                ApplyError,
            >(r.1->0) && (forall|j: int| 0 <= j < i ==> #[trigger] raw_resource_done(resources, r.0, j));
        assert forall|j: int| 0 <= j < i implies (#[trigger] raw_outcome(resources[j], true)) is Ok by {
            assert(raw_resource_done(resources, r.0, j));
        }
    } else {
        assert forall|i: int| 0 <= i < resources.len() implies (#[trigger] raw_outcome(
            resources[i],
            true,
        )) is Ok by {
            assert(raw_resource_done(resources, r.0, i));
        }
        let gone = despawned(mode, saved, world);
        let d = gone.map_values(|e: u64| RawStep::Despawn { entity: e });
        let alive = survivors(world, gone);
        let e = raw_entity_pass(saved, components, alive, simple, saved.len());
        lemma_raw_entity_steps(saved, components, alive, simple, saved.len());
        lemma_raw_entity_outcomes(saved, components, alive, simple, saved.len());
        let o = rn + d.len();
        let tail = seq![RawStep::MapEntities] + raw_hook_steps(saved.len());
        assert forall|k: int| rn <= k < steps.len() implies !((#[trigger] steps[k]) is InsertResource) by {
            if k < o {
                assert(steps[k] == d[k - rn]);
            } else if k < o + e.0.len() {
                assert(steps[k] == e.0[k - o]);
            } else {
                assert(steps == r.0 + d + e.0 + tail);
                assert(steps[k] == tail[k - o - e.0.len()]);
            }
        }
        if res is Ok {
            assert forall|i: int| 0 <= i < resources.len() implies #[trigger] raw_resource_done(
                resources,
                steps,
                i,
            ) by {
                assert(raw_resource_done(resources, r.0, i));
                match raw_outcome(resources[i], true) {
                    Ok(ResourceAction::Insert { map_entities }) => {
                        let w = choose|w: int|
                            0 <= w < r.0.len() && r.0[w] == RawStep::InsertResource {
                                index: i as usize,
                                map_entities,
                            };
                        assert(steps[w] == r.0[w]);
                    },
                    _ => {},
                }
            }
        }
    }
}

/// Appends the steps for the components of saved entity `saved`.
fn plan_raw_components(values: &Vec<RepresentedType>, saved: usize, steps: &mut Vec<RawStep>) -> (r:
    Option<ApplyError>)
    ensures
        final(steps)@ == old(steps)@ + raw_component_pass(values@, saved).0,
        r == raw_component_pass(values@, saved).1,
{
    let ghost start = old(steps)@;
    let mut i: usize = 0;
    while i < values.len()
        invariant
            i <= values@.len(),
            raw_component_pass(values@.take(i as int), saved).1 is None,
            steps@ == start + raw_component_pass(values@.take(i as int), saved).0,
            start == old(steps)@,
        decreases values@.len() - i,
    {
        proof {
            assert(values@.take(i as int + 1).drop_last() =~= values@.take(i as int));
            assert(values@.take(i as int + 1).last() == values@[i as int]);
        }
        match decide_raw(&values[i], false) {
            Err(e) => {
                proof {
                    assert(raw_component_pass(values@.take(i as int + 1), saved) == (
                        raw_component_pass(values@.take(i as int), saved).0,
                        Some(e),
                    ));
                    lemma_raw_component_pass_stops(values@, saved, i as int + 1, values@.len() as int);
                    assert(values@.take(values@.len() as int) =~= values@);
                }
                return Some(e);
            },
            Ok(_) => {
                steps.push(RawStep::InsertComponent { saved, component: i });
                proof {
                    assert(steps@ =~= start + raw_component_pass(values@.take(i as int + 1), saved).0);
                }
            },
        }
        i = i + 1;
    }
    assert(values@.take(values@.len() as int) =~= values@);
    None
}

/// Whether `v` holds `x`.
fn holds_id(v: &Vec<u64>, x: u64) -> (r: bool)
    ensures
        r == v@.contains(x),
{
    let mut i: usize = 0;
    while i < v.len()
        invariant
            i <= v.len(),
            forall|j: int| 0 <= j < i ==> v@[j] != x,
        decreases v.len() - i,
    {
        if v[i] == x {
            return true;
        }
        i = i + 1;
    }
    false
}

/// The component types of each saved entity, as sequences.
pub open spec fn component_views(components: Seq<Vec<RepresentedType>>) -> Seq<Seq<RepresentedType>> {
    components.map_values(|c: Vec<RepresentedType>| c@)
}

/// The lengths of the saved entities and of each one's components fit in
/// `usize`.
proof fn lemma_raw_input_bounds(saved: &Vec<SavedEntity>, components: &Vec<Vec<RepresentedType>>)
    ensures
        saved@.len() <= usize::MAX,
        forall|s: int|
            0 <= s < components@.len() ==> (#[trigger] component_views(components@)[s]).len()
                <= usize::MAX,
        component_views(components@).len() == components@.len(),
        forall|s: int|
            0 <= s < components@.len() ==> #[trigger] component_views(components@)[s]
                == components@[s]@,
{
    assert(saved@.len() == saved.len());
    assert forall|s: int| 0 <= s < components@.len() implies (#[trigger] component_views(
        components@,
    )[s]).len() <= usize::MAX by {
        assert(components@[s]@.len() == components@[s].len());
    }
}

/// Plans applying a raw snapshot: its resources, the despawn mode, its
/// saved entities with the components of each (by the type each
/// represents), the entities of the world, and whether the simple mapping
/// is used. Returns the steps to take in order and the result that applying
/// returns once they are taken.
pub fn plan_raw_apply(
    resources: &Vec<RepresentedType>,
    mode: &DespawnMode,
    saved: &Vec<SavedEntity>,
    components: &Vec<Vec<RepresentedType>>,
    world: &Vec<WorldEntity>,
    simple: bool,
) -> (r: (Vec<RawStep>, Result<(), ApplyError>))
    requires
        components@.len() == saved@.len(),
    ensures
        r.0@ == raw_schedule(
            resources@,
            *mode,
            saved@,
            component_views(components@),
            world@,
            simple,
        ).0,
        r.1 == raw_schedule(
            resources@,
            *mode,
            saved@,
            component_views(components@),
            world@,
            simple,
        ).1,
        forall|k: int|
            0 <= k < r.0@.len() ==> match #[trigger] r.0@[k] {
                RawStep::InsertComponent { saved: s, component: c } => insert_in_place(
                    r.0@,
                    component_views(components@),
                    k,
                    s,
                    c,
                ),
                _ => true,
            },
        r.1 is Ok ==> forall|s: int, c: int|
            0 <= s < saved@.len() && 0 <= c < components@[s]@.len() ==> r.0@.contains(
                #[trigger] component_insert(s, c),
            ),
{
    let ghost comps = component_views(components@);
    let mut steps: Vec<RawStep> = Vec::new();
    let mut k: usize = 0;
    while k < resources.len()
        invariant
            k <= resources@.len(),
            components@.len() == saved@.len(),
            raw_resource_pass(resources@.take(k as int)) == (steps@, None::<ApplyError>),
        decreases resources@.len() - k,
    {
        proof {
            assert(resources@.take(k as int + 1).drop_last() =~= resources@.take(k as int));
            assert(resources@.take(k as int + 1).last() == resources@[k as int]);
        }
        match decide_raw(&resources[k], true) {
            Err(e) => {
                proof {
                    lemma_raw_resource_pass_stops(resources@, k as int + 1, resources@.len() as int);
                    assert(resources@.take(resources@.len() as int) =~= resources@);
                    lemma_raw_input_bounds(saved, components);
                    law_raw_components_in_place(
                        resources@,
                        *mode,
                        saved@,
                        component_views(components@),
                        world@,
                        simple,
                    );
                }
                return (steps, Err(e));
            },
            Ok(ResourceAction::Skip) => {},
            Ok(ResourceAction::Insert { map_entities }) => {
                steps.push(RawStep::InsertResource { index: k, map_entities });
            },
        }
        k = k + 1;
    }
    assert(resources@.take(resources@.len() as int) =~= resources@);
    let ghost rsteps = steps@;
    let gone = despawn_targets(mode, saved, world);
    let mut g: usize = 0;
    while g < gone.len()
        invariant
            g <= gone@.len(),
            steps@ == rsteps + gone@.take(g as int).map_values(
                |e: u64| RawStep::Despawn { entity: e },
            ),
        decreases gone@.len() - g,
    {
        steps.push(RawStep::Despawn { entity: gone[g] });
        g = g + 1;
        assert(steps@ =~= rsteps + gone@.take(g as int).map_values(
            |e: u64| RawStep::Despawn { entity: e },
        ));
    }
    assert(gone@.take(gone@.len() as int) =~= gone@);
    let ghost dsteps = steps@;
    let mut alive: Vec<WorldEntity> = Vec::new();
    let mut w: usize = 0;
    while w < world.len()
        invariant
            w <= world@.len(),
            alive@ == survivors(world@.take(w as int), gone@),
        decreases world@.len() - w,
    {
        proof {
            assert(world@.take(w as int + 1).drop_last() =~= world@.take(w as int));
            assert(world@.take(w as int + 1).last() == world@[w as int]);
        }
        if !holds_id(&gone, world[w].id) {
            alive.push(world[w]);
        }
        w = w + 1;
    }
    assert(world@.take(world@.len() as int) =~= world@);
    let mut i: usize = 0;
    while i < saved.len()
        invariant
            i <= saved@.len(),
            components@.len() == saved@.len(),
            comps == component_views(components@),
            raw_entity_pass(saved@, comps, alive@, simple, i as nat).1 is None,
            steps@ == dsteps + raw_entity_pass(saved@, comps, alive@, simple, i as nat).0,
            raw_resource_pass(resources@) == (rsteps, None::<ApplyError>),
            gone@ == despawned(*mode, saved@, world@),
            alive@ == survivors(world@, gone@),
            dsteps == rsteps + gone@.map_values(|e: u64| RawStep::Despawn { entity: e }),
        decreases saved@.len() - i,
    {
        let s = saved[i];
        let step = match target_for(&s, &alive, simple) {
            Some(e) => RawStep::WriteInto { saved: i, entity: e },
            None => RawStep::SpawnFor { saved: i },
        };
        steps.push(step);
        assert(comps[i as int] == components@[i as int]@);
        let stopped = plan_raw_components(&components[i], i, &mut steps);
        proof {
            let prev = raw_entity_pass(saved@, comps, alive@, simple, i as nat);
            assert(steps@ =~= dsteps + raw_entity_pass(saved@, comps, alive@, simple, i as nat + 1).0);
        }
        match stopped {
            Some(e) => {
                proof {
                    assert(raw_entity_pass(saved@, comps, alive@, simple, i as nat + 1).1 == Some(e));
                    lemma_raw_entity_pass_stops(
                        saved@,
                        comps,
                        alive@,
                        simple,
                        i as nat + 1,
                        saved@.len() as nat,
                    );
                    lemma_raw_input_bounds(saved, components);
                    law_raw_components_in_place(
                        resources@,
                        *mode,
                        saved@,
                        component_views(components@),
                        world@,
                        simple,
                    );
                }
                return (steps, Err(e));
            },
            None => {},
        }
        i = i + 1;
    }
    let ghost esteps = steps@;
    steps.push(RawStep::MapEntities);
    let mut h: usize = 0;
    while h < saved.len()
        invariant
            h <= saved@.len(),
            steps@ == esteps + seq![RawStep::MapEntities] + raw_hook_steps(h as nat),
        decreases saved@.len() - h,
    {
        steps.push(RawStep::RunHook { saved: h });
        h = h + 1;
        assert(steps@ =~= esteps + seq![RawStep::MapEntities] + raw_hook_steps(h as nat));
    }
    proof {
        lemma_raw_input_bounds(saved, components);
        law_raw_components_in_place(
            resources@,
            *mode,
            saved@,
            component_views(components@),
            world@,
            simple,
        );
    }
    (steps, Ok(()))
}

/// The spawn of a kept prefab value.
pub open spec fn spawn_of(k: KeptPrefab) -> ApplyStep {
    ApplyStep::SpawnPrefab { value: k.0, target: k.1 }
}

/// What the component pass yields: only component inserts and kept
/// prefabs, the kept values in order of position, each kept with its own
/// step, and no insert of a value whose type has a prefab spawn.
proof fn lemma_component_pass(
    rules: ApplyRules,
    values: Seq<(usize, ReflectedValue)>,
    targets: Seq<u64>,
    prefabs: Seq<TypeId>,
)
    requires
        values.len() <= usize::MAX,
    ensures
        forall|k: int|
            0 <= k < component_pass(rules, values, targets, prefabs).0.len() ==> match #[trigger] component_pass(
                rules,
                values,
                targets,
                prefabs,
            ).0[k] {
                ApplyStep::InsertComponent { value, target, .. } => value < values.len()
                    && !prefabs.contains(value_type(values[value as int].1))
                    && target == targets[values[value as int].0 as int],
                ApplyStep::KeepPrefab { value, target, .. } => value < values.len()
                    && target == targets[values[value as int].0 as int],
                _ => false,
            },
        forall|j: int|
            0 <= j < component_pass(rules, values, targets, prefabs).1.len() ==> (#[trigger] component_pass(
                rules,
                values,
                targets,
                prefabs,
            ).1[j]).0 < values.len() && component_pass(rules, values, targets, prefabs).1[j].1
                == targets[values[component_pass(rules, values, targets, prefabs).1[j].0 as int].0 as int],
        forall|a: int, b: int|
            0 <= a < b < component_pass(rules, values, targets, prefabs).1.len() ==> component_pass(
                rules,
                values,
                targets,
                prefabs,
            ).1[a].0 < component_pass(rules, values, targets, prefabs).1[b].0,
    decreases values.len(),
{
    if values.len() > 0 {
        lemma_component_pass(rules, values.drop_last(), targets, prefabs);
        let prev = component_pass(rules, values.drop_last(), targets, prefabs);
        let cur = component_pass(rules, values, targets, prefabs);
        let n = values.len() - 1;
        assert forall|k: int| 0 <= k < cur.0.len() implies match #[trigger] cur.0[k] {
            ApplyStep::InsertComponent { value, target, .. } => value < values.len()
                && !prefabs.contains(value_type(values[value as int].1))
                && target == targets[values[value as int].0 as int],
            ApplyStep::KeepPrefab { value, target, .. } => value < values.len()
                && target == targets[values[value as int].0 as int],
            _ => false,
        } by {
            if k < prev.0.len() {
                assert(cur.0[k] == prev.0[k]);
                match prev.0[k] {
                    ApplyStep::InsertComponent { value, .. } => {
                        assert(values.drop_last()[value as int] == values[value as int]);
                    },
                    ApplyStep::KeepPrefab { value, .. } => {
                        assert(values.drop_last()[value as int] == values[value as int]);
                    },
                    _ => {},
                }
            }
        }
        assert forall|j: int| 0 <= j < cur.1.len() implies (#[trigger] cur.1[j]).0 < values.len()
            && cur.1[j].1 == targets[values[cur.1[j].0 as int].0 as int] by {
            if j < prev.1.len() {
                assert(cur.1[j] == prev.1[j]);
                assert(values.drop_last()[prev.1[j].0 as int] == values[prev.1[j].0 as int]);
            }
        }
        assert forall|a: int, b: int| 0 <= a < b < cur.1.len() implies cur.1[a].0 < cur.1[b].0 by {
            if b < prev.1.len() {
                assert(cur.1[a] == prev.1[a] && cur.1[b] == prev.1[b]);
            } else {
                assert(cur.1[a] == prev.1[a]);
                assert(prev.1[a].0 < values.drop_last().len());
            }
        }
    }
}

/// The prefab types: each once, each the type of a kept value, and every
/// kept value's type among them.
proof fn lemma_prefab_types(kept: Seq<KeptPrefab>)
    ensures
        prefab_types(kept).no_duplicates(),
        forall|t: TypeId|
            #[trigger] prefab_types(kept).contains(t) <==> exists|j: int|
                0 <= j < kept.len() && kept[j].2 == t,
    decreases kept.len(),
{
    if kept.len() > 0 {
        let init = kept.drop_last();
        lemma_prefab_types(init);
        let rest = prefab_types(init);
        let cur = prefab_types(kept);
        assert forall|t: TypeId| #[trigger] cur.contains(t) <==> exists|j: int|
            0 <= j < kept.len() && kept[j].2 == t by {
            if cur.contains(t) {
                if rest.contains(t) {
                    let j = choose|j: int| 0 <= j < init.len() && init[j].2 == t;
                    assert(kept[j] == init[j]);
                } else {
                    assert(kept[kept.len() - 1].2 == t);
                }
            }
            if exists|j: int| 0 <= j < kept.len() && kept[j].2 == t {
                let j = choose|j: int| 0 <= j < kept.len() && kept[j].2 == t;
                if j < kept.len() - 1 {
                    assert(init[j] == kept[j]);
                    assert(rest.contains(t));
                    if !rest.contains(kept.last().2) {
                        let w = choose|w: int| 0 <= w < rest.len() && rest[w] == t;
                        assert(cur[w] == rest[w]);
                    }
                } else {
                    if !rest.contains(t) {
                        assert(cur[cur.len() - 1] == t);
                    }
                }
            }
        }
    }
}

/// Of a type that no kept value has, there is no spawn.
proof fn lemma_spawns_of_absent_type(kept: Seq<KeptPrefab>, t: TypeId)
    requires
        forall|j: int| 0 <= j < kept.len() ==> kept[j].2 != t,
    ensures
        spawns_of_type(kept, t) == Seq::<ApplyStep>::empty(),
    decreases kept.len(),
{
    if kept.len() > 0 {
        lemma_spawns_of_absent_type(kept.drop_last(), t);
    }
}

/// Keeping one more value leaves the spawns of types other than its own
/// as they were.
proof fn lemma_grouped_other_types(kept: Seq<KeptPrefab>, x: KeptPrefab, types: Seq<TypeId>)
    requires
        !types.contains(x.2),
    ensures
        spawns_grouped(kept.push(x), types) == spawns_grouped(kept, types),
    decreases types.len(),
{
    if types.len() > 0 {
        lemma_grouped_other_types(kept, x, types.drop_last());
        assert(kept.push(x).drop_last() =~= kept);
        assert(types.last() == types[types.len() - 1]);
    }
}

/// Keeping one more value of a listed type adds its spawn, one more step.
proof fn lemma_grouped_own_type(kept: Seq<KeptPrefab>, x: KeptPrefab, types: Seq<TypeId>)
    requires
        types.contains(x.2),
        types.no_duplicates(),
    ensures
        spawns_grouped(kept.push(x), types).len() == spawns_grouped(kept, types).len() + 1,
        spawns_grouped(kept.push(x), types).contains(spawn_of(x)),
        forall|s: ApplyStep|
            #[trigger] spawns_grouped(kept, types).contains(s) ==> spawns_grouped(
                kept.push(x),
                types,
            ).contains(s),
        forall|s: ApplyStep|
            #[trigger] spawns_grouped(kept.push(x), types).contains(s) ==> spawns_grouped(
                kept,
                types,
            ).contains(s) || s == spawn_of(x),
    decreases types.len(),
{
    let kx = kept.push(x);
    assert(kx.drop_last() =~= kept);
    let init = types.drop_last();
    let t = types.last();
    assert(types[types.len() - 1] == t);
    let old_g = spawns_grouped(kept, types);
    let new_g = spawns_grouped(kx, types);
    let old_prev = spawns_grouped(kept, init);
    let old_t = spawns_of_type(kept, t);
    let new_t = spawns_of_type(kx, t);
    if t == x.2 {
        assert(!init.contains(x.2)) by {
            if init.contains(x.2) {
                let w = choose|w: int| 0 <= w < init.len() && init[w] == x.2;
                assert(types[w] == types[types.len() - 1]);
            }
        }
        lemma_grouped_other_types(kept, x, init);
        assert(new_t == old_t.push(spawn_of(x)));
        assert(new_g == old_prev + old_t.push(spawn_of(x)));
        assert(old_g == old_prev + old_t);
        assert(new_g[new_g.len() - 1] == spawn_of(x));
        assert forall|s: ApplyStep| #[trigger] old_g.contains(s) implies new_g.contains(s) by {
            let w = choose|w: int| 0 <= w < old_g.len() && old_g[w] == s;
            assert(new_g[w] == old_g[w]);
        }
        assert forall|s: ApplyStep| #[trigger] new_g.contains(s) implies old_g.contains(s) || s
            == spawn_of(x) by {
            let w = choose|w: int| 0 <= w < new_g.len() && new_g[w] == s;
            if w < new_g.len() - 1 {
                assert(old_g[w] == new_g[w]);
            }
        }
    } else {
        assert(init.contains(x.2)) by {
            let w = choose|w: int| 0 <= w < types.len() && types[w] == x.2;
            assert(init[w] == types[w]);
        }
        assert(init.no_duplicates()) by {
            assert forall|a: int, b: int| 0 <= a < init.len() && 0 <= b < init.len() && a != b implies init[a] != init[b] by {
                assert(init[a] == types[a] && init[b] == types[b]);
            }
        }
        lemma_grouped_own_type(kept, x, init);
        let new_prev = spawns_grouped(kx, init);
        assert(new_t == old_t);
        assert(new_g == new_prev + old_t);
        assert(old_g == old_prev + old_t);
        assert(new_prev.contains(spawn_of(x)));
        let w = choose|w: int| 0 <= w < new_prev.len() && new_prev[w] == spawn_of(x);
        assert(new_g[w] == new_prev[w]);
        assert forall|s: ApplyStep| #[trigger] old_g.contains(s) implies new_g.contains(s) by {
            let v = choose|v: int| 0 <= v < old_g.len() && old_g[v] == s;
            if v < old_prev.len() {
                assert(old_prev[v] == s);
                assert(old_prev.contains(s));
                let u = choose|u: int| 0 <= u < new_prev.len() && new_prev[u] == s;
                assert(new_g[u] == new_prev[u]);
            } else {
                assert(new_g[v + 1] == old_g[v]);
            }
        }
        assert forall|s: ApplyStep| #[trigger] new_g.contains(s) implies old_g.contains(s) || s
            == spawn_of(x) by {
            let v = choose|v: int| 0 <= v < new_g.len() && new_g[v] == s;
            if v < new_prev.len() {
                assert(new_prev[v] == s);
                assert(new_prev.contains(s));
                if s != spawn_of(x) {
                    assert(old_prev.contains(s));
                    let u = choose|u: int| 0 <= u < old_prev.len() && old_prev[u] == s;
                    assert(old_g[u] == old_prev[u]);
                }
            } else {
                assert(old_g[v - 1] == new_g[v]);
            }
        }
    }
}

/// The prefab spawns: one step per kept value, and they are exactly the
/// spawns of the kept values.
proof fn lemma_spawns(kept: Seq<KeptPrefab>)
    ensures
        spawns_grouped(kept, prefab_types(kept)).len() == kept.len(),
        forall|j: int|
            0 <= j < kept.len() ==> spawns_grouped(kept, prefab_types(kept)).contains(
                spawn_of(#[trigger] kept[j]),
            ),
        forall|s: ApplyStep|
            #[trigger] spawns_grouped(kept, prefab_types(kept)).contains(s) ==> exists|j: int|
                0 <= j < kept.len() && s == spawn_of(kept[j]),
    decreases kept.len(),
{
    if kept.len() > 0 {
        let init = kept.drop_last();
        let x = kept.last();
        assert(init.push(x) =~= kept);
        lemma_spawns(init);
        lemma_prefab_types(init);
        lemma_prefab_types(kept);
        let types = prefab_types(init);
        let old_g = spawns_grouped(init, types);
        if types.contains(x.2) {
            assert(prefab_types(kept) == types);
            lemma_grouped_own_type(init, x, types);
        } else {
            assert(prefab_types(kept) == types.push(x.2));
            lemma_grouped_other_types(init, x, types);
            let tp = types.push(x.2);
            assert(tp.drop_last() =~= types);
            lemma_spawns_of_absent_type(init, x.2);
            assert(spawns_of_type(kept, x.2) == spawns_of_type(init, x.2).push(spawn_of(x)));
            let new_g = spawns_grouped(kept, tp);
            assert(new_g == old_g + seq![spawn_of(x)]);
            assert(new_g[new_g.len() - 1] == spawn_of(x));
            assert forall|s: ApplyStep| #[trigger] old_g.contains(s) implies new_g.contains(s) by {
                let w = choose|w: int| 0 <= w < old_g.len() && old_g[w] == s;
                assert(new_g[w] == old_g[w]);
            }
            assert forall|s: ApplyStep| #[trigger] new_g.contains(s) implies old_g.contains(s) || s
                == spawn_of(x) by {
                let w = choose|w: int| 0 <= w < new_g.len() && new_g[w] == s;
                if w < old_g.len() {
                    assert(old_g[w] == new_g[w]);
                }
            }
        }
        let g = spawns_grouped(kept, prefab_types(kept));
        assert forall|j: int| 0 <= j < kept.len() implies g.contains(spawn_of(#[trigger] kept[j])) by {
            if j < init.len() {
                assert(init[j] == kept[j]);
                assert(old_g.contains(spawn_of(init[j])));
            }
        }
        assert forall|s: ApplyStep| #[trigger] g.contains(s) implies exists|j: int|
            0 <= j < kept.len() && s == spawn_of(kept[j]) by {
            if s != spawn_of(x) {
                assert(old_g.contains(s));
                let j = choose|j: int| 0 <= j < init.len() && s == spawn_of(init[j]);
                assert(kept[j] == init[j]);
            } else {
                assert(kept[kept.len() - 1] == x);
            }
        }
    }
}

/// When applying a snapshot succeeds, its steps come in three parts: first
/// the component and resource inserts and the prefab values kept (never an
/// insert of a value whose type has a prefab spawn), then exactly one spawn
/// for each prefab value kept, then the entity hooks, once on the world
/// entity of each snapshot entity, in snapshot order.
pub proof fn law_apply_order(
    rules: ApplyRules,
    values: Seq<(usize, ReflectedValue)>,
    targets: Seq<u64>,
    resources: Seq<ReflectedValue>,
    prefabs: Seq<TypeId>,
)
    requires
        values.len() <= usize::MAX,
        apply_schedule(rules, values, targets, resources, prefabs).1 is Ok,
    ensures
        ({
            let steps = apply_schedule(rules, values, targets, resources, prefabs).0;
            let kept = component_pass(rules, values, targets, prefabs).1;
            let first = component_pass(rules, values, targets, prefabs).0.len()
                + resource_pass(rules, resources).0.len();
            let spawns_end = first + kept.len();
            &&& steps.len() == spawns_end + targets.len()
            &&& forall|k: int|
                0 <= k < first ==> match #[trigger] steps[k] {
                    ApplyStep::InsertComponent { value, .. } => !prefabs.contains(
                        value_type(values[value as int].1),
                    ),
                    ApplyStep::KeepPrefab { .. } => true,
                    ApplyStep::InsertResource { .. } => true,
                    _ => false,
                }
            &&& forall|j: int|
                0 <= j < kept.len() ==> exists|k: int|
                    first <= k < spawns_end && steps[k] == spawn_of(#[trigger] kept[j])
            &&& forall|k: int|
                first <= k < spawns_end ==> exists|j: int|
                    0 <= j < kept.len() && #[trigger] steps[k] == spawn_of(kept[j])
            &&& steps.subrange(spawns_end as int, steps.len() as int) == hook_steps(targets)
        }),
{
    let c = component_pass(rules, values, targets, prefabs);
    let r = resource_pass(rules, resources);
    let kept = c.1;
    let g = spawns_grouped(kept, prefab_types(kept));
    let h = hook_steps(targets);
    let steps = apply_schedule(rules, values, targets, resources, prefabs).0;
    lemma_component_pass(rules, values, targets, prefabs);
    lemma_resource_pass(rules, resources);
    lemma_spawns(kept);
    let first = c.0.len() + r.0.len();
    let spawns_end = first + kept.len();
    assert(steps == c.0 + r.0 + g + h);
    assert forall|k: int| 0 <= k < first implies match #[trigger] steps[k] {
        ApplyStep::InsertComponent { value, .. } => !prefabs.contains(
            value_type(values[value as int].1),
        ),
        ApplyStep::KeepPrefab { .. } => true,
        ApplyStep::InsertResource { .. } => true,
        _ => false,
    } by {
        if k < c.0.len() {
            assert(steps[k] == c.0[k]);
        } else {
            assert(steps[k] == r.0[k - c.0.len()]);
        }
    }
    assert forall|j: int| 0 <= j < kept.len() implies exists|k: int|
        first <= k < spawns_end && steps[k] == spawn_of(#[trigger] kept[j]) by {
        let w = choose|w: int| 0 <= w < g.len() && g[w] == spawn_of(kept[j]);
        assert(steps[first + w] == g[w]);
    }
    assert forall|k: int| first <= k < spawns_end implies exists|j: int|
        0 <= j < kept.len() && #[trigger] steps[k] == spawn_of(kept[j]) by {
        assert(steps[k] == g[k - first]);
        assert(g.contains(g[k - first]));
    }
    assert(steps.subrange(spawns_end as int, steps.len() as int) =~= h);
}

/// Each component goes to its own entity: every component insert, every
/// prefab value kept and every prefab spawn that applying a snapshot makes
/// names one of its components and, as its target, the world entity of the
/// snapshot entity that owns that component.
pub proof fn law_apply_targets(
    rules: ApplyRules,
    values: Seq<(usize, ReflectedValue)>,
    targets: Seq<u64>,
    resources: Seq<ReflectedValue>,
    prefabs: Seq<TypeId>,
)
    requires
        values.len() <= usize::MAX,
    ensures
        forall|k: int|
            0 <= k < apply_schedule(rules, values, targets, resources, prefabs).0.len() ==> match #[trigger] apply_schedule(
                rules,
                values,
                targets,
                resources,
                prefabs,
            ).0[k] {
                ApplyStep::InsertComponent { value, target, .. } => value < values.len() && target
                    == targets[values[value as int].0 as int],
                ApplyStep::KeepPrefab { value, target, .. } => value < values.len() && target
                    == targets[values[value as int].0 as int],
                ApplyStep::SpawnPrefab { value, target } => value < values.len() && target
                    == targets[values[value as int].0 as int],
                _ => true,
            },
{
    let c = component_pass(rules, values, targets, prefabs);
    let r = resource_pass(rules, resources);
    let kept = c.1;
    let g = spawns_grouped(kept, prefab_types(kept));
    let h = hook_steps(targets);
    let steps = apply_schedule(rules, values, targets, resources, prefabs).0;
    lemma_component_pass(rules, values, targets, prefabs);
    lemma_resource_pass(rules, resources);
    lemma_spawns(kept);
    assert forall|k: int| 0 <= k < steps.len() implies match #[trigger] steps[k] {
        ApplyStep::InsertComponent { value, target, .. } => value < values.len() && target
            == targets[values[value as int].0 as int],
        ApplyStep::KeepPrefab { value, target, .. } => value < values.len() && target
            == targets[values[value as int].0 as int],
        ApplyStep::SpawnPrefab { value, target } => value < values.len() && target
            == targets[values[value as int].0 as int],
        _ => true,
    } by {
        if k < c.0.len() {
            assert(steps[k] == c.0[k]);
        } else if k < c.0.len() + r.0.len() {
            assert(steps[k] == r.0[k - c.0.len()]);
        } else if k < c.0.len() + r.0.len() + g.len() {
            assert(steps == c.0 + r.0 + g + h);
            let w = k - c.0.len() - r.0.len();
            assert(steps[k] == g[w]);
            assert(g.contains(g[w]));
            let j = choose|j: int| 0 <= j < kept.len() && g[w] == spawn_of(kept[j]);
            assert(kept[j].0 < values.len());
        } else {
            assert(steps == c.0 + r.0 + g + h);
            assert(steps[k] == h[k - c.0.len() - r.0.len() - g.len()]);
        }
    }
}

/// The position a component or resource step names.
pub open spec fn step_position(step: ApplyStep) -> int {
    match step {
        ApplyStep::InsertComponent { value, .. } => value as int,
        ApplyStep::KeepPrefab { value, .. } => value as int,
        ApplyStep::InsertResource { index, .. } => index as int,
        ApplyStep::SpawnPrefab { value, .. } => value as int,
        ApplyStep::RunHook { .. } => 0,
    }
}

/// Whether `step` inserts or keeps a component.
pub open spec fn is_component_step(step: ApplyStep) -> bool {
    step is InsertComponent || step is KeepPrefab
}

/// Whether a component step is what `rules` decide for the component it
/// names, sent to the world entity of that component's snapshot entity.
pub open spec fn component_step_fits(
    rules: ApplyRules,
    values: Seq<(usize, ReflectedValue)>,
    targets: Seq<u64>,
    prefabs: Seq<TypeId>,
    step: ApplyStep,
) -> bool {
    match step {
        ApplyStep::InsertComponent { value, target, map_entities } => value < values.len()
            && target == targets[values[value as int].0 as int] && rule_component_outcome(
            rules,
            values[value as int].1,
            prefabs,
        ) == Ok::<ComponentAction, ApplyError>(ComponentAction::Insert { map_entities }),
        ApplyStep::KeepPrefab { value, target, map_entities } => value < values.len() && target
            == targets[values[value as int].0 as int] && rule_component_outcome(
            rules,
            values[value as int].1,
            prefabs,
        ) == Ok::<ComponentAction, ApplyError>(ComponentAction::Prefab { map_entities }),
        _ => false,
    }
}

/// Whether `steps` hold what `rules` decide for component `i`: its insert
/// or its keeping for a prefab spawn, with its entity's world entity as
/// target; nothing where it is skipped; a refused component is never done.
pub open spec fn component_done(
    rules: ApplyRules,
    values: Seq<(usize, ReflectedValue)>,
    targets: Seq<u64>,
    prefabs: Seq<TypeId>,
    steps: Seq<ApplyStep>,
    i: int,
) -> bool {
    match rule_component_outcome(rules, values[i].1, prefabs) {
        Ok(ComponentAction::Insert { map_entities }) => steps.contains(
            ApplyStep::InsertComponent {
                value: i as usize,
                target: targets[values[i].0 as int],
                map_entities,
            },
        ),
        Ok(ComponentAction::Prefab { map_entities }) => steps.contains(
            ApplyStep::KeepPrefab { value: i as usize, target: targets[values[i].0 as int], map_entities },
        ),
        Ok(ComponentAction::Skip) => true,
        Err(_) => false,
    }
}

/// Whether a resource step is what `rules` decide for the resource it
/// names.
pub open spec fn resource_step_fits(
    rules: ApplyRules,
    resources: Seq<ReflectedValue>,
    step: ApplyStep,
) -> bool {
    match step {
        ApplyStep::InsertResource { index, map_entities } => index < resources.len()
            && rule_resource_outcome(rules, resources[index as int]) == Ok::<
            ResourceAction,
            ApplyError,
        >(ResourceAction::Insert { map_entities }),
        _ => false,
    }
}

/// Whether `steps` hold what `rules` decide for resource `i`.
pub open spec fn resource_done(
    rules: ApplyRules,
    resources: Seq<ReflectedValue>,
    steps: Seq<ApplyStep>,
    i: int,
) -> bool {
    match rule_resource_outcome(rules, resources[i]) {
        Ok(ResourceAction::Insert { map_entities }) => steps.contains(
            ApplyStep::InsertResource { index: i as usize, map_entities },
        ),
        Ok(ResourceAction::Skip) => true,
        Err(_) => false,
    }
}

/// What one more step keeps of what a sequence holds.
proof fn lemma_push_contains(s: Seq<ApplyStep>, x: ApplyStep)
    ensures
        s.push(x).contains(x),
        forall|y: ApplyStep| s.contains(y) ==> #[trigger] s.push(x).contains(y),
{
    assert(s.push(x)[s.len() as int] == x);
    assert forall|y: ApplyStep| s.contains(y) implies #[trigger] s.push(x).contains(y) by {
        let w = choose|w: int| 0 <= w < s.len() && s[w] == y;
        assert(s.push(x)[w] == y);
    }
}

/// The component pass does what the rules decide for each component, in
/// order, and stops at the first one refused.
proof fn lemma_component_decisions(
    rules: ApplyRules,
    values: Seq<(usize, ReflectedValue)>,
    targets: Seq<u64>,
    prefabs: Seq<TypeId>,
)
    requires
        values.len() <= usize::MAX,
    ensures
        forall|k: int|
            0 <= k < component_pass(rules, values, targets, prefabs).0.len() ==> component_step_fits(
                rules,
                values,
                targets,
                prefabs,
                #[trigger] component_pass(rules, values, targets, prefabs).0[k],
            ),
        forall|a: int, b: int|
            0 <= a < b < component_pass(rules, values, targets, prefabs).0.len() ==> step_position(
                #[trigger] component_pass(rules, values, targets, prefabs).0[a],
            ) < step_position(#[trigger] component_pass(rules, values, targets, prefabs).0[b]),
        component_pass(rules, values, targets, prefabs).2 is None ==> forall|i: int|
            0 <= i < values.len() ==> #[trigger] component_done(
                rules,
                values,
                targets,
                prefabs,
                component_pass(rules, values, targets, prefabs).0,
                i,
            ),
        component_pass(rules, values, targets, prefabs).2 is Some ==> exists|i: int|
            0 <= i < values.len() && rule_component_outcome(rules, values[i].1, prefabs) == Err::<
                ComponentAction,
                ApplyError,
            >(component_pass(rules, values, targets, prefabs).2->0) && (forall|j: int|
                0 <= j < i ==> #[trigger] component_done(
                    rules,
                    values,
                    targets,
                    prefabs,
                    component_pass(rules, values, targets, prefabs).0,
                    j,
                )),
    decreases values.len(),
{
    if values.len() > 0 {
        let init = values.drop_last();
        let n = values.len() - 1;
        lemma_component_decisions(rules, init, targets, prefabs);
        let prev = component_pass(rules, init, targets, prefabs);
        let cur = component_pass(rules, values, targets, prefabs);
        assert forall|j: int| 0 <= j < n implies #[trigger] init[j] == values[j] by {}
        assert forall|k: int| 0 <= k < prev.0.len() implies component_step_fits(
            rules,
            values,
            targets,
            prefabs,
            #[trigger] prev.0[k],
        ) by {
            assert(component_step_fits(rules, init, targets, prefabs, prev.0[k]));
            match prev.0[k] {
                ApplyStep::InsertComponent { value, .. } => {
                    assert(init[value as int] == values[value as int]);
                },
                ApplyStep::KeepPrefab { value, .. } => {
                    assert(init[value as int] == values[value as int]);
                },
                _ => {},
            }
        }
        let v = values[n];
        assert(values.last() == v);
        let x = match rule_component_outcome(rules, v.1, prefabs) {
            Ok(ComponentAction::Insert { map_entities }) => ApplyStep::InsertComponent {
                value: n as usize,
                target: targets[v.0 as int],
                map_entities,
            },
            _ => ApplyStep::KeepPrefab {
                value: n as usize,
                target: targets[v.0 as int],
                map_entities: match rule_component_outcome(rules, v.1, prefabs) {
                    Ok(ComponentAction::Prefab { map_entities }) => map_entities,
                    _ => false,
                },
            },
        };
        let grows = prev.2 is None && (rule_component_outcome(rules, v.1, prefabs) is Ok)
            && !(rule_component_outcome(rules, v.1, prefabs) == Ok::<ComponentAction, ApplyError>(
            ComponentAction::Skip,
        ));
        if grows {
            assert(cur.0 == prev.0.push(x));
            lemma_push_contains(prev.0, x);
        } else {
            assert(cur.0 == prev.0);
        }
        assert forall|j: int| 0 <= j < n && #[trigger] component_done(
            rules,
            init,
            targets,
            prefabs,
            prev.0,
            j,
        ) implies component_done(rules, values, targets, prefabs, cur.0, j) by {
            assert(init[j] == values[j]);
        }
        assert forall|k: int| 0 <= k < cur.0.len() implies component_step_fits(
            rules,
            values,
            targets,
            prefabs,
            #[trigger] cur.0[k],
        ) by {
            if k < prev.0.len() {
                assert(cur.0[k] == prev.0[k]);
            }
        }
        assert forall|a: int, b: int| 0 <= a < b < cur.0.len() implies step_position(
            #[trigger] cur.0[a],
        ) < step_position(#[trigger] cur.0[b]) by {
            assert(cur.0[a] == prev.0[a]);
            if b >= prev.0.len() {
                assert(component_step_fits(rules, init, targets, prefabs, prev.0[a]));
            } else {
                assert(cur.0[b] == prev.0[b]);
            }
        }
        if prev.2 is Some {
            let i = choose|i: int|
                0 <= i < init.len() && rule_component_outcome(rules, init[i].1, prefabs) == Err::<
                    ComponentAction,
                    ApplyError,
                >(prev.2->0) && (forall|j: int|
                    0 <= j < i ==> #[trigger] component_done(rules, init, targets, prefabs, prev.0, j));
            assert(init[i] == values[i]);
            assert forall|j: int| 0 <= j < i implies #[trigger] component_done(
                rules,
                values,
                targets,
                prefabs,
                cur.0,
                j,
            ) by {
                assert(component_done(rules, init, targets, prefabs, prev.0, j));
            }
        } else {
            assert forall|j: int| 0 <= j < n implies #[trigger] component_done(
                rules,
                values,
                targets,
                prefabs,
                cur.0,
                j,
            ) by {
                assert(component_done(rules, init, targets, prefabs, prev.0, j));
            }
            if cur.2 is None {
                assert(component_done(rules, values, targets, prefabs, cur.0, n));
            } else {
                assert(rule_component_outcome(rules, values[n].1, prefabs) == Err::<
                    ComponentAction,
                    ApplyError,
                >(cur.2->0));
            }
        }
    }
}

/// The resource pass does what the rules decide for each resource, in
/// order, and stops at the first one refused.
proof fn lemma_resource_decisions(rules: ApplyRules, resources: Seq<ReflectedValue>)
    requires
        resources.len() <= usize::MAX,
    ensures
        forall|k: int|
            0 <= k < resource_pass(rules, resources).0.len() ==> resource_step_fits(
                rules,
                resources,
                #[trigger] resource_pass(rules, resources).0[k],
            ),
        forall|a: int, b: int|
            0 <= a < b < resource_pass(rules, resources).0.len() ==> step_position(
                #[trigger] resource_pass(rules, resources).0[a],
            ) < step_position(#[trigger] resource_pass(rules, resources).0[b]),
        resource_pass(rules, resources).1 is None ==> forall|i: int|
            0 <= i < resources.len() ==> #[trigger] resource_done(
                rules,
                resources,
                resource_pass(rules, resources).0,
                i,
            ),
        resource_pass(rules, resources).1 is Some ==> exists|i: int|
            0 <= i < resources.len() && rule_resource_outcome(rules, resources[i]) == Err::<
                ResourceAction,
                ApplyError,
            >(resource_pass(rules, resources).1->0) && (forall|j: int|
                0 <= j < i ==> #[trigger] resource_done(
                    rules,
                    resources,
                    resource_pass(rules, resources).0,
                    j,
                )),
    decreases resources.len(),
{
    if resources.len() > 0 {
        let init = resources.drop_last();
        let n = resources.len() - 1;
        lemma_resource_decisions(rules, init);
        let prev = resource_pass(rules, init);
        let cur = resource_pass(rules, resources);
        assert forall|j: int| 0 <= j < n implies #[trigger] init[j] == resources[j] by {}
        assert forall|k: int| 0 <= k < prev.0.len() implies resource_step_fits(
            rules,
            resources,
            #[trigger] prev.0[k],
        ) by {
            assert(resource_step_fits(rules, init, prev.0[k]));
            match prev.0[k] {
                ApplyStep::InsertResource { index, .. } => {
                    assert(init[index as int] == resources[index as int]);
                },
                _ => {},
            }
        }
        let v = resources[n];
        assert(resources.last() == v);
        let x = ApplyStep::InsertResource {
            index: n as usize,
            map_entities: match rule_resource_outcome(rules, v) {
                Ok(ResourceAction::Insert { map_entities }) => map_entities,
                _ => false,
            },
        };
        let grows = prev.1 is None && (rule_resource_outcome(rules, v) is Ok)
            && !(rule_resource_outcome(rules, v) == Ok::<ResourceAction, ApplyError>(
            ResourceAction::Skip,
        ));
        if grows {
            assert(cur.0 == prev.0.push(x));
            lemma_push_contains(prev.0, x);
        } else {
            assert(cur.0 == prev.0);
        }
        assert forall|j: int| 0 <= j < n && #[trigger] resource_done(
            rules,
            init,
            prev.0,
            j,
        ) implies resource_done(rules, resources, cur.0, j) by {
            assert(init[j] == resources[j]);
        }
        assert forall|k: int| 0 <= k < cur.0.len() implies resource_step_fits(
            rules,
            resources,
            #[trigger] cur.0[k],
        ) by {
            if k < prev.0.len() {
                assert(cur.0[k] == prev.0[k]);
            }
        }
        assert forall|a: int, b: int| 0 <= a < b < cur.0.len() implies step_position(
            #[trigger] cur.0[a],
        ) < step_position(#[trigger] cur.0[b]) by {
            assert(cur.0[a] == prev.0[a]);
            if b >= prev.0.len() {
                assert(resource_step_fits(rules, init, prev.0[a]));
            } else {
                assert(cur.0[b] == prev.0[b]);
            }
        }
        if prev.1 is Some {
            let i = choose|i: int|
                0 <= i < init.len() && rule_resource_outcome(rules, init[i]) == Err::<
                    ResourceAction,
                    ApplyError,
                >(prev.1->0) && (forall|j: int|
                    0 <= j < i ==> #[trigger] resource_done(rules, init, prev.0, j));
            assert(init[i] == resources[i]);
            assert forall|j: int| 0 <= j < i implies #[trigger] resource_done(
                rules,
                resources,
                cur.0,
                j,
            ) by {
                assert(resource_done(rules, init, prev.0, j));
            }
        } else {
            assert forall|j: int| 0 <= j < n implies #[trigger] resource_done(
                rules,
                resources,
                cur.0,
                j,
            ) by {
                assert(resource_done(rules, init, prev.0, j));
            }
            if cur.1 is None {
                assert(resource_done(rules, resources, cur.0, n));
            } else {
                assert(rule_resource_outcome(rules, resources[n]) == Err::<
                    ResourceAction,
                    ApplyError,
                >(cur.1->0));
            }
        }
    }
}

/// Applying a snapshot does what the rules decide for each value, in order,
/// and stops at the first value refused: every component step is the
/// decision for the component it names, sent to the world entity of that
/// component's snapshot entity, and every resource step the decision for
/// its resource, each kind in order of position; it succeeds exactly when
/// no component and no resource is refused, and then it holds the decision
/// for every one of them; else its error is that of the first component
/// refused, or, where none is, of the first resource refused.
pub proof fn law_apply_decisions(
    rules: ApplyRules,
    values: Seq<(usize, ReflectedValue)>,
    targets: Seq<u64>,
    resources: Seq<ReflectedValue>,
    prefabs: Seq<TypeId>,
)
    requires
        values.len() <= usize::MAX,
        resources.len() <= usize::MAX,
    ensures
        ({
            let (steps, res) = apply_schedule(rules, values, targets, resources, prefabs);
            &&& forall|k: int|
                0 <= k < steps.len() ==> (is_component_step(#[trigger] steps[k])
                    ==> component_step_fits(rules, values, targets, prefabs, steps[k])) && (
                steps[k] is InsertResource ==> resource_step_fits(rules, resources, steps[k]))
            &&& forall|a: int, b: int|
                0 <= a < b < steps.len() && is_component_step(#[trigger] steps[a])
                    && is_component_step(#[trigger] steps[b]) ==> step_position(steps[a])
                    < step_position(steps[b])
            &&& forall|a: int, b: int|
                0 <= a < b < steps.len() && (#[trigger] steps[a]) is InsertResource && (
                #[trigger] steps[b]) is InsertResource ==> step_position(steps[a])
                    < step_position(steps[b])
            &&& res is Ok <==> (forall|i: int|
                0 <= i < values.len() ==> (#[trigger] rule_component_outcome(
                    rules,
                    values[i].1,
                    prefabs,
                )) is Ok) && (forall|i: int|
                0 <= i < resources.len() ==> (#[trigger] rule_resource_outcome(
                    rules,
                    resources[i],
                )) is Ok)
            &&& res is Ok ==> (forall|i: int|
                0 <= i < values.len() ==> #[trigger] component_done(
                    rules,
                    values,
                    targets,
                    prefabs,
                    steps,
                    i,
                )) && (forall|i: int|
                0 <= i < resources.len() ==> #[trigger] resource_done(
                    rules,
                    resources,
                    steps,
                    i,
                ))
            &&& match res {
                Ok(_) => true,
                Err(e) => (exists|i: int|
                    0 <= i < values.len() && rule_component_outcome(rules, values[i].1, prefabs)
                        == Err::<ComponentAction, ApplyError>(e) && forall|j: int|
                        0 <= j < i ==> (#[trigger] rule_component_outcome(
                            rules,
                            values[j].1,
                            prefabs,
                        )) is Ok) || ((forall|i: int|
                    0 <= i < values.len() ==> (#[trigger] rule_component_outcome(
                        rules,
                        values[i].1,
                        prefabs,
                    )) is Ok) && exists|i: int|
                    0 <= i < resources.len() && rule_resource_outcome(rules, resources[i]) == Err::<
                        ResourceAction,
                        ApplyError,
                    >(e) && forall|j: int|
                        0 <= j < i ==> (#[trigger] rule_resource_outcome(rules, resources[j])) is Ok),
            }
        }),
{
    let c = component_pass(rules, values, targets, prefabs);
    let r = resource_pass(rules, resources);
    let kept = c.1;
    let g = spawns_grouped(kept, prefab_types(kept));
    let h = hook_steps(targets);
    let (steps, res) = apply_schedule(rules, values, targets, resources, prefabs);
    lemma_component_decisions(rules, values, targets, prefabs);
    lemma_resource_decisions(rules, resources);
    lemma_spawns(kept);
    let cn = c.0.len() as int;
    let rn = r.0.len() as int;
    assert forall|k: int| 0 <= k < cn implies #[trigger] steps[k] == c.0[k] by {}
    assert forall|k: int| cn <= k < cn + rn && k < steps.len() implies #[trigger] steps[k] == r.0[k
        - cn] by {}
    assert forall|k: int| cn + rn <= k < steps.len() implies !is_component_step(#[trigger] steps[k])
        && !(steps[k] is InsertResource) by {
        assert(steps == c.0 + r.0 + g + h);
        if k < cn + rn + g.len() {
            assert(steps[k] == g[k - cn - rn]);
            assert(g.contains(g[k - cn - rn]));
        } else {
            assert(steps[k] == h[k - cn - rn - g.len()]);
        }
    }
    assert forall|k: int| cn <= k < cn + rn && k < steps.len() implies !is_component_step(
        #[trigger] steps[k],
    ) by {
        assert(resource_step_fits(rules, resources, r.0[k - cn]));
    }
    assert forall|k: int| 0 <= k < cn implies !((#[trigger] steps[k]) is InsertResource) by {
        assert(component_step_fits(rules, values, targets, prefabs, c.0[k]));
    }
    // A step held by a pass is held by the whole plan.
    if res is Ok {
        assert(steps == c.0 + r.0 + g + h);
        assert forall|i: int| 0 <= i < values.len() implies #[trigger] component_done(
            rules,
            values,
            targets,
            prefabs,
            steps,
            i,
        ) by {
            assert(component_done(rules, values, targets, prefabs, c.0, i));
            match rule_component_outcome(rules, values[i].1, prefabs) {
                Ok(ComponentAction::Skip) => {},
                Err(_) => {},
                _ => {
                    let w = choose|w: int|
                        0 <= w < c.0.len() && c.0[w] == match rule_component_outcome(
                            rules,
                            values[i].1,
                            prefabs,
                        ) {
                            Ok(ComponentAction::Insert { map_entities }) => ApplyStep::InsertComponent {
                                value: i as usize,
                                target: targets[values[i].0 as int],
                                map_entities,
                            },
                            Ok(ComponentAction::Prefab { map_entities }) => ApplyStep::KeepPrefab {
                                value: i as usize,
                                target: targets[values[i].0 as int],
                                map_entities,
                            },
                            _ => c.0[0],
                        };
                    assert(steps[w] == c.0[w]);
                },
            }
        }
        assert forall|i: int| 0 <= i < resources.len() implies #[trigger] resource_done(
            rules,
            resources,
            steps,
            i,
        ) by {
            assert(resource_done(rules, resources, r.0, i));
            match rule_resource_outcome(rules, resources[i]) {
                Ok(ResourceAction::Insert { map_entities }) => {
                    let w = choose|w: int|
                        0 <= w < r.0.len() && r.0[w] == ApplyStep::InsertResource {
                            index: i as usize,
                            map_entities,
                        };
                    assert(steps[cn + w] == r.0[w]);
                },
                _ => {},
            }
        }
    }
    if c.2 is None {
        assert forall|i: int| 0 <= i < values.len() implies (#[trigger] rule_component_outcome(
            rules,
            values[i].1,
            prefabs,
        )) is Ok by {
            assert(component_done(rules, values, targets, prefabs, c.0, i));
        }
    }
    if r.1 is None {
        assert forall|i: int| 0 <= i < resources.len() implies (#[trigger] rule_resource_outcome(
            rules,
            resources[i],
        )) is Ok by {
            assert(resource_done(rules, resources, r.0, i));
        }
    }
    if c.2 is Some {
        let i = choose|i: int|
            0 <= i < values.len() && rule_component_outcome(rules, values[i].1, prefabs) == Err::<
                ComponentAction,
                ApplyError,
            >(c.2->0) && (forall|j: int|
                0 <= j < i ==> #[trigger] component_done(rules, values, targets, prefabs, c.0, j));
        assert forall|j: int| 0 <= j < i implies (#[trigger] rule_component_outcome(
            rules,
            values[j].1,
            prefabs,
        )) is Ok by {
            assert(component_done(rules, values, targets, prefabs, c.0, j));
        }
    } else if r.1 is Some {
        let i = choose|i: int|
            0 <= i < resources.len() && rule_resource_outcome(rules, resources[i]) == Err::<
                ResourceAction,
                ApplyError,
            >(r.1->0) && (forall|j: int|
                0 <= j < i ==> #[trigger] resource_done(rules, resources, r.0, j));
        assert forall|j: int| 0 <= j < i implies (#[trigger] rule_resource_outcome(
            rules,
            resources[j],
        )) is Ok by {
            assert(resource_done(rules, resources, r.0, j));
        }
    }
}

/// The resource pass yields only resource inserts.
proof fn lemma_resource_pass(rules: ApplyRules, values: Seq<ReflectedValue>)
    ensures
        forall|k: int|
            0 <= k < resource_pass(rules, values).0.len() ==> (#[trigger] resource_pass(
                rules,
                values,
            ).0[k]) is InsertResource,
    decreases values.len(),
{
    if values.len() > 0 {
        lemma_resource_pass(rules, values.drop_last());
        let prev = resource_pass(rules, values.drop_last());
        let cur = resource_pass(rules, values);
        assert forall|k: int| 0 <= k < cur.0.len() implies (#[trigger] cur.0[k]) is InsertResource by {
            if k < prev.0.len() {
                assert(cur.0[k] == prev.0[k]);
            }
        }
    }
}

} // verus!
