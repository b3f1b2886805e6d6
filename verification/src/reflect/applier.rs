//! What applying a snapshot does with each reflected value: the checks
//! against the type registry, in the order they are made, and the action
//! that follows for the value or the error that stops the application.

use std::any::TypeId;

use vstd::prelude::*;

use crate::registry::list_contains;

verus! {

/// The type data a registration carries, as far as applying reads it.
#[derive(Clone, Copy, Debug, PartialEq, Eq, Structural)]
pub struct RegisteredData {
    /// The type is registered as ignored (`ReflectIgnore`).
    pub ignored: bool,
    /// The type is the target side of a relationship.
    pub relationship_target: bool,
    /// The type can map the entities it refers to (`ReflectMapEntities`).
    pub map_entities: bool,
    /// The type is a reflected component (`ReflectComponent`).
    pub component: bool,
    /// The component is registered with a clone behaviour that ignores it.
    pub clone_ignored: bool,
    /// The type is a reflected resource (`ReflectResource`).
    pub resource: bool,
}

/// The type a reflected value represents.
#[derive(Debug)]
pub struct RepresentedType {
    /// Its type path.
    pub type_path: String,
    /// Its type id.
    pub type_id: TypeId,
    /// Its registration, if the registry holds one.
    pub registration: Option<RegisteredData>,
}

/// What applying reads of one reflected value of a snapshot.
#[derive(Debug)]
pub struct ReflectedValue {
    /// The type path of the value itself.
    pub reflect_type_path: String,
    /// The type it represents, if it has type information.
    pub represented: Option<RepresentedType>,
}

/// The kinds of error that stop applying a snapshot.
#[derive(Clone, Copy, Debug, PartialEq, Eq, Structural)]
pub enum ApplyErrorKind {
    /// The value represents no type.
    NoRepresentedType,
    /// The value's type is reflected but not registered.
    UnregisteredButReflectedType,
    /// The value's type is not registered as a component.
    UnregisteredComponent,
    /// The value's type is not registered as a resource.
    UnregisteredResource,
    /// No type is registered under the value's type path.
    UnregisteredType,
}

/// An error that stops applying a snapshot, with the type path it is about.
#[derive(Debug)]
pub struct ApplyError {
    /// What went wrong.
    pub kind: ApplyErrorKind,
    /// The type path of the value concerned.
    pub type_path: String,
}

/// What happens to a component of a snapshot entity.
#[derive(Clone, Copy, Debug, PartialEq, Eq, Structural)]
pub enum ComponentAction {
    /// The component is left out.
    Skip,
    /// The component is kept for its prefab's spawn hook, its entities
    /// mapped first if `map_entities` holds.
    Prefab { map_entities: bool },
    /// The component is inserted into the entity, its entities mapped first
    /// if `map_entities` holds.
    Insert { map_entities: bool },
}

/// What happens to a resource of a snapshot.
#[derive(Clone, Copy, Debug, PartialEq, Eq, Structural)]
pub enum ResourceAction {
    /// The resource is left out.
    Skip,
    /// The resource is applied or inserted, its entities mapped first if
    /// `map_entities` holds.
    Insert { map_entities: bool },
}

/// The error of kind `kind` about `type_path`.
pub open spec fn apply_error(kind: ApplyErrorKind, type_path: String) -> ApplyError {
    ApplyError { kind, type_path }
}

/// What applying does with a component: it needs a represented type and a
/// registration; an ignored type or a relationship target is skipped; a
/// prefab type is kept for its hook; any other type must be a reflected
/// component, which is skipped if its clone behaviour ignores it and
/// inserted otherwise.
pub open spec fn component_outcome(value: ReflectedValue, prefabs: Seq<TypeId>) -> Result<
    ComponentAction,
    ApplyError,
> {
    match value.represented {
        None => Err(apply_error(ApplyErrorKind::NoRepresentedType, value.reflect_type_path)),
        Some(t) => match t.registration {
            None => Err(apply_error(ApplyErrorKind::UnregisteredButReflectedType, t.type_path)),
            Some(d) => if d.ignored || d.relationship_target {
                Ok(ComponentAction::Skip)
            } else if prefabs.contains(t.type_id) {
                Ok(ComponentAction::Prefab { map_entities: d.map_entities })
            } else if !d.component {
                Err(apply_error(ApplyErrorKind::UnregisteredComponent, t.type_path))
            } else if d.clone_ignored {
                Ok(ComponentAction::Skip)
            } else {
                Ok(ComponentAction::Insert { map_entities: d.map_entities })
            },
        },
    }
}

/// What applying does with a resource: it needs a represented type and a
/// registration; an ignored type or a relationship target is skipped; any
/// other type must be a reflected resource, which is applied or inserted.
pub open spec fn resource_outcome(value: ReflectedValue) -> Result<ResourceAction, ApplyError> {
    match value.represented {
        None => Err(apply_error(ApplyErrorKind::NoRepresentedType, value.reflect_type_path)),
        Some(t) => match t.registration {
            None => Err(apply_error(ApplyErrorKind::UnregisteredButReflectedType, t.type_path)),
            Some(d) => if d.ignored || d.relationship_target {
                Ok(ResourceAction::Skip)
            } else if !d.resource {
                Err(apply_error(ApplyErrorKind::UnregisteredResource, t.type_path))
            } else {
                Ok(ResourceAction::Insert { map_entities: d.map_entities })
            },
        },
    }
}

/// Decides what applying does with a component of a snapshot entity, given
/// the types that have a prefab hook.
pub fn decide_component(value: &ReflectedValue, prefabs: &Vec<TypeId>) -> (r: Result<
    ComponentAction,
    ApplyError,
>)
    ensures
        r == component_outcome(*value, prefabs@),
        match value.represented {
            Some(t) => match t.registration {
                Some(d) => !d.ignored && !d.relationship_target ==> if prefabs@.contains(
                    t.type_id,
                ) {
                    r == Ok::<ComponentAction, ApplyError>(
                        ComponentAction::Prefab { map_entities: d.map_entities },
                    )
                } else if d.component && !d.clone_ignored {
                    r == Ok::<ComponentAction, ApplyError>(
                        ComponentAction::Insert { map_entities: d.map_entities },
                    )
                } else {
                    true
                },
                None => true,
            },
            None => true,
        },
{
    match &value.represented {
        None => Err(
            ApplyError {
                kind: ApplyErrorKind::NoRepresentedType,
                type_path: value.reflect_type_path.clone(),
            },
        ),
        Some(t) => match t.registration {
            None => Err(
                ApplyError {
                    kind: ApplyErrorKind::UnregisteredButReflectedType,
                    type_path: t.type_path.clone(),
                },
            ),
            Some(d) => {
                if d.ignored || d.relationship_target {
                    Ok(ComponentAction::Skip)
                } else if list_contains(prefabs, &t.type_id) {
                    Ok(ComponentAction::Prefab { map_entities: d.map_entities })
                } else if !d.component {
                    Err(
                        ApplyError {
                            kind: ApplyErrorKind::UnregisteredComponent,
                            type_path: t.type_path.clone(),
                        },
                    )
                } else if d.clone_ignored {
                    Ok(ComponentAction::Skip)
                } else {
                    Ok(ComponentAction::Insert { map_entities: d.map_entities })
                }
            },
        },
    }
}

/// Decides what applying does with a resource of a snapshot.
pub fn decide_resource(value: &ReflectedValue) -> (r: Result<ResourceAction, ApplyError>)
    ensures
        r == resource_outcome(*value),
        match value.represented {
            Some(t) => match t.registration {
                Some(d) => !d.ignored && !d.relationship_target && d.resource ==> r == Ok::<
                    ResourceAction,
                    ApplyError,
                >(ResourceAction::Insert { map_entities: d.map_entities }),
                None => true,
            },
            None => true,
        },
{
    match &value.represented {
        None => Err(
            ApplyError {
                kind: ApplyErrorKind::NoRepresentedType,
                type_path: value.reflect_type_path.clone(),
            },
        ),
        Some(t) => match t.registration {
            None => Err(
                ApplyError {
                    kind: ApplyErrorKind::UnregisteredButReflectedType,
                    type_path: t.type_path.clone(),
                },
            ),
            Some(d) => {
                if d.ignored || d.relationship_target {
                    Ok(ResourceAction::Skip)
                } else if !d.resource {
                    Err(
                        ApplyError {
                            kind: ApplyErrorKind::UnregisteredResource,
                            type_path: t.type_path.clone(),
                        },
                    )
                } else {
                    Ok(ResourceAction::Insert { map_entities: d.map_entities })
                }
            },
        },
    }
}

/// A type registered as ignored, or as the target side of a relationship,
/// is never applied: its components and its resources are skipped whatever
/// else its registration holds.
pub proof fn law_ignored_types_never_applied(value: ReflectedValue, prefabs: Seq<TypeId>)
    requires
        value.represented matches Some(t) && t.registration matches Some(d) && (d.ignored
            || d.relationship_target),
    ensures
        component_outcome(value, prefabs) == Ok::<ComponentAction, ApplyError>(
            ComponentAction::Skip,
        ),
        resource_outcome(value) == Ok::<ResourceAction, ApplyError>(ResourceAction::Skip),
{
}

/// A value whose type is registered, not ignored and not a relationship
/// target is applied with the entity mapping its registration asks for: a
/// resource is applied with its entities mapped exactly when the type can
/// map entities, and so is a component inserted or kept for its prefab.
pub proof fn law_registered_values_map_as_registered(value: ReflectedValue, prefabs: Seq<TypeId>)
    requires
        value.represented matches Some(t) && t.registration matches Some(d) && !d.ignored
            && !d.relationship_target,
    ensures
        ({
            let t = value.represented->0;
            let d = t.registration->0;
            &&& d.resource ==> resource_outcome(value) == Ok::<ResourceAction, ApplyError>(
                ResourceAction::Insert { map_entities: d.map_entities },
            )
            &&& !d.resource ==> resource_outcome(value) is Err
            &&& prefabs.contains(t.type_id) ==> component_outcome(value, prefabs) == Ok::<
                ComponentAction,
                ApplyError,
            >(ComponentAction::Prefab { map_entities: d.map_entities })
            &&& !prefabs.contains(t.type_id) && d.component && !d.clone_ignored
                ==> component_outcome(value, prefabs) == Ok::<ComponentAction, ApplyError>(
                ComponentAction::Insert { map_entities: d.map_entities },
            )
        }),
{
}

} // verus!
