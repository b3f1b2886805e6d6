//! Type data for relationship components: each side knows the type of the
//! other.

use std::any::TypeId;

use vstd::prelude::*;

verus! {

/// Type data for relationship components: the type of the associated
/// relationship target.
#[derive(Clone, Copy, Debug)]
pub struct ReflectRelationship {
    target: TypeId,
}

impl ReflectRelationship {
    /// The type data of a relationship whose target has type id `target`.
    pub fn new(target: TypeId) -> (r: ReflectRelationship)
        ensures
            r.target_spec() == target,
    {
        ReflectRelationship { target }
    }

    /// The type id of the associated relationship target.
    pub closed spec fn target_spec(&self) -> TypeId {
        self.target
    }

    /// Returns the [`TypeId`] of the associated relationship target.
    pub fn target(&self) -> (r: TypeId)
        ensures
            r == self.target_spec(),
    {
        self.target
    }
}

/// Type data for relationship target components: the type of the
/// associated relationship.
#[derive(Clone, Copy, Debug)]
pub struct ReflectRelationshipTarget {
    relationship: TypeId,
}

impl ReflectRelationshipTarget {
    /// The type data of a relationship target whose relationship has type
    /// id `relationship`.
    pub fn new(relationship: TypeId) -> (r: ReflectRelationshipTarget)
        ensures
            r.relationship_spec() == relationship,
    {
        ReflectRelationshipTarget { relationship }
    }

    /// The type id of the associated relationship.
    pub closed spec fn relationship_spec(&self) -> TypeId {
        self.relationship
    }

    /// Returns the [`TypeId`] of the associated relationship.
    pub fn relationship(&self) -> (r: TypeId)
        ensures
            r == self.relationship_spec(),
    {
        self.relationship
    }
}

} // verus!
