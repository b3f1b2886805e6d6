//! Checkpoint utilities: which types checkpoints include.

use std::any::TypeId;

use vstd::prelude::*;

use crate::registry::{
    FilterKind,
    TypeFilter,
    after_allow,
    after_deny,
    type_id_of,
    type_key,
};

verus! {

/// Type data that keeps a type out of checkpoints.
#[derive(Clone, Copy, Debug, Default)]
pub struct ReflectIgnoreCheckpoint;

/// The registry of types that should be included in checkpoints.
///
/// Only types that are allowed here are included in checkpoints.
#[derive(Debug, Default)]
pub struct CheckpointRegistry {
    types: TypeFilter,
}

impl CheckpointRegistry {
    /// The filter the registry applies.
    pub closed spec fn filter(&self) -> TypeFilter {
        self.types
    }

    /// A registry with no filter set: every type is checkpointed.
    pub fn new() -> (r: CheckpointRegistry)
        ensures
            r.filter().kind() == FilterKind::Unset,
    {
        CheckpointRegistry { types: TypeFilter::Unset }
    }

    /// Allow all types to be included in checkpoints.
    pub fn allow_all(&mut self)
        ensures
            forall|id: TypeId| final(self).filter().allows(id),
    {
        self.types = TypeFilter::allow_all();
    }

    /// Deny all types from being included in checkpoints.
    pub fn deny_all(&mut self)
        ensures
            forall|id: TypeId| !final(self).filter().allows(id),
    {
        self.types = TypeFilter::deny_all();
    }

    /// Include a type in checkpoints.
    pub fn allow_id(&mut self, type_id: TypeId)
        ensures
            (final(self).filter().kind(), final(self).filter().ids()) == after_allow(
                old(self).filter().kind(),
                old(self).filter().ids(),
                type_id,
            ),
            final(self).filter().allows(type_id),
    {
        let mut types = TypeFilter::Unset;
        std::mem::swap(&mut types, &mut self.types);
        self.types = types.allow_by_id(type_id);
    }

    /// Exclude a type from checkpoints.
    ///
    /// The type is still included in normal snapshots.
    pub fn deny_id(&mut self, type_id: TypeId)
        ensures
            (final(self).filter().kind(), final(self).filter().ids()) == after_deny(
                old(self).filter().kind(),
                old(self).filter().ids(),
                type_id,
            ),
            !final(self).filter().allows(type_id),
    {
        let mut types = TypeFilter::Unset;
        std::mem::swap(&mut types, &mut self.types);
        self.types = types.deny_by_id(type_id);
    }

    /// Include a type `T` in checkpoints.
    pub fn allow<T: ?Sized + 'static>(&mut self)
        ensures
            (final(self).filter().kind(), final(self).filter().ids()) == after_allow(
                old(self).filter().kind(),
                old(self).filter().ids(),
                type_key::<T>(),
            ),
            final(self).filter().allows(type_key::<T>()),
    {
        self.allow_id(type_id_of::<T>());
    }

    /// Exclude a type `T` from checkpoints.
    ///
    /// The type is still included in normal snapshots.
    pub fn deny<T: ?Sized + 'static>(&mut self)
        ensures
            (final(self).filter().kind(), final(self).filter().ids()) == after_deny(
                old(self).filter().kind(),
                old(self).filter().ids(),
                type_key::<T>(),
            ),
            !final(self).filter().allows(type_key::<T>()),
    {
        self.deny_id(type_id_of::<T>());
    }

    /// Check if a type is allowed to be included in checkpoints.
    pub fn is_allowed<T: ?Sized + 'static>(&self) -> (r: bool)
        ensures
            r == self.filter().allows(type_key::<T>()),
    {
        self.types.is_allowed_by_id(type_id_of::<T>())
    }

    /// Check if a type is allowed to be included in checkpoints by id.
    pub fn is_allowed_by_id(&self, type_id: TypeId) -> (r: bool)
        ensures
            r == self.filter().allows(type_id),
    {
        self.types.is_allowed_by_id(type_id)
    }

    /// Check if a type is denied from being included in checkpoints.
    pub fn is_denied<T: ?Sized + 'static>(&self) -> (r: bool)
        ensures
            r == !self.filter().allows(type_key::<T>()),
    {
        self.types.is_denied_by_id(type_id_of::<T>())
    }

    /// Check if a type is denied from being included in checkpoints by id.
    pub fn is_denied_by_id(&self, type_id: TypeId) -> (r: bool)
        ensures
            r == !self.filter().allows(type_id),
    {
        self.types.is_denied_by_id(type_id)
    }
}

} // verus!
