//! Type filters: which types a snapshot, rollback or checkpoint includes.

use std::any::TypeId;

use vstd::prelude::*;

verus! {

/// `std::any::TypeId`: an opaque identifier of a type.
#[verifier::external_type_specification]
#[verifier::external_body]
pub struct ExTypeId(TypeId);

/// Compares two type ids with `TypeId`'s `==`.
///
/// Claims: the comparison is equality of the ids.
#[verifier::external_body]
pub(crate) fn type_id_eq(a: &TypeId, b: &TypeId) -> (r: bool)
    ensures
        r == (*a == *b),
{
    *a == *b
}

/// The id of type `T`: one fixed id for each type, of which nothing more
/// is known.
pub open spec fn type_key<T: ?Sized + 'static>() -> TypeId {
    vstd::pervasive::arbitrary::<(TypeId, core::marker::PhantomData<T>)>().0
}

/// The id of `T`, from `TypeId::of`.
///
/// Claims: every call for the same `T` gives the same id, `type_key::<T>()`
/// (`TypeId::of` identifies the type). Which id that is, and that two types
/// have different ids, is not claimed.
#[verifier::external_body]
pub(crate) fn type_id_of<T: ?Sized + 'static>() -> (r: TypeId)
    ensures
        r == type_key::<T>(),
{
    TypeId::of::<T>()
}

/// The three states of a [`TypeFilter`].
#[derive(Clone, Copy, Debug, PartialEq, Eq, Structural)]
pub enum FilterKind {
    /// No filter has been set: every type is allowed.
    Unset,
    /// Only the listed types are allowed.
    Allowlist,
    /// Every type but the listed ones is allowed.
    Denylist,
}

/// A filter of types, with the semantics of a scene filter: unset (all
/// types allowed), an allowlist, or a denylist.
#[derive(Debug)]
pub enum TypeFilter {
    /// No filter has been set: every type is allowed.
    Unset,
    /// Only the listed types are allowed.
    Allowlist(Vec<TypeId>),
    /// Every type but the listed ones is allowed.
    Denylist(Vec<TypeId>),
}

/// Whether a filter in state `kind` listing `ids` allows `id`.
pub open spec fn filter_allows(kind: FilterKind, ids: Set<TypeId>, id: TypeId) -> bool {
    match kind {
        FilterKind::Unset => true,
        FilterKind::Allowlist => ids.contains(id),
        FilterKind::Denylist => !ids.contains(id),
    }
}

/// The filter state after allowing `id`: an unset filter becomes an
/// allowlist of `id` alone; an allowlist gains `id`; a denylist loses it.
pub open spec fn after_allow(kind: FilterKind, ids: Set<TypeId>, id: TypeId) -> (
    FilterKind,
    Set<TypeId>,
) {
    match kind {
        FilterKind::Unset => (FilterKind::Allowlist, Set::empty().insert(id)),
        FilterKind::Allowlist => (FilterKind::Allowlist, ids.insert(id)),
        FilterKind::Denylist => (FilterKind::Denylist, ids.remove(id)),
    }
}

/// The filter state after denying `id`: an unset filter becomes a denylist
/// of `id` alone; an allowlist loses `id`; a denylist gains it.
pub open spec fn after_deny(kind: FilterKind, ids: Set<TypeId>, id: TypeId) -> (
    FilterKind,
    Set<TypeId>,
) {
    match kind {
        FilterKind::Unset => (FilterKind::Denylist, Set::empty().insert(id)),
        FilterKind::Allowlist => (FilterKind::Allowlist, ids.remove(id)),
        FilterKind::Denylist => (FilterKind::Denylist, ids.insert(id)),
    }
}

/// Whether `ids` lists `id`.
pub(crate) fn list_contains(ids: &Vec<TypeId>, id: &TypeId) -> (r: bool)
    ensures
        r == ids@.contains(*id),
{
    let mut i: usize = 0;
    while i < ids.len()
        invariant
            i <= ids@.len(),
            forall|j: int| 0 <= j < i ==> ids@[j] != *id,
        decreases ids@.len() - i,
    {
        if type_id_eq(&ids[i], id) {
            return true;
        }
        i = i + 1;
    }
    false
}

/// `ids` with `id` added, unless it is listed already.
fn list_insert(ids: Vec<TypeId>, id: TypeId) -> (r: Vec<TypeId>)
    ensures
        r@.to_set() == ids@.to_set().insert(id),
{
    let mut ids = ids;
    if !list_contains(&ids, &id) {
        let ghost before = ids@;
        ids.push(id);
        proof {
            assert(ids@.to_set() =~= before.to_set().insert(id)) by {
                assert forall|x: TypeId| #[trigger] ids@.to_set().contains(x) == before.to_set().insert(id).contains(x) by {
                    if ids@.contains(x) && x != id {
                        let k = choose|k: int| 0 <= k < ids@.len() && ids@[k] == x;
                        assert(before[k] == x);
                    }
                    if before.contains(x) {
                        let k = choose|k: int| 0 <= k < before.len() && before[k] == x;
                        assert(ids@[k] == x);
                    }
                    if x == id {
                        assert(ids@[before.len() as int] == id);
                    }
                }
            }
        }
    } else {
        proof {
            assert(ids@.to_set() =~= ids@.to_set().insert(id));
        }
    }
    ids
}

/// `ids` without any entry equal to `id`.
fn list_remove(ids: Vec<TypeId>, id: &TypeId) -> (r: Vec<TypeId>)
    ensures
        r@.to_set() == ids@.to_set().remove(*id),
{
    let mut kept: Vec<TypeId> = Vec::new();
    let mut i: usize = 0;
    while i < ids.len()
        invariant
            i <= ids@.len(),
            forall|x: TypeId| #[trigger] kept@.contains(x) <==> (x != *id && ids@.take(i as int).contains(x)),
        decreases ids@.len() - i,
    {
        let ghost before = kept@;
        if !type_id_eq(&ids[i], id) {
            kept.push(ids[i]);
        }
        i = i + 1;
        proof {
            assert(ids@.take(i as int) =~= ids@.take(i - 1).push(ids@[i - 1]));
            assert forall|x: TypeId| #[trigger] kept@.contains(x) <==> (x != *id && ids@.take(
                i as int,
            ).contains(x)) by {
                if kept@.contains(x) {
                    let k = choose|k: int| 0 <= k < kept@.len() && kept@[k] == x;
                    if k < before.len() {
                        assert(before[k] == x);
                        assert(before.contains(x));
                        let m = choose|m: int| 0 <= m < i - 1 && #[trigger] ids@.take(i - 1)[m] == x;
                        assert(ids@.take(i as int)[m] == x);
                    } else {
                        assert(x == ids@[i - 1]);
                        assert(ids@.take(i as int)[i - 1] == x);
                    }
                }
                if x != *id && ids@.take(i as int).contains(x) {
                    let m = choose|m: int| 0 <= m < i && #[trigger] ids@.take(i as int)[m] == x;
                    if m < i - 1 {
                        assert(ids@.take(i - 1)[m] == x);
                        assert(ids@.take(i - 1).contains(x));
                        assert(before.contains(x));
                        let k = choose|k: int| 0 <= k < before.len() && before[k] == x;
                        assert(kept@[k] == x);
                    } else {
                        assert(x == ids@[i - 1]);
                        assert(kept@[before.len() as int] == x);
                    }
                }
            }
        }
    }
    proof {
        assert(ids@.take(ids@.len() as int) =~= ids@);
        assert(kept@.to_set() =~= ids@.to_set().remove(*id));
    }
    kept
}

impl TypeFilter {
    /// The state of the filter.
    pub open spec fn kind(&self) -> FilterKind {
        match self {
            TypeFilter::Unset => FilterKind::Unset,
            TypeFilter::Allowlist(_) => FilterKind::Allowlist,
            TypeFilter::Denylist(_) => FilterKind::Denylist,
        }
    }

    /// The listed types (none when unset).
    pub open spec fn ids(&self) -> Set<TypeId> {
        match self {
            TypeFilter::Unset => Set::empty(),
            TypeFilter::Allowlist(l) => l@.to_set(),
            TypeFilter::Denylist(l) => l@.to_set(),
        }
    }

    /// Whether the filter allows `id`.
    pub open spec fn allows(&self, id: TypeId) -> bool {
        filter_allows(self.kind(), self.ids(), id)
    }

    /// An unset filter: every type is allowed.
    pub fn unset() -> (r: TypeFilter)
        ensures
            r.kind() == FilterKind::Unset,
            forall|id: TypeId| r.allows(id),
    {
        TypeFilter::Unset
    }

    /// Creates a filter where all types are allowed: an empty denylist.
    pub fn allow_all() -> (r: TypeFilter)
        ensures
            r.kind() == FilterKind::Denylist,
            r.ids() == Set::<TypeId>::empty(),
            forall|id: TypeId| r.allows(id),
    {
        let r = TypeFilter::Denylist(Vec::new());
        assert(r.ids() =~= Set::<TypeId>::empty());
        r
    }

    /// Creates a filter where all types are denied: an empty allowlist.
    pub fn deny_all() -> (r: TypeFilter)
        ensures
            r.kind() == FilterKind::Allowlist,
            r.ids() == Set::<TypeId>::empty(),
            forall|id: TypeId| !r.allows(id),
    {
        let r = TypeFilter::Allowlist(Vec::new());
        assert(r.ids() =~= Set::<TypeId>::empty());
        r
    }

    /// Allows the given type: removes it from a denylist, adds it to an
    /// allowlist, and replaces an unset filter by an allowlist of it alone.
    pub fn allow_by_id(self, type_id: TypeId) -> (r: TypeFilter)
        ensures
            (r.kind(), r.ids()) == after_allow(self.kind(), self.ids(), type_id),
            r.allows(type_id),
    {
        match self {
            TypeFilter::Unset => {
                let mut l: Vec<TypeId> = Vec::new();
                l.push(type_id);
                let r = TypeFilter::Allowlist(l);
                proof {
                    assert(l@ =~= seq![type_id]);
                    assert(r.ids() =~= Set::<TypeId>::empty().insert(type_id)) by {
                        assert forall|x: TypeId| #[trigger] r.ids().contains(x) == (x == type_id) by {
                            if x == type_id {
                                assert(l@[0] == x);
                            }
                        }
                    }
                }
                r
            },
            TypeFilter::Allowlist(l) => TypeFilter::Allowlist(list_insert(l, type_id)),
            TypeFilter::Denylist(l) => TypeFilter::Denylist(list_remove(l, &type_id)),
        }
    }

    /// Denies the given type: removes it from an allowlist, adds it to a
    /// denylist, and replaces an unset filter by a denylist of it alone.
    pub fn deny_by_id(self, type_id: TypeId) -> (r: TypeFilter)
        ensures
            (r.kind(), r.ids()) == after_deny(self.kind(), self.ids(), type_id),
            !r.allows(type_id),
    {
        match self {
            TypeFilter::Unset => {
                let mut l: Vec<TypeId> = Vec::new();
                l.push(type_id);
                let r = TypeFilter::Denylist(l);
                proof {
                    assert(l@ =~= seq![type_id]);
                    assert(r.ids() =~= Set::<TypeId>::empty().insert(type_id)) by {
                        assert forall|x: TypeId| #[trigger] r.ids().contains(x) == (x == type_id) by {
                            if x == type_id {
                                assert(l@[0] == x);
                            }
                        }
                    }
                }
                r
            },
            TypeFilter::Allowlist(l) => TypeFilter::Allowlist(list_remove(l, &type_id)),
            TypeFilter::Denylist(l) => TypeFilter::Denylist(list_insert(l, type_id)),
        }
    }

    /// Allows the type `T`.
    pub fn allow<T: ?Sized + 'static>(self) -> (r: TypeFilter)
        ensures
            (r.kind(), r.ids()) == after_allow(self.kind(), self.ids(), type_key::<T>()),
            r.allows(type_key::<T>()),
    {
        let id = type_id_of::<T>();
        self.allow_by_id(id)
    }

    /// Denies the type `T`.
    pub fn deny<T: ?Sized + 'static>(self) -> (r: TypeFilter)
        ensures
            (r.kind(), r.ids()) == after_deny(self.kind(), self.ids(), type_key::<T>()),
            !r.allows(type_key::<T>()),
    {
        let id = type_id_of::<T>();
        self.deny_by_id(id)
    }

    /// Returns true if the given type is allowed by the filter.
    pub fn is_allowed_by_id(&self, type_id: TypeId) -> (r: bool)
        ensures
            r == self.allows(type_id),
    {
        match self {
            TypeFilter::Unset => true,
            TypeFilter::Allowlist(l) => list_contains(l, &type_id),
            TypeFilter::Denylist(l) => !list_contains(l, &type_id),
        }
    }

    /// Returns true if the given type is denied by the filter.
    pub fn is_denied_by_id(&self, type_id: TypeId) -> (r: bool)
        ensures
            r == !self.allows(type_id),
    {
        !self.is_allowed_by_id(type_id)
    }
}

impl Default for TypeFilter {
    fn default() -> (r: Self)
        ensures
            r.kind() == FilterKind::Unset,
    {
        TypeFilter::Unset
    }
}

/// The registry of types that should be included in rollbacks.
///
/// Only types that are allowed here are included in rollbacks.
#[derive(Debug, Default)]
pub struct RollbackRegistry {
    types: TypeFilter,
}

impl RollbackRegistry {
    /// The filter the registry applies.
    pub closed spec fn filter(&self) -> TypeFilter {
        self.types
    }

    /// A registry with no filter set: every type rolls back.
    pub fn new() -> (r: RollbackRegistry)
        ensures
            r.filter().kind() == FilterKind::Unset,
    {
        RollbackRegistry { types: TypeFilter::Unset }
    }

    /// Allow all types to roll back.
    pub fn allow_all(&mut self)
        ensures
            forall|id: TypeId| final(self).filter().allows(id),
    {
        self.types = TypeFilter::allow_all();
    }

    /// Deny all types from rolling back.
    pub fn deny_all(&mut self)
        ensures
            forall|id: TypeId| !final(self).filter().allows(id),
    {
        self.types = TypeFilter::deny_all();
    }

    /// Include a type in rollbacks, by id.
    pub fn allow_id(&mut self, type_id: TypeId)
        ensures
            (final(self).filter().kind(), final(self).filter().ids()) == after_allow(
                old(self).filter().kind(),
                old(self).filter().ids(),
                type_id,
            ),
            final(self).filter().allows(type_id),
    {
        let mut types = TypeFilter::Unset;
        std::mem::swap(&mut types, &mut self.types);
        self.types = types.allow_by_id(type_id);
    }

    /// Exclude a type from rollback, by id.
    ///
    /// The type is still included in normal snapshots.
    pub fn deny_id(&mut self, type_id: TypeId)
        ensures
            (final(self).filter().kind(), final(self).filter().ids()) == after_deny(
                old(self).filter().kind(),
                old(self).filter().ids(),
                type_id,
            ),
            !final(self).filter().allows(type_id),
    {
        let mut types = TypeFilter::Unset;
        std::mem::swap(&mut types, &mut self.types);
        self.types = types.deny_by_id(type_id);
    }

    /// Include a type in rollbacks.
    pub fn allow<T: ?Sized + 'static>(&mut self)
        ensures
            (final(self).filter().kind(), final(self).filter().ids()) == after_allow(
                old(self).filter().kind(),
                old(self).filter().ids(),
                type_key::<T>(),
            ),
            final(self).filter().allows(type_key::<T>()),
    {
        self.allow_id(type_id_of::<T>());
    }

    /// Exclude a type from rollback.
    ///
    /// The type is still included in normal snapshots.
    pub fn deny<T: ?Sized + 'static>(&mut self)
        ensures
            (final(self).filter().kind(), final(self).filter().ids()) == after_deny(
                old(self).filter().kind(),
                old(self).filter().ids(),
                type_key::<T>(),
            ),
            !final(self).filter().allows(type_key::<T>()),
    {
        self.deny_id(type_id_of::<T>());
    }

    /// Check if a type is allowed to roll back.
    pub fn is_allowed<T: ?Sized + 'static>(&self) -> (r: bool)
        ensures
            r == self.filter().allows(type_key::<T>()),
    {
        self.types.is_allowed_by_id(type_id_of::<T>())
    }

    /// Check if a type is allowed to roll back by id.
    pub fn is_allowed_by_id(&self, type_id: TypeId) -> (r: bool)
        ensures
            r == self.filter().allows(type_id),
    {
        self.types.is_allowed_by_id(type_id)
    }

    /// Check if a type is denied from rolling back.
    pub fn is_denied<T: ?Sized + 'static>(&self) -> (r: bool)
        ensures
            r == !self.filter().allows(type_key::<T>()),
    {
        self.types.is_denied_by_id(type_id_of::<T>())
    }

    /// Check if a type is denied from rolling back by id.
    pub fn is_denied_by_id(&self, type_id: TypeId) -> (r: bool)
        ensures
            r == !self.filter().allows(type_id),
    {
        self.types.is_denied_by_id(type_id)
    }
}

/// Allowing a type makes it allowed, and denying makes it denied, whatever
/// the filter was.
pub proof fn law_allow_deny_take_effect(kind: FilterKind, ids: Set<TypeId>, id: TypeId)
    ensures
        ({
            let (k, s) = after_allow(kind, ids, id);
            filter_allows(k, s, id)
        }),
        ({
            let (k, s) = after_deny(kind, ids, id);
            !filter_allows(k, s, id)
        }),
{
}

/// Once a filter is set, allowing or denying one type leaves every other
/// type as it was; an unset filter, which allows everything, is replaced by
/// a list of that one type.
pub proof fn law_allow_deny_leave_others(
    kind: FilterKind,
    ids: Set<TypeId>,
    id: TypeId,
    other: TypeId,
)
    requires
        other != id,
    ensures
        kind != FilterKind::Unset ==> ({
            let (k, s) = after_allow(kind, ids, id);
            filter_allows(k, s, other) == filter_allows(kind, ids, other)
        }),
        kind != FilterKind::Unset ==> ({
            let (k, s) = after_deny(kind, ids, id);
            filter_allows(k, s, other) == filter_allows(kind, ids, other)
        }),
        ({
            let (k, s) = after_allow(FilterKind::Unset, ids, id);
            !filter_allows(k, s, other)
        }),
        ({
            let (k, s) = after_deny(FilterKind::Unset, ids, id);
            filter_allows(k, s, other)
        }),
{
}

} // verus!
