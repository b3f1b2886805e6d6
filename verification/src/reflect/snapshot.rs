//! Snapshots and the builder that collects their entities and resources.
//!
//! Entities are kept by id and resources by component id, each at most
//! once and in ascending order, as an ordered map keeps them; the snapshot
//! lists them in that order.

use std::any::TypeId;

use vstd::prelude::*;

use crate::reflect::checkpoint::CheckpointRegistry;
use crate::registry::{
    FilterKind,
    TypeFilter,
    after_allow,
    after_deny,
};
use crate::utils::reversed;
use crate::sorted_map::{
    insert_sorted,
    lemma_map_of_index,
    lemma_map_of_len,
    keys_of,
    map_of,
    sorted_insert,
    strictly_ascending,
};

verus! {

/// An entity and its components.
#[derive(Clone, Debug)]
pub struct DynamicEntity<C> {
    /// The identifier of the entity (its bits), unique within a snapshot.
    pub entity: u64,
    /// The components that belong to the entity.
    pub components: Vec<C>,
}

/// A collection of entities and resources.
#[derive(Clone, Debug)]
pub struct Snapshot<C, R> {
    /// Entities contained in the snapshot.
    pub entities: Vec<DynamicEntity<C>>,
    /// Resources contained in the snapshot.
    pub resources: Vec<R>,
}

impl<C, R> Snapshot<C, R> {
    /// The ids of the snapshot's entities, in order.
    pub open spec fn entity_ids(&self) -> Seq<u64> {
        self.entities@.map_values(|e: DynamicEntity<C>| e.entity)
    }
}

/// Each value that `included_values` keeps comes from a candidate that
/// holds it and whose type and marks pass `allowed`.
pub proof fn lemma_included_from<C>(
    cands: Seq<(TypeId, TypeMarks, Option<C>)>,
    allowed: spec_fn(TypeId, TypeMarks) -> bool,
)
    ensures
        forall|i: int|
            0 <= i < included_values(cands, allowed).len() ==> exists|j: int|
                0 <= j < cands.len() && cands[j].2 == Some(
                    #[trigger] included_values(cands, allowed)[i],
                ) && allowed(cands[j].0, cands[j].1),
    decreases cands.len(),
{
    if cands.len() > 0 {
        let init = cands.drop_last();
        lemma_included_from(init, allowed);
        let rest = included_values(init, allowed);
        let all = included_values(cands, allowed);
        assert forall|i: int| 0 <= i < all.len() implies exists|j: int|
            0 <= j < cands.len() && cands[j].2 == Some(#[trigger] all[i]) && allowed(
                cands[j].0,
                cands[j].1,
            ) by {
            if i < rest.len() {
                assert(all[i] == rest[i]);
                let j = choose|j: int|
                    0 <= j < init.len() && init[j].2 == Some(rest[i]) && allowed(
                        init[j].0,
                        init[j].1,
                    );
                assert(cands[j] == init[j]);
            } else {
                assert(cands[cands.len() - 1] == cands.last());
            }
        }
    }
}

/// `start` after inserting `entries` in order, a later entry replacing an
/// earlier one with the same key.
pub open spec fn inserted<R>(start: Map<u64, R>, entries: Seq<(u64, R)>) -> Map<u64, R>
    decreases entries.len(),
{
    if entries.len() == 0 {
        start
    } else {
        inserted(start, entries.drop_last()).insert(entries.last().0, entries.last().1)
    }
}

/// After inserting `entries` in order into `start`, each key holds either
/// the value of an entry with that key or, untouched, its value in `start`.
pub proof fn lemma_inserted<R>(start: Map<u64, R>, entries: Seq<(u64, R)>)
    ensures
        forall|k: u64|
            #[trigger] inserted(start, entries).contains_key(k) ==> (start.contains_key(k) && inserted(start, entries)[k] == start[k]) || exists|i: int|
                0 <= i < entries.len() && entries[i] == (
                    k,
                    inserted(start, entries)[k],
                ),
    decreases entries.len(),
{
    if entries.len() > 0 {
        let init = entries.drop_last();
        lemma_inserted(start, init);
        let prev = inserted(start, init);
        let cur = inserted(start, entries);
        assert(cur == prev.insert(entries.last().0, entries.last().1));
        assert forall|k: u64| #[trigger] cur.contains_key(k) implies (start.contains_key(k)
            && cur[k] == start[k]) || exists|i: int|
            0 <= i < entries.len() && entries[i] == (k, cur[k]) by {
            if k == entries.last().0 {
                assert(entries[entries.len() - 1] == (k, cur[k]));
            } else {
                assert(prev.contains_key(k) && cur[k] == prev[k]);
                if !(start.contains_key(k) && prev[k] == start[k]) {
                    let i = choose|i: int| 0 <= i < init.len() && init[i] == (k, prev[k]);
                    assert(entries[i] == init[i]);
                }
            }
        }
    }
}

/// The filter of an optional checkpoint registry.
pub open spec fn registry_filter(checkpoints: Option<&CheckpointRegistry>) -> Option<TypeFilter> {
    match checkpoints {
        Some(c) => Some(c.filter()),
        None => None,
    }
}

/// What the type registry marks a type with, as extraction reads it.
#[derive(Clone, Copy, Debug, PartialEq, Eq, Structural)]
pub struct TypeMarks {
    /// The type is registered as ignored (`ReflectIgnore`): it is never put
    /// in a snapshot or a checkpoint.
    pub ignored: bool,
    /// The type is registered as ignored for checkpoints
    /// (`ReflectIgnoreCheckpoint`): it is never put in a checkpoint, but
    /// stays in snapshots.
    pub ignore_checkpoint: bool,
    /// The type is the target side of a relationship
    /// (`ReflectRelationshipTarget`): it is never put in a snapshot or a
    /// checkpoint, since the relationship it mirrors is the source of truth.
    pub relationship_target: bool,
}

/// Whether a type with marks `m` is kept out by its marks alone, in a
/// checkpoint (`checkpoint`) or a snapshot.
pub open spec fn excluded_by_marks(m: TypeMarks, checkpoint: bool) -> bool {
    m.ignored || m.relationship_target || (checkpoint && m.ignore_checkpoint)
}

/// The values among `cands` (each a type, its marks and, if one was read,
/// a value) whose type and marks pass `allowed`, in order; a candidate
/// without a value is skipped.
pub open spec fn included_values<C>(
    cands: Seq<(TypeId, TypeMarks, Option<C>)>,
    allowed: spec_fn(TypeId, TypeMarks) -> bool,
) -> Seq<C>
    decreases cands.len(),
{
    if cands.len() == 0 {
        Seq::empty()
    } else {
        let rest = included_values(cands.drop_last(), allowed);
        match cands.last().2 {
            Some(v) => if allowed(cands.last().0, cands.last().1) {
                rest.push(v)
            } else {
                rest
            },
            None => rest,
        }
    }
}

/// The entries among `s` that hold at least one component, in order.
pub open spec fn non_empty_only<C>(s: Seq<(u64, Vec<C>)>) -> Seq<(u64, Vec<C>)>
    decreases s.len(),
{
    if s.len() == 0 {
        s
    } else {
        let rest = non_empty_only(s.drop_last());
        if s.last().1@.len() > 0 {
            rest.push(s.last())
        } else {
            rest
        }
    }
}

proof fn lemma_non_empty_only_sub<C>(s: Seq<(u64, Vec<C>)>)
    ensures
        forall|i: int|
            0 <= i < non_empty_only(s).len() ==> s.contains(#[trigger] non_empty_only(s)[i]),
        forall|i: int|
            0 <= i < non_empty_only(s).len() ==> #[trigger] non_empty_only(s)[i].1@.len() > 0,
        strictly_ascending(keys_of(s)) ==> strictly_ascending(keys_of(non_empty_only(s))),
        non_empty_only(s).len() <= s.len(),
        forall|i: int|
            0 <= i < s.len() && (#[trigger] s[i]).1@.len() > 0 ==> non_empty_only(s).contains(s[i]),
    decreases s.len(),
{
    if s.len() > 0 {
        let t = s.drop_last();
        lemma_non_empty_only_sub(t);
        let r = non_empty_only(s);
        let rt = non_empty_only(t);
        assert forall|i: int| 0 <= i < s.len() && (#[trigger] s[i]).1@.len() > 0 implies r.contains(
            s[i],
        ) by {
            if i < t.len() {
                assert(t[i] == s[i]);
                assert(rt.contains(t[i]));
                let w = choose|w: int| 0 <= w < rt.len() && rt[w] == t[i];
                assert(r[w] == rt[w]);
            } else {
                assert(s[i] == s.last());
                assert(r[r.len() - 1] == s.last());
            }
        }
        assert forall|i: int| 0 <= i < r.len() implies s.contains(#[trigger] r[i]) by {
            if i < rt.len() {
                assert(r[i] == rt[i]);
                assert(t.contains(rt[i]));
                let k = choose|k: int| 0 <= k < t.len() && t[k] == rt[i];
                assert(s[k] == t[k]);
            } else {
                assert(r[i] == s.last());
                assert(s[s.len() - 1] == s.last());
            }
        }
        assert forall|i: int| 0 <= i < r.len() implies #[trigger] r[i].1@.len() > 0 by {
            if i < rt.len() {
                assert(r[i] == rt[i]);
            }
        }
        if strictly_ascending(keys_of(s)) {
            assert forall|a: int, b: int| 0 <= a < b < t.len() implies keys_of(t)[a] < keys_of(
                t,
            )[b] by {
                assert(keys_of(t)[a] == t[a].0);
                assert(keys_of(s)[a] == s[a].0);
                assert(keys_of(t)[b] == t[b].0);
                assert(keys_of(s)[b] == s[b].0);
            }
            assert forall|a: int, b: int| 0 <= a < b < r.len() implies keys_of(r)[a] < keys_of(
                r,
            )[b] by {
                assert(keys_of(r)[a] == r[a].0);
                assert(keys_of(r)[b] == r[b].0);
                if b < rt.len() {
                    assert(r[a] == rt[a]);
                    assert(r[b] == rt[b]);
                    assert(keys_of(rt)[a] == rt[a].0);
                    assert(keys_of(rt)[b] == rt[b].0);
                } else {
                    assert(r[a] == rt[a]);
                    assert(t.contains(rt[a]));
                    let k = choose|k: int| 0 <= k < t.len() && t[k] == rt[a];
                    assert(keys_of(s)[k] == s[k].0);
                    assert(keys_of(s)[s.len() - 1] == s[s.len() - 1].0);
                }
            }
        }
    }
}

/// A snapshot builder that collects entities and resources.
#[derive(Debug)]
pub struct Builder<C, R> {
    entities: Vec<(u64, Vec<C>)>,
    resources: Vec<(u64, R)>,
    filter: TypeFilter,
    is_checkpoint: bool,
}

impl<C, R> Builder<C, R> {
    #[verifier::type_invariant]
    spec fn wf(&self) -> bool {
        &&& strictly_ascending(keys_of(self.entities@))
        &&& strictly_ascending(keys_of(self.resources@))
    }

    /// The collected entities with their components, in ascending id order.
    pub closed spec fn entities(&self) -> Seq<(u64, Vec<C>)> {
        self.entities@
    }

    /// The collected resources with their component ids, in ascending id
    /// order.
    pub closed spec fn resources(&self) -> Seq<(u64, R)> {
        self.resources@
    }

    /// The filter applied to components and resources.
    pub closed spec fn type_filter(&self) -> TypeFilter {
        self.filter
    }

    /// Whether the builder builds a checkpoint.
    pub closed spec fn is_checkpoint(&self) -> bool {
        self.is_checkpoint
    }

    /// Whether a type with marks `marks` is collected: it is not kept out
    /// by its marks (ignored; for a checkpoint, also ignored for
    /// checkpoints), it passes the builder's filter and, for a checkpoint,
    /// the checkpoint registry if there is one.
    pub open spec fn includes(&self, id: TypeId, marks: TypeMarks, checkpoints: Option<TypeFilter>) -> bool {
        &&& !excluded_by_marks(marks, self.is_checkpoint())
        &&& self.type_filter().allows(id)
        &&& self.is_checkpoint() ==> match checkpoints {
            Some(f) => f.allows(id),
            None => true,
        }
    }

    /// [`Builder::includes`] as a predicate on types and their marks.
    pub open spec fn includes_fn(&self, checkpoints: Option<TypeFilter>) -> spec_fn(TypeId, TypeMarks) -> bool {
        |id: TypeId, marks: TypeMarks| self.includes(id, marks, checkpoints)
    }

    /// Creates input used to build a snapshot: nothing collected, no
    /// filter set.
    pub fn new() -> (r: Self)
        ensures
            r.entities().len() == 0,
            r.resources().len() == 0,
            r.type_filter().kind() == FilterKind::Unset,
            !r.is_checkpoint(),
    {
        Builder {
            entities: Vec::new(),
            resources: Vec::new(),
            filter: TypeFilter::Unset,
            is_checkpoint: false,
        }
    }

    /// Creates input used to build a checkpoint.
    pub fn checkpoint() -> (r: Self)
        ensures
            r.entities().len() == 0,
            r.resources().len() == 0,
            r.type_filter().kind() == FilterKind::Unset,
            r.is_checkpoint(),
    {
        Self::new().into_checkpoint()
    }

    /// Turns this builder into a checkpoint builder.
    pub fn into_checkpoint(self) -> (r: Self)
        ensures
            r.entities() == self.entities(),
            r.resources() == self.resources(),
            r.type_filter() == self.type_filter(),
            r.is_checkpoint(),
    {
        proof {
            use_type_invariant(&self);
        }
        let Builder { entities, resources, filter, is_checkpoint: _ } = self;
        Builder { entities, resources, filter, is_checkpoint: true }
    }

    /// Specify the filter applied to both components and resources.
    pub fn filter(self, filter: TypeFilter) -> (r: Self)
        ensures
            r.entities() == self.entities(),
            r.resources() == self.resources(),
            r.type_filter() == filter,
            r.is_checkpoint() == self.is_checkpoint(),
    {
        proof {
            use_type_invariant(&self);
        }
        let Builder { entities, resources, filter: _, is_checkpoint } = self;
        Builder { entities, resources, filter, is_checkpoint }
    }

    /// Allows the given type to be included in the snapshot; if it was
    /// denied it is removed from the denylist.
    pub fn allow_id(self, type_id: TypeId) -> (r: Self)
        ensures
            r.entities() == self.entities(),
            r.resources() == self.resources(),
            (r.type_filter().kind(), r.type_filter().ids()) == after_allow(
                self.type_filter().kind(),
                self.type_filter().ids(),
                type_id,
            ),
            r.is_checkpoint() == self.is_checkpoint(),
    {
        proof {
            use_type_invariant(&self);
        }
        let Builder { entities, resources, filter, is_checkpoint } = self;
        Builder { entities, resources, filter: filter.allow_by_id(type_id), is_checkpoint }
    }

    /// Denies the given type from being included in the snapshot; if it was
    /// allowed it is removed from the allowlist.
    pub fn deny_id(self, type_id: TypeId) -> (r: Self)
        ensures
            r.entities() == self.entities(),
            r.resources() == self.resources(),
            (r.type_filter().kind(), r.type_filter().ids()) == after_deny(
                self.type_filter().kind(),
                self.type_filter().ids(),
                type_id,
            ),
            r.is_checkpoint() == self.is_checkpoint(),
    {
        proof {
            use_type_invariant(&self);
        }
        let Builder { entities, resources, filter, is_checkpoint } = self;
        Builder { entities, resources, filter: filter.deny_by_id(type_id), is_checkpoint }
    }

    /// Updates the filter to allow all types.
    pub fn allow_all(self) -> (r: Self)
        ensures
            r.entities() == self.entities(),
            r.resources() == self.resources(),
            forall|id: TypeId| r.type_filter().allows(id),
            r.is_checkpoint() == self.is_checkpoint(),
    {
        self.filter(TypeFilter::allow_all())
    }

    /// Updates the filter to deny all types.
    pub fn deny_all(self) -> (r: Self)
        ensures
            r.entities() == self.entities(),
            r.resources() == self.resources(),
            forall|id: TypeId| !r.type_filter().allows(id),
            r.is_checkpoint() == self.is_checkpoint(),
    {
        self.filter(TypeFilter::deny_all())
    }

    /// Whether a value of the given type is collected: its marks do not
    /// keep it out, it passes the builder's filter and, when building a
    /// checkpoint, the checkpoint registry (if there is one).
    pub fn includes_type(
        &self,
        type_id: TypeId,
        marks: TypeMarks,
        checkpoints: Option<&CheckpointRegistry>,
    ) -> (r: bool)
        ensures
            r == self.includes(type_id, marks, registry_filter(checkpoints)),
    {
        if marks.ignored || marks.relationship_target || (self.is_checkpoint
            && marks.ignore_checkpoint) {
            return false;
        }
        if !self.filter.is_allowed_by_id(type_id) {
            return false;
        }
        if self.is_checkpoint {
            match checkpoints {
                Some(c) => c.is_allowed_by_id(type_id),
                None => true,
            }
        } else {
            true
        }
    }

    /// Collects an entity with the given components, replacing what was
    /// collected for it before.
    pub fn insert_entity(self, entity: u64, components: Vec<C>) -> (r: Self)
        ensures
            r.entities() == insert_sorted(self.entities(), entity, components),
            map_of(r.entities()) == map_of(self.entities()).insert(entity, components),
            r.resources() == self.resources(),
            r.type_filter() == self.type_filter(),
            r.is_checkpoint() == self.is_checkpoint(),
    {
        proof {
            use_type_invariant(&self);
        }
        let Builder { mut entities, resources, filter, is_checkpoint } = self;
        sorted_insert(&mut entities, entity, components);
        Builder { entities, resources, filter, is_checkpoint }
    }

    /// Extracts one entity: of its candidate components (each a type, the
    /// marks the registry gives it and the value read for it, if any) the
    /// builder keeps, in order, the values whose type it includes, and
    /// collects the entity with them, replacing what was collected for it
    /// before. A type registered as ignored or as a relationship target is
    /// never kept, nor, in a checkpoint, a type registered as ignored for
    /// checkpoints.
    pub fn extract_entity(
        self,
        entity: u64,
        candidates: Vec<(TypeId, TypeMarks, Option<C>)>,
        checkpoints: Option<&CheckpointRegistry>,
    ) -> (r: Self)
        ensures
            map_of(r.entities()).contains_key(entity),
            map_of(r.entities()) == map_of(self.entities()).insert(
                entity,
                map_of(r.entities())[entity],
            ),
            map_of(r.entities())[entity]@ == included_values(
                candidates@,
                self.includes_fn(registry_filter(checkpoints)),
            ),
            forall|i: int|
                0 <= i < map_of(r.entities())[entity]@.len() ==> exists|j: int|
                    0 <= j < candidates@.len() && candidates@[j].2 == Some(
                        #[trigger] map_of(r.entities())[entity]@[i],
                    ) && !excluded_by_marks(candidates@[j].1, self.is_checkpoint())
                        && self.type_filter().allows(candidates@[j].0),
            r.resources() == self.resources(),
            r.type_filter() == self.type_filter(),
            r.is_checkpoint() == self.is_checkpoint(),
    {
        let ghost allowed = self.includes_fn(registry_filter(checkpoints));
        let n: usize = candidates.len();
        let mut components: Vec<C> = Vec::new();
        let ghost all = candidates@;
        let mut cands = crate::utils::reversed(candidates);
        let mut taken: usize = 0;
        while cands.len() > 0
            invariant
                cands@.len() + taken == n,
                all.len() == n,
                forall|j: int| 0 <= j < cands@.len() ==> cands@[j] == all[n - 1 - j],
                allowed == self.includes_fn(registry_filter(checkpoints)),
                components@ == included_values(all.take(taken as int), allowed),
            decreases cands@.len(),
        {
            let (id, marks, value) = cands.pop().unwrap();
            proof {
                assert(all.take(taken + 1).drop_last() =~= all.take(taken as int));
                assert(all.take(taken + 1).last() == all[taken as int]);
                assert(all[taken as int] == (id, marks, value));
            }
            let ghost prev = components@;
            match value {
                Some(v) => {
                    let inc = self.includes_type(id, marks, checkpoints);
                    assert(inc == allowed(id, marks));
                    if inc {
                        components.push(v);
                    }
                },
                None => {},
            }
            taken = taken + 1;
        }
        proof {
            assert(all.take(n as int) =~= all);
            lemma_included_from(all, allowed);
        }
        let ghost comps = components;
        let r = self.insert_entity(entity, components);
        proof {
            use_type_invariant(&r);
            assert(map_of(r.entities())[entity] == comps);
        }
        r
    }

    /// Collects a resource under its component id, replacing what was
    /// collected for that id before.
    pub fn insert_resource(self, component_id: u64, value: R) -> (r: Self)
        ensures
            r.resources() == insert_sorted(self.resources(), component_id, value),
            map_of(r.resources()) == map_of(self.resources()).insert(component_id, value),
            r.entities() == self.entities(),
            r.type_filter() == self.type_filter(),
            r.is_checkpoint() == self.is_checkpoint(),
    {
        proof {
            use_type_invariant(&self);
        }
        let Builder { entities, mut resources, filter, is_checkpoint } = self;
        sorted_insert(&mut resources, component_id, value);
        Builder { entities, resources, filter, is_checkpoint }
    }

    /// Extracts resources: of the candidates (each a type and, if the
    /// resource could be read, its component id and value) the builder
    /// collects, in order, those whose type it includes.
    pub fn extract_resources(
        self,
        candidates: Vec<(TypeId, TypeMarks, Option<(u64, R)>)>,
        checkpoints: Option<&CheckpointRegistry>,
    ) -> (r: Self)
        ensures
            map_of(r.resources()) == inserted(
                map_of(self.resources()),
                included_values(candidates@, self.includes_fn(registry_filter(checkpoints))),
            ),
            forall|k: u64|
                #[trigger] map_of(r.resources()).contains_key(k) ==> (map_of(
                    self.resources(),
                ).contains_key(k) && map_of(r.resources())[k] == map_of(self.resources())[k])
                    || exists|j: int|
                    0 <= j < candidates@.len() && candidates@[j].2 == Some(
                        (k, map_of(r.resources())[k]),
                    ) && !excluded_by_marks(candidates@[j].1, self.is_checkpoint())
                        && self.type_filter().allows(candidates@[j].0),
            r.entities() == self.entities(),
            r.type_filter() == self.type_filter(),
            r.is_checkpoint() == self.is_checkpoint(),
    {
        let ghost allowed = self.includes_fn(registry_filter(checkpoints));
        let n: usize = candidates.len();
        let ghost start = map_of(self.resources());
        let ghost filter0 = self.type_filter();
        let ghost ents0 = self.entities();
        let ghost ck0 = self.is_checkpoint();
        let ghost self_filter = self.type_filter();
        let mut builder = self;
        let ghost all = candidates@;
        let mut cands = crate::utils::reversed(candidates);
        let mut taken: usize = 0;
        while cands.len() > 0
            invariant
                cands@.len() + taken == n,
                all.len() == n,
                forall|j: int| 0 <= j < cands@.len() ==> cands@[j] == all[n - 1 - j],
                builder.type_filter() == filter0,
                builder.entities() == ents0,
                builder.is_checkpoint() == ck0,
                forall|id: TypeId, marks: TypeMarks|
                    #[trigger] allowed(id, marks) == builder.includes(
                        id,
                        marks,
                        registry_filter(checkpoints),
                    ),
                map_of(builder.resources()) == inserted(
                    start,
                    included_values(all.take(taken as int), allowed),
                ),
            decreases cands@.len(),
        {
            let (id, marks, value) = cands.pop().unwrap();
            proof {
                assert(all.take(taken + 1).drop_last() =~= all.take(taken as int));
                assert(all.take(taken + 1).last() == all[taken as int]);
            }
            match value {
                Some(entry) => {
                    let inc = builder.includes_type(id, marks, checkpoints);
                    assert(inc == allowed(id, marks));
                    if inc {
                        let (cid, v) = entry;
                        builder = builder.insert_resource(cid, v);
                        proof {
                            let prev = included_values(all.take(taken as int), allowed);
                            assert(prev.push((cid, v)).drop_last() =~= prev);
                        }
                    }
                },
                None => {},
            }
            taken = taken + 1;
        }
        proof {
            assert(all.take(n as int) =~= all);
            let vals = included_values(all, allowed);
            lemma_included_from(all, allowed);
            lemma_inserted(start, vals);
            assert forall|k: u64| #[trigger] map_of(builder.resources()).contains_key(k) implies (
            start.contains_key(k) && map_of(builder.resources())[k] == start[k]) || exists|j: int|
                0 <= j < all.len() && all[j].2 == Some((k, map_of(builder.resources())[k]))
                    && !excluded_by_marks(all[j].1, ck0) && filter0.allows(all[j].0) by {
                let v = map_of(builder.resources())[k];
                if !(start.contains_key(k) && v == start[k]) {
                    let i = choose|i: int| 0 <= i < vals.len() && vals[i] == (k, v);
                    let j = choose|j: int|
                        0 <= j < all.len() && all[j].2 == Some(#[trigger] vals[i]) && allowed(
                            all[j].0,
                            all[j].1,
                        );
                    assert(allowed(all[j].0, all[j].1) == builder.includes(
                        all[j].0,
                        all[j].1,
                        registry_filter(checkpoints),
                    ));
                }
            }
        }
        builder
    }

    /// Clear all extracted entities.
    pub fn clear_entities(self) -> (r: Self)
        ensures
            r.entities().len() == 0,
            r.resources() == self.resources(),
            r.type_filter() == self.type_filter(),
            r.is_checkpoint() == self.is_checkpoint(),
    {
        proof {
            use_type_invariant(&self);
        }
        let Builder { entities: _, resources, filter, is_checkpoint } = self;
        Builder { entities: Vec::new(), resources, filter, is_checkpoint }
    }

    /// Clear all extracted resources.
    pub fn clear_resources(self) -> (r: Self)
        ensures
            r.resources().len() == 0,
            r.entities() == self.entities(),
            r.type_filter() == self.type_filter(),
            r.is_checkpoint() == self.is_checkpoint(),
    {
        proof {
            use_type_invariant(&self);
        }
        let Builder { entities, resources: _, filter, is_checkpoint } = self;
        Builder { entities, resources: Vec::new(), filter, is_checkpoint }
    }

    /// Clear all extracted entities without any components.
    pub fn clear_empty(self) -> (r: Self)
        ensures
            r.entities() == non_empty_only(self.entities()),
            forall|i: int|
                0 <= i < r.entities().len() ==> (#[trigger] r.entities()[i]).1@.len() > 0
                    && self.entities().contains(r.entities()[i]),
            forall|i: int|
                0 <= i < self.entities().len() && (#[trigger] self.entities()[i]).1@.len() > 0
                    ==> r.entities().contains(self.entities()[i]),
            r.resources() == self.resources(),
            r.type_filter() == self.type_filter(),
            r.is_checkpoint() == self.is_checkpoint(),
    {
        proof {
            use_type_invariant(&self);
        }
        let Builder { entities, resources, filter, is_checkpoint } = self;
        let ghost all = entities@;
        let n = entities.len();
        let mut rest = crate::utils::reversed(entities);
        let mut kept: Vec<(u64, Vec<C>)> = Vec::new();
        let mut taken: usize = 0;
        while rest.len() > 0
            invariant
                rest@.len() + taken == n,
                all.len() == n,
                forall|j: int| 0 <= j < rest@.len() ==> rest@[j] == all[n - 1 - j],
                kept@ == non_empty_only(all.take(taken as int)),
            decreases rest@.len(),
        {
            let e = rest.pop().unwrap();
            proof {
                assert(all.take(taken + 1).drop_last() =~= all.take(taken as int));
                assert(all.take(taken + 1).last() == all[taken as int]);
            }
            if e.1.len() > 0 {
                kept.push(e);
            }
            taken = taken + 1;
        }
        proof {
            assert(all.take(n as int) =~= all);
            lemma_non_empty_only_sub(all);
        }
        Builder { entities: kept, resources, filter, is_checkpoint }
    }

    /// Clear all extracted entities and resources.
    pub fn clear(self) -> (r: Self)
        ensures
            r.entities().len() == 0,
            r.resources().len() == 0,
            r.type_filter() == self.type_filter(),
            r.is_checkpoint() == self.is_checkpoint(),
    {
        self.clear_entities().clear_resources()
    }

    /// Build the extracted entities and resources into a [`Snapshot`]:
    /// entities in ascending id order, resources in ascending component id
    /// order.
    pub fn build(self) -> (r: Snapshot<C, R>)
        ensures
            r.entities@.len() == self.entities().len(),
            forall|i: int|
                0 <= i < r.entities@.len() ==> r.entities@[i].entity == self.entities()[i].0
                    && r.entities@[i].components == self.entities()[i].1,
            strictly_ascending(r.entity_ids()),
            r.resources@ == self.resources().map_values(|e: (u64, R)| e.1),
            strictly_ascending(keys_of(self.resources())),
            forall|i: int|
                0 <= i < r.resources@.len() ==> map_of(self.resources()).contains_key(
                    self.resources()[i].0,
                ) && map_of(self.resources())[self.resources()[i].0] == #[trigger] r.resources@[i],
            r.resources@.len() == map_of(self.resources()).dom().len(),
    {
        proof {
            use_type_invariant(&self);
            lemma_map_of_len(self.resources());
            assert forall|i: int| 0 <= i < self.resources().len() implies map_of(
                self.resources(),
            ).contains_key(self.resources()[i].0) && map_of(self.resources())[self.resources()[i].0]
                == self.resources()[i].1 by {
                lemma_map_of_index(self.resources(), i);
            }
        }
        let Builder { entities, resources, filter: _, is_checkpoint: _ } = self;
        let ghost es = entities@;
        let ghost rs = resources@;
        let mut out: Vec<DynamicEntity<C>> = Vec::new();
        let mut rest = crate::utils::reversed(entities);
        let n = rest.len();
        while rest.len() > 0
            invariant
                rest@.len() + out@.len() == n,
                es.len() == n,
                forall|j: int| 0 <= j < rest@.len() ==> rest@[j] == es[n - 1 - j],
                forall|i: int|
                    0 <= i < out@.len() ==> out@[i].entity == es[i].0 && out@[i].components
                        == es[i].1,
            decreases rest@.len(),
        {
            let (entity, components) = rest.pop().unwrap();
            out.push(DynamicEntity { entity, components });
        }
        let mut values: Vec<R> = Vec::new();
        let mut rest_r = crate::utils::reversed(resources);
        let m = rest_r.len();
        while rest_r.len() > 0
            invariant
                rest_r@.len() + values@.len() == m,
                rs.len() == m,
                forall|j: int| 0 <= j < rest_r@.len() ==> rest_r@[j] == rs[m - 1 - j],
                values@ == rs.take(values@.len() as int).map_values(|e: (u64, R)| e.1),
            decreases rest_r@.len(),
        {
            let (_, value) = rest_r.pop().unwrap();
            proof {
                let k = values@.len() as int;
                assert(rs.take(k + 1).map_values(|e: (u64, R)| e.1) =~= rs.take(k).map_values(
                    |e: (u64, R)| e.1,
                ).push(rs[k].1));
            }
            values.push(value);
        }
        proof {
            assert(rs.take(m as int) =~= rs);
            let ids = out@.map_values(|e: DynamicEntity<C>| e.entity);
            assert forall|a: int, b: int| 0 <= a < b < ids.len() implies ids[a] < ids[b] by {
                assert(keys_of(es)[a] == es[a].0);
                assert(keys_of(es)[b] == es[b].0);
            }
        }
        Snapshot { entities: out, resources: values }
    }
}

/// Building orders a snapshot's entities by id, each at most once, and
/// keeps for each the components collected last.
pub proof fn law_built_entities_ordered<C, R>(b: Builder<C, R>, s: Snapshot<C, R>)
    requires
        s.entities@.len() == b.entities().len(),
        forall|i: int|
            0 <= i < s.entities@.len() ==> s.entities@[i].entity == b.entities()[i].0
                && s.entities@[i].components == b.entities()[i].1,
        strictly_ascending(s.entity_ids()),
    ensures
        forall|i: int, j: int|
            0 <= i < j < s.entities@.len() ==> s.entities@[i].entity < s.entities@[j].entity,
        forall|i: int|
            0 <= i < s.entities@.len() ==> map_of(b.entities())[s.entities@[i].entity]
                == s.entities@[i].components,
{
    assert forall|i: int, j: int| 0 <= i < j < s.entities@.len() implies s.entities@[i].entity
        < s.entities@[j].entity by {
        assert(s.entity_ids()[i] == s.entities@[i].entity);
        assert(s.entity_ids()[j] == s.entities@[j].entity);
    }
    assert forall|i: int| 0 <= i < s.entities@.len() implies map_of(b.entities())[s.entities@[
        i].entity] == s.entities@[i].components by {
        assert forall|a: int, c: int| 0 <= a < c < b.entities().len() implies keys_of(
            b.entities(),
        )[a] < keys_of(b.entities())[c] by {
            assert(s.entity_ids()[a] == s.entities@[a].entity);
            assert(s.entity_ids()[c] == s.entities@[c].entity);
        }
        crate::sorted_map::lemma_map_of_index(b.entities(), i);
    }
}

/// Clearing empty entities keeps exactly the entities that have a
/// component: every kept entity has one and was collected, and every
/// collected entity with a component is kept.
pub proof fn law_clear_empty_keeps_nonempty<C>(s: Seq<(u64, Vec<C>)>)
    ensures
        forall|i: int| 0 <= i < non_empty_only(s).len() ==> non_empty_only(s)[i].1@.len() > 0,
        forall|i: int|
            0 <= i < non_empty_only(s).len() ==> s.contains(non_empty_only(s)[i]),
        forall|i: int|
            0 <= i < s.len() && (#[trigger] s[i]).1@.len() > 0 ==> non_empty_only(s).contains(s[i]),
{
    lemma_non_empty_only_sub(s);
}

/// A checkpoint as a snapshot of format 0.16 holds it.
#[derive(Debug)]
pub struct CheckpointV0_16<C, R> {
    /// Entities of the checkpoint.
    pub entities: Vec<DynamicEntity<C>>,
    /// Resources of the checkpoint.
    pub resources: Vec<R>,
}

/// The checkpoints a snapshot of format 0.16 holds beside its entities.
#[derive(Debug)]
pub struct CheckpointsV0_16<C, R> {
    /// The checkpoints, oldest first.
    pub checkpoints: Vec<CheckpointV0_16<C, R>>,
    /// The position of the active checkpoint.
    pub active: Option<usize>,
}

/// A snapshot of format 0.16, whose checkpoints are a field of their own.
#[derive(Debug)]
pub struct SnapshotV0_16<C, R> {
    /// Entities contained in the snapshot.
    pub entities: Vec<DynamicEntity<C>>,
    /// Resources contained in the snapshot.
    pub resources: Vec<R>,
    /// Checkpoints saved with the snapshot.
    pub rollbacks: Option<CheckpointsV0_16<C, R>>,
}

/// Checkpoints as a current snapshot holds them: a resource made of the
/// checkpoint snapshots and the active position.
#[derive(Debug)]
pub struct CheckpointParts<C, R> {
    /// The checkpoints as snapshots, oldest first.
    pub snapshots: Vec<Snapshot<C, R>>,
    /// The position of the active checkpoint.
    pub active: Option<usize>,
}

/// Reads a snapshot of format 0.16 as a current one: entities and resources
/// stay as they are, and its checkpoints, if it has any, become the parts of
/// a checkpoints resource, each checkpoint a snapshot, in the same order and
/// with the same active position.
pub fn upgrade_v0_16<C, R>(old: SnapshotV0_16<C, R>) -> (r: (Snapshot<C, R>, Option<CheckpointParts<C, R>>))
    ensures
        r.0.entities == old.entities,
        r.0.resources == old.resources,
        match old.rollbacks {
            None => r.1 is None,
            Some(rb) => r.1 matches Some(parts) && parts.active == rb.active
                && parts.snapshots@.len() == rb.checkpoints@.len() && forall|i: int|
                0 <= i < rb.checkpoints@.len() ==> (#[trigger] parts.snapshots@[i]).entities
                    == rb.checkpoints@[i].entities && parts.snapshots@[i].resources
                    == rb.checkpoints@[i].resources,
        },
{
    let SnapshotV0_16 { entities, resources, rollbacks } = old;
    let snapshot = Snapshot { entities, resources };
    match rollbacks {
        None => (snapshot, None),
        Some(rb) => {
            let CheckpointsV0_16 { checkpoints, active } = rb;
            let ghost all = checkpoints@;
            let mut rest = reversed(checkpoints);
            let mut snapshots: Vec<Snapshot<C, R>> = Vec::new();
            while rest.len() > 0
                invariant
                    rest@.len() + snapshots@.len() == all.len(),
                    forall|j: int|
                        0 <= j < rest@.len() ==> rest@[j] == all[all.len() - 1 - j],
                    forall|i: int|
                        0 <= i < snapshots@.len() ==> (#[trigger] snapshots@[i]).entities
                            == all[i].entities && snapshots@[i].resources == all[i].resources,
                decreases rest@.len(),
            {
                let c = rest.pop().unwrap();
                snapshots.push(Snapshot { entities: c.entities, resources: c.resources });
            }
            (snapshot, Some(CheckpointParts { snapshots, active }))
        },
    }
}

/// Which types a builder collects. A type registered as ignored, or as the
/// target side of a relationship, is never collected; in a checkpoint,
/// neither is a type registered as ignored for checkpoints, while a
/// snapshot builder is not affected by that mark. The checkpoint registry
/// only limits checkpoints: a builder that is not building a checkpoint
/// collects an unmarked type exactly when its own filter allows it; a
/// checkpoint builder needs the registry to allow it as well.
pub proof fn law_builder_includes<C, R>(
    builder: Builder<C, R>,
    registry: TypeFilter,
    id: TypeId,
    marks: TypeMarks,
)
    ensures
        marks.ignored || marks.relationship_target ==> !builder.includes(id, marks, Some(registry))
            && !builder.includes(id, marks, None),
        builder.is_checkpoint() && marks.ignore_checkpoint ==> !builder.includes(
            id,
            marks,
            Some(registry),
        ) && !builder.includes(id, marks, None),
        !builder.is_checkpoint() && !marks.ignored && !marks.relationship_target ==> (
        builder.includes(id, marks, Some(registry)) <==> builder.type_filter().allows(id)),
        builder.is_checkpoint() && !marks.ignored && !marks.relationship_target
            && !marks.ignore_checkpoint ==> (builder.includes(id, marks, Some(registry)) <==> (
        builder.type_filter().allows(id) && registry.allows(id))),
        !excluded_by_marks(marks, builder.is_checkpoint()) ==> (builder.includes(id, marks, None)
            <==> builder.type_filter().allows(id)),
{
}

/// The candidates that `keep` accepts, in order.
pub open spec fn kept_candidates<C>(
    cands: Seq<(TypeId, TypeMarks, Option<C>)>,
    keep: spec_fn(TypeId, TypeMarks) -> bool,
) -> Seq<(TypeId, TypeMarks, Option<C>)>
    decreases cands.len(),
{
    if cands.len() == 0 {
        cands
    } else {
        let rest = kept_candidates(cands.drop_last(), keep);
        if keep(cands.last().0, cands.last().1) {
            rest.push(cands.last())
        } else {
            rest
        }
    }
}

/// What a builder does not collect adds nothing to an extracted entity:
/// leaving out every candidate it would refuse (for its type, or for the
/// marks of its type) changes no extracted value. In particular, values of
/// an ignored type never reach a snapshot or checkpoint, and values of a
/// type ignored for checkpoints never reach a checkpoint.
pub proof fn law_excluded_candidates_add_nothing<C, R>(
    builder: Builder<C, R>,
    checkpoints: Option<TypeFilter>,
    cands: Seq<(TypeId, TypeMarks, Option<C>)>,
)
    ensures
        included_values(cands, builder.includes_fn(checkpoints)) == included_values(
            kept_candidates(cands, builder.includes_fn(checkpoints)),
            builder.includes_fn(checkpoints),
        ),
    decreases cands.len(),
{
    if cands.len() > 0 {
        let f = builder.includes_fn(checkpoints);
        let init = cands.drop_last();
        law_excluded_candidates_add_nothing(builder, checkpoints, init);
        let d = kept_candidates(cands, f);
        if f(cands.last().0, cands.last().1) {
            assert(d.drop_last() =~= kept_candidates(init, f));
            assert(d.last() == cands.last());
        }
    }
}

} // verus!
