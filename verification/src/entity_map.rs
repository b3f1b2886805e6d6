//! The map from the entities of a snapshot to the entities of the world
//! that applying fills, each entity written as its `u64` bits.

use vstd::prelude::*;

use crate::sorted_map::{
    keys_of,
    lemma_map_of_index,
    map_of,
    sorted_find,
    sorted_insert,
    strictly_ascending,
};

verus! {

/// The entities of `scene` that `m` does not map yet, each once, in the
/// order of their first occurrence: those that applying has to spawn.
pub open spec fn unmapped(m: Map<u64, u64>, scene: Seq<u64>) -> Seq<u64>
    decreases scene.len(),
{
    if scene.len() == 0 {
        Seq::empty()
    } else {
        let rest = unmapped(m, scene.drop_last());
        let x = scene.last();
        if m.contains_key(x) || rest.contains(x) {
            rest
        } else {
            rest.push(x)
        }
    }
}

/// `m` after mapping `sources[j]` to `targets[j]` for each `j < n`, in order.
pub open spec fn with_pairs(m: Map<u64, u64>, sources: Seq<u64>, targets: Seq<u64>, n: nat) -> Map<
    u64,
    u64,
>
    decreases n,
{
    if n == 0 {
        m
    } else {
        with_pairs(m, sources, targets, (n - 1) as nat).insert(
            sources[n - 1],
            targets[n - 1],
        )
    }
}

/// Whether `v` is the target of some entry of `m`.
pub open spec fn is_target(m: Map<u64, u64>, v: u64) -> bool {
    exists|k: u64| #[trigger] m.contains_key(k) && m[k] == v
}

/// `m` after each of its targets is mapped to itself, so that mapping a
/// value twice leaves it where the first mapping put it.
pub open spec fn close_targets(m: Map<u64, u64>) -> Map<u64, u64> {
    Map::new(
        |k: u64| m.contains_key(k) || is_target(m, k),
        |k: u64|
            if is_target(m, k) {
                k
            } else {
                m[k]
            },
    )
}

/// What `unmapped` holds: each entity once, none mapped, and every entity
/// of the scene either mapped or among them.
pub proof fn lemma_unmapped(m: Map<u64, u64>, scene: Seq<u64>)
    ensures
        unmapped(m, scene).no_duplicates(),
        forall|j: int|
            0 <= j < unmapped(m, scene).len() ==> !m.contains_key(#[trigger] unmapped(m, scene)[j])
                && scene.contains(unmapped(m, scene)[j]),
        forall|i: int|
            0 <= i < scene.len() ==> m.contains_key(#[trigger] scene[i]) || unmapped(
                m,
                scene,
            ).contains(scene[i]),
    decreases scene.len(),
{
    if scene.len() > 0 {
        let init = scene.drop_last();
        lemma_unmapped(m, init);
        let rest = unmapped(m, init);
        let u = unmapped(m, scene);
        assert forall|j: int| 0 <= j < u.len() implies !m.contains_key(#[trigger] u[j])
            && scene.contains(u[j]) by {
            if j < rest.len() {
                assert(rest[j] == u[j]);
                let w = choose|w: int| 0 <= w < init.len() && init[w] == rest[j];
                assert(scene[w] == init[w]);
            } else {
                assert(u[j] == scene[scene.len() - 1]);
            }
        }
        assert forall|i: int| 0 <= i < scene.len() implies m.contains_key(#[trigger] scene[i])
            || u.contains(scene[i]) by {
            if i < scene.len() - 1 {
                assert(init[i] == scene[i]);
                if !m.contains_key(scene[i]) {
                    let w = choose|w: int| 0 <= w < rest.len() && rest[w] == init[i];
                    assert(u[w] == rest[w]);
                }
            } else {
                if !m.contains_key(scene[i]) && !rest.contains(scene[i]) {
                    assert(u[u.len() - 1] == scene[i]);
                }
            }
        }
    }
}

/// What `with_pairs` holds when no source comes twice: each source maps to
/// its target, and every other key keeps what `m` gave it.
pub proof fn lemma_with_pairs(m: Map<u64, u64>, sources: Seq<u64>, targets: Seq<u64>, n: nat)
    requires
        sources.no_duplicates(),
        n <= sources.len(),
        n <= targets.len(),
    ensures
        forall|j: int|
            0 <= j < n ==> #[trigger] with_pairs(m, sources, targets, n).contains_key(sources[j])
                && with_pairs(m, sources, targets, n)[sources[j]] == targets[j],
        forall|k: u64|
            !sources.take(n as int).contains(k) ==> (#[trigger] with_pairs(
                m,
                sources,
                targets,
                n,
            ).contains_key(k) == m.contains_key(k)) && (m.contains_key(k) ==> with_pairs(
                m,
                sources,
                targets,
                n,
            )[k] == m[k]),
    decreases n,
{
    if n > 0 {
        let p = (n - 1) as nat;
        lemma_with_pairs(m, sources, targets, p);
        assert forall|k: u64| !sources.take(n as int).contains(k) implies !sources.take(
            p as int,
        ).contains(k) && k != sources[p as int] by {
            if sources.take(p as int).contains(k) {
                let w = choose|w: int| 0 <= w < p && sources.take(p as int)[w] == k;
                assert(sources.take(n as int)[w] == k);
            }
            assert(sources.take(n as int)[p as int] == sources[p as int]);
        }
        let prev = with_pairs(m, sources, targets, p);
        let cur = with_pairs(m, sources, targets, n);
        assert(cur == prev.insert(sources[p as int], targets[p as int]));
        assert forall|j: int| 0 <= j < n implies #[trigger] cur.contains_key(sources[j])
            && cur[sources[j]] == targets[j] by {
            if j < p {
                assert(sources[j] != sources[p as int]);
                assert(prev.contains_key(sources[j]));
            }
        }
        assert forall|k: u64| !sources.take(n as int).contains(k) implies (#[trigger] cur.contains_key(
            k,
        ) == m.contains_key(k)) && (m.contains_key(k) ==> cur[k] == m[k]) by {
            assert(!sources.take(p as int).contains(k) && k != sources[p as int]);
            assert(prev.contains_key(k) == m.contains_key(k));
        }
    }
}

/// A value in `v`, found by walking it.
fn contains_entity(v: &Vec<u64>, x: u64) -> (r: bool)
    ensures
        r == v@.contains(x),
{
    let mut i: usize = 0;
    while i < v.len()
        invariant
            i <= v.len(),
            forall|j: int| 0 <= j < i ==> v@[j] != x,
        decreases v.len() - i,
    {
        if v[i] == x {
            return true;
        }
        i = i + 1;
    }
    false
}

/// A map from snapshot entities to world entities, one target per source.
///
/// Entities stand here as their `u64` bits, so the map is keyed by integers
/// rather than by entity values; its entries are kept in ascending order of
/// source, which gives them a fixed order when they are listed.
#[derive(Debug)]
pub struct EntityMap {
    entries: Vec<(u64, u64)>,
}

impl View for EntityMap {
    type V = Map<u64, u64>;

    closed spec fn view(&self) -> Map<u64, u64> {
        map_of(self.entries@)
    }
}

impl EntityMap {
    #[verifier::type_invariant]
    spec fn wf(&self) -> bool {
        strictly_ascending(keys_of(self.entries@))
    }

    /// An empty map.
    pub fn new() -> (r: Self)
        ensures
            r@ == Map::<u64, u64>::empty(),
    {
        let r = EntityMap { entries: Vec::new() };
        assert(r@ =~= Map::<u64, u64>::empty());
        r
    }

    /// The world entity that `source` maps to, if any.
    pub fn get(&self, source: u64) -> (r: Option<u64>)
        ensures
            r == (if self@.contains_key(source) {
                Some(self@[source])
            } else {
                None::<u64>
            }),
    {
        proof {
            use_type_invariant(self);
        }
        match sorted_find(&self.entries, source) {
            Some(i) => {
                proof {
                    lemma_map_of_index(self.entries@, i as int);
                }
                Some(self.entries[i].1)
            },
            None => None,
        }
    }

    /// Whether `source` is mapped.
    pub fn contains(&self, source: u64) -> (r: bool)
        ensures
            r == self@.contains_key(source),
    {
        self.get(source).is_some()
    }

    /// Maps `source` to `target`, replacing an earlier target of `source`.
    pub fn insert(&mut self, source: u64, target: u64)
        ensures
            final(self)@ == old(self)@.insert(source, target),
    {
        proof {
            use_type_invariant(&*self);
        }
        let mut entries = Vec::new();
        std::mem::swap(&mut entries, &mut self.entries);
        sorted_insert(&mut entries, source, target);
        self.entries = entries;
    }

    /// The entries, in ascending order of source.
    pub fn pairs(&self) -> (r: Vec<(u64, u64)>)
        ensures
            map_of(r@) == self@,
            strictly_ascending(keys_of(r@)),
    {
        proof {
            use_type_invariant(self);
        }
        let mut r: Vec<(u64, u64)> = Vec::new();
        let mut i: usize = 0;
        while i < self.entries.len()
            invariant
                i <= self.entries@.len(),
                r@ == self.entries@.take(i as int),
            decreases self.entries@.len() - i,
        {
            r.push(self.entries[i]);
            i = i + 1;
            assert(r@ =~= self.entries@.take(i as int));
        }
        assert(r@ =~= self.entries@);
        r
    }

    /// The entities of `scene` that are not mapped yet, each once, in the
    /// order of their first occurrence.
    pub fn missing(&self, scene: &Vec<u64>) -> (r: Vec<u64>)
        ensures
            r@ == unmapped(self@, scene@),
    {
        let mut r: Vec<u64> = Vec::new();
        let mut i: usize = 0;
        while i < scene.len()
            invariant
                i <= scene@.len(),
                r@ == unmapped(self@, scene@.take(i as int)),
            decreases scene@.len() - i,
        {
            let x = scene[i];
            proof {
                assert(scene@.take(i as int + 1).drop_last() =~= scene@.take(i as int));
                assert(scene@.take(i as int + 1).last() == x);
            }
            if !self.contains(x) && !contains_entity(&r, x) {
                r.push(x);
            }
            i = i + 1;
        }
        assert(scene@.take(scene@.len() as int) =~= scene@);
        r
    }

    /// Maps each of `sources` to the target at the same position.
    pub fn insert_spawned(&mut self, sources: &Vec<u64>, targets: &Vec<u64>)
        requires
            sources@.len() == targets@.len(),
        ensures
            final(self)@ == with_pairs(old(self)@, sources@, targets@, sources@.len()),
    {
        let mut i: usize = 0;
        while i < sources.len()
            invariant
                i <= sources@.len(),
                sources@.len() == targets@.len(),
                self@ == with_pairs(old(self)@, sources@, targets@, i as nat),
            decreases sources@.len() - i,
        {
            self.insert(sources[i], targets[i]);
            i = i + 1;
        }
    }

    /// Maps each target of the map to itself, so that an entity already
    /// mapped into the world is not mapped again.
    pub fn close_targets(&mut self)
        ensures
            final(self)@ == close_targets(old(self)@),
    {
        proof {
            use_type_invariant(&*self);
        }
        let ghost m = self@;
        let ghost es = self.entries@;
        let mut targets: Vec<u64> = Vec::new();
        let mut i: usize = 0;
        while i < self.entries.len()
            invariant
                self.entries@ == es,
                i <= es.len(),
                targets@.len() == i,
                forall|j: int| 0 <= j < i ==> targets@[j] == #[trigger] es[j].1,
            decreases es.len() - i,
        {
            targets.push(self.entries[i].1);
            i = i + 1;
        }
        let mut t: usize = 0;
        while t < targets.len()
            invariant
                t <= targets@.len(),
                forall|k: u64|
                    #![trigger self@.contains_key(k)]
                    self@.contains_key(k) == (m.contains_key(k) || targets@.take(
                        t as int,
                    ).contains(k)),
                forall|k: u64|
                    #![trigger self@[k]]
                    self@.contains_key(k) ==> self@[k] == (if targets@.take(t as int).contains(k) {
                        k
                    } else {
                        m[k]
                    }),
            decreases targets@.len() - t,
        {
            let v = targets[t];
            self.insert(v, v);
            proof {
                let before = targets@.take(t as int);
                let after = targets@.take(t as int + 1);
                assert forall|k: u64| #[trigger] after.contains(k) == (before.contains(k) || k
                    == v) by {
                    if after.contains(k) {
                        let w = choose|w: int| 0 <= w < after.len() && after[w] == k;
                        if w < t {
                            assert(before[w] == k);
                        }
                    }
                    if before.contains(k) {
                        let w = choose|w: int| 0 <= w < before.len() && before[w] == k;
                        assert(after[w] == k);
                    }
                    if k == v {
                        assert(after[t as int] == k);
                    }
                }
            }
            t = t + 1;
        }
        proof {
            assert(targets@.take(targets@.len() as int) =~= targets@);
            assert forall|k: u64| #[trigger] targets@.contains(k) == is_target(m, k) by {
                if targets@.contains(k) {
                    let w = choose|w: int| 0 <= w < targets@.len() && targets@[w] == k;
                    lemma_map_of_index(es, w);
                    assert(m.contains_key(es[w].0));
                }
                if is_target(m, k) {
                    let kk = choose|kk: u64| #[trigger] m.contains_key(kk) && m[kk] == k;
                    let w = choose|w: int| 0 <= w < es.len() && es[w].0 == kk;
                    lemma_map_of_index(es, w);
                    assert(targets@[w] == k);
                }
            }
            assert(self@ =~= close_targets(m));
        }
    }
}

/// Preparing the map for a scene: after the entities that `missing` lists
/// are mapped to as many spawned entities, every entity of the scene is
/// mapped, each spawned entity is the target of the entity it was spawned
/// for, and every entity mapped before keeps its target.
pub proof fn law_prepared_map_covers_scene(m: Map<u64, u64>, scene: Seq<u64>, spawned: Seq<u64>)
    requires
        spawned.len() == unmapped(m, scene).len(),
    ensures
        forall|i: int|
            0 <= i < scene.len() ==> #[trigger] with_pairs(
                m,
                unmapped(m, scene),
                spawned,
                spawned.len(),
            ).contains_key(scene[i]),
        forall|j: int|
            0 <= j < spawned.len() ==> with_pairs(m, unmapped(m, scene), spawned, spawned.len())[
            #[trigger] unmapped(m, scene)[j]] == spawned[j],
        forall|k: u64|
            #[trigger] m.contains_key(k) ==> with_pairs(
                m,
                unmapped(m, scene),
                spawned,
                spawned.len(),
            ).contains_key(k) && with_pairs(m, unmapped(m, scene), spawned, spawned.len())[k]
                == m[k],
{
    let u = unmapped(m, scene);
    let n = spawned.len();
    lemma_unmapped(m, scene);
    lemma_with_pairs(m, u, spawned, n);
    assert(u.take(n as int) =~= u);
    assert forall|i: int| 0 <= i < scene.len() implies #[trigger] with_pairs(
        m,
        u,
        spawned,
        n,
    ).contains_key(scene[i]) by {
        if u.contains(scene[i]) {
            let w = choose|w: int| 0 <= w < u.len() && u[w] == scene[i];
            assert(with_pairs(m, u, spawned, n).contains_key(u[w]));
        }
    }
    assert forall|j: int| 0 <= j < n implies with_pairs(m, u, spawned, n)[#[trigger] u[j]]
        == spawned[j] by {
        assert(with_pairs(m, u, spawned, n).contains_key(u[j]));
    }
    assert forall|k: u64| #[trigger] m.contains_key(k) implies with_pairs(
        m,
        u,
        spawned,
        n,
    ).contains_key(k) && with_pairs(m, u, spawned, n)[k] == m[k] by {
        if u.contains(k) {
            let w = choose|w: int| 0 <= w < u.len() && u[w] == k;
            assert(!m.contains_key(u[w]));
        }
    }
}

/// Mapping targets to themselves once is enough: doing it again changes
/// nothing.
pub proof fn law_close_targets_idempotent(m: Map<u64, u64>)
    ensures
        close_targets(close_targets(m)) == close_targets(m),
{
    let c = close_targets(m);
    assert forall|v: u64| is_target(c, v) == is_target(m, v) by {
        if is_target(m, v) {
            assert(c.contains_key(v) && c[v] == v);
        }
        if is_target(c, v) {
            let k = choose|k: u64| #[trigger] c.contains_key(k) && c[k] == v;
            if !is_target(m, k) {
                assert(m.contains_key(k) && m[k] == v);
            }
        }
    }
    assert(close_targets(c) =~= c);
}

} // verus!
