//! Scenes of saveable entities, each entity kept under its index: the first
//! world entity met with an index is the one kept, and the scene lists its
//! entities in ascending order of index.

use vstd::prelude::*;

use crate::sorted_map::{
    keys_of,
    lemma_insert_sorted,
    lemma_map_of_index,
    map_of,
    sorted_find,
    sorted_insert,
    strictly_ascending,
};
use crate::utils::reversed;

verus! {

/// An entity of a scene: its index and its saveable components.
#[derive(Debug)]
pub struct SaveableEntity<C> {
    /// The index of the entity.
    pub entity: u32,
    /// The saveable components of the entity.
    pub components: Vec<C>,
}

/// A collection of entities, each with its saveable components.
#[derive(Debug)]
pub struct SaveableScene<C> {
    /// The entities, in ascending order of index.
    pub entities: Vec<SaveableEntity<C>>,
}

/// The values that are present, in order.
pub open spec fn present<C>(s: Seq<Option<C>>) -> Seq<C>
    decreases s.len(),
{
    if s.len() == 0 {
        Seq::empty()
    } else {
        let rest = present(s.drop_last());
        match s.last() {
            Some(c) => rest.push(c),
            None => rest,
        }
    }
}

/// Whether `p` is the first position of `indices` holding `k`.
pub open spec fn first_at(indices: Seq<u32>, k: u32, p: int) -> bool {
    0 <= p < indices.len() && indices[p] == k && forall|q: int| 0 <= q < p ==> indices[q] != k
}

/// The first position of `indices` holding `k`.
pub open spec fn first_position(indices: Seq<u32>, k: u32) -> int {
    choose|p: int| first_at(indices, k, p)
}

/// A first position is the only one.
proof fn lemma_first_at_unique(indices: Seq<u32>, k: u32, p: int)
    requires
        first_at(indices, k, p),
    ensures
        first_position(indices, k) == p,
{
    let c = first_position(indices, k);
    assert(first_at(indices, k, c));
    if c < p {
        assert(indices[c] != k);
    }
    if p < c {
        assert(indices[p] != k);
    }
}

/// The indices of the world entities, in order.
pub open spec fn indices_of<C>(world: Seq<(u32, Vec<Option<C>>)>) -> Seq<u32> {
    world.map_values(|e: (u32, Vec<Option<C>>)| e.0)
}

/// The present values of `v`, in order.
fn present_values<C>(v: Vec<Option<C>>) -> (r: Vec<C>)
    ensures
        r@ == present(v@),
{
    let ghost all = v@;
    let total = v.len();
    let mut rest = reversed(v);
    let mut r: Vec<C> = Vec::new();
    let mut i: usize = 0;
    while rest.len() > 0
        invariant
            all.len() == total,
            rest@.len() + i == all.len(),
            forall|j: int| 0 <= j < rest@.len() ==> rest@[j] == all[all.len() - 1 - j],
            r@ == present(all.take(i as int)),
        decreases rest@.len(),
    {
        let x = rest.pop().unwrap();
        proof {
            assert(all.take(i as int + 1).drop_last() =~= all.take(i as int));
            assert(all.take(i as int + 1).last() == x);
        }
        match x {
            Some(c) => r.push(c),
            None => {},
        }
        i = i + 1;
    }
    assert(all.take(all.len() as int) =~= all);
    r
}

impl<C> SaveableScene<C> {
    /// Builds a scene from the world's entities, each given as its index
    /// and, for each of its components, the saveable value extracted from
    /// it if any. Of entities that share an index the first is kept; the
    /// scene lists the kept entities in ascending order of index, each with
    /// the values extracted from it, in order.
    pub fn from_extracted(world: Vec<(u32, Vec<Option<C>>)>) -> (r: SaveableScene<C>)
        ensures
            forall|i: int, j: int|
                0 <= i < j < r.entities@.len() ==> r.entities@[i].entity
                    < r.entities@[j].entity,
            forall|k: u32|
                (exists|i: int| 0 <= i < r.entities@.len() && r.entities@[i].entity == k)
                    <==> indices_of(world@).contains(k),
            forall|i: int|
                0 <= i < r.entities@.len() ==> first_at(
                    indices_of(world@),
                    (#[trigger] r.entities@[i]).entity,
                    first_position(indices_of(world@), r.entities@[i].entity),
                ) && r.entities@[i].components@ == present(
                    world@[first_position(indices_of(world@), r.entities@[i].entity)].1@,
                ),
    {
        let ghost all = world@;
        let ghost idx = indices_of(all);
        let n = world.len();
        // The first position of each index, in ascending order of index.
        let mut firsts: Vec<(u64, usize)> = Vec::new();
        let mut i: usize = 0;
        while i < n
            invariant
                n == all.len(),
                world@ == all,
                idx == indices_of(all),
                i <= n,
                strictly_ascending(keys_of(firsts@)),
                forall|k: u64|
                    #[trigger] map_of(firsts@).contains_key(k) <==> exists|p: int|
                        0 <= p < i && idx[p] as u64 == k,
                forall|k: u64|
                    #[trigger] map_of(firsts@).contains_key(k) ==> k < 0x1_0000_0000 && first_at(
                        idx,
                        k as u32,
                        map_of(firsts@)[k] as int,
                    ) && map_of(firsts@)[k] < i,
            decreases n - i,
        {
            let k = world[i].0 as u64;
            assert(idx[i as int] == world@[i as int].0);
            if sorted_find(&firsts, k).is_none() {
                proof {
                    assert forall|q: int| 0 <= q < i implies idx[q] != k as u32 by {
                        if idx[q] == k as u32 {
                            assert(idx[q] as u64 == k);
                        }
                    }
                }
                sorted_insert(&mut firsts, k, i);
            } else {
                proof {
                    let w = choose|w: int| 0 <= w < firsts@.len() && firsts@[w].0 == k;
                    lemma_map_of_index(firsts@, w);
                }
            }
            i = i + 1;
        }
        // The world's entities, each to be taken once.
        let mut slots: Vec<Option<(u32, Vec<Option<C>>)>> = Vec::new();
        let mut rest = reversed(world);
        while rest.len() > 0
            invariant
                rest@.len() + slots@.len() == all.len(),
                forall|j: int| 0 <= j < rest@.len() ==> rest@[j] == all[all.len() - 1 - j],
                forall|j: int| 0 <= j < slots@.len() ==> slots@[j] == Some(all[j]),
            decreases rest@.len(),
        {
            let e = rest.pop().unwrap();
            slots.push(Some(e));
        }
        let ghost fs = firsts@;
        proof {
            assert forall|j: int| 0 <= j < fs.len() implies #[trigger] fs[j].1 < all.len() by {
                lemma_map_of_index(fs, j);
            }
        }
        let mut entities: Vec<SaveableEntity<C>> = Vec::new();
        let mut t: usize = 0;
        while t < firsts.len()
            invariant
                firsts@ == fs,
                strictly_ascending(keys_of(fs)),
                slots@.len() == all.len(),
                idx == indices_of(all),
                t <= fs.len(),
                entities@.len() == t,
                forall|k: u64|
                    #[trigger] map_of(fs).contains_key(k) <==> exists|p: int|
                        0 <= p < all.len() && idx[p] as u64 == k,
                forall|k: u64|
                    #[trigger] map_of(fs).contains_key(k) ==> k < 0x1_0000_0000 && first_at(
                        idx,
                        k as u32,
                        map_of(fs)[k] as int,
                    ),
                forall|j: int| 0 <= j < fs.len() ==> #[trigger] fs[j].1 < all.len(),
                forall|j: int|
                    t <= j < fs.len() ==> slots@[#[trigger] fs[j].1 as int] == Some(
                        all[fs[j].1 as int],
                    ),
                forall|j: int|
                    0 <= j < t ==> (#[trigger] entities@[j]).entity as u64 == fs[j].0
                        && entities@[j].components@ == present(all[fs[j].1 as int].1@),
            decreases fs.len() - t,
        {
            let (k, p) = firsts[t];
            proof {
                lemma_map_of_index(fs, t as int);
                assert(keys_of(fs)[t as int] == k);
                assert forall|j: int| t < j < fs.len() implies fs[j].1 != p by {
                    lemma_map_of_index(fs, j);
                    assert(keys_of(fs)[j] == fs[j].0);
                    assert(keys_of(fs)[t as int] < keys_of(fs)[j]);
                }
            }
            let mut taken: Option<(u32, Vec<Option<C>>)> = None;
            slots.set_and_swap(p, &mut taken);
            let (index, values) = taken.unwrap();
            proof {
                assert(index == idx[p as int]);
                assert(index as u64 == k);
            }
            let components = present_values(values);
            entities.push(SaveableEntity { entity: index, components });
            t = t + 1;
        }
        let r = SaveableScene { entities };
        assert(all == world@);
        proof {
            assert forall|i: int, j: int| 0 <= i < j < r.entities@.len() implies r.entities@[i].entity
                < r.entities@[j].entity by {
                assert(keys_of(fs)[i] == fs[i].0 && keys_of(fs)[j] == fs[j].0);
            }
            assert forall|k: u32|
                (exists|i: int| 0 <= i < r.entities@.len() && r.entities@[i].entity == k)
                    <==> indices_of(world@).contains(k) by {
                if exists|i: int| 0 <= i < r.entities@.len() && r.entities@[i].entity == k {
                    let i = choose|i: int| 0 <= i < r.entities@.len() && r.entities@[i].entity == k;
                    lemma_map_of_index(fs, i);
                    assert(map_of(fs).contains_key(k as u64));
                    let p = choose|p: int| 0 <= p < all.len() && idx[p] as u64 == k as u64;
                    assert(idx[p] == k);
                }
                if indices_of(world@).contains(k) {
                    let p = choose|p: int| 0 <= p < idx.len() && idx[p] == k;
                    assert(idx[p] as u64 == k as u64);
                    assert(map_of(fs).contains_key(k as u64));
                    let i = choose|i: int| 0 <= i < fs.len() && fs[i].0 == k as u64;
                    assert(r.entities@[i].entity as u64 == k as u64);
                }
            }
            assert forall|i: int| 0 <= i < r.entities@.len() implies first_at(
                indices_of(world@),
                (#[trigger] r.entities@[i]).entity,
                first_position(indices_of(world@), r.entities@[i].entity),
            ) && r.entities@[i].components@ == present(
                world@[first_position(indices_of(world@), r.entities@[i].entity)].1@,
            ) by {
                lemma_map_of_index(fs, i);
                let p = fs[i].1 as int;
                assert(first_at(indices_of(world@), r.entities@[i].entity, p));
                lemma_first_at_unique(indices_of(world@), r.entities@[i].entity, p);
            }
        }
        r
    }
}

} // verus!
