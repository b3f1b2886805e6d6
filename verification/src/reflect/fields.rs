//! Reading the fields of a serialized struct given as a map: each field may
//! come at most once, and the required ones must all come. Reading a map of
//! reflected values: each type may come at most once.

use std::any::TypeId;

use vstd::prelude::*;

use crate::registry::list_contains;

verus! {

/// Why the fields of a struct could not be read, by field position.
#[derive(Clone, Copy, Debug, PartialEq, Eq, Structural)]
pub enum FieldError {
    /// The field came a second time.
    Duplicate(usize),
    /// A required field did not come.
    Missing(usize),
}

/// `n` fields, none of them seen.
pub open spec fn unseen(n: nat) -> Seq<bool> {
    Seq::new(n, |i: int| false)
}

/// The first required field that has not come.
pub open spec fn first_missing(seen: Seq<bool>, required: Seq<bool>) -> Option<int> {
    if exists|i: int| 0 <= i < required.len() && #[trigger] required[i] && !seen[i] {
        Some(
            choose|i: int|
                0 <= i < required.len() && required[i] && !seen[i] && forall|j: int|
                    0 <= j < i ==> #[trigger] required[j] ==> seen[j],
        )
    } else {
        None
    }
}

/// The fields seen after the keys `keys` come in order, starting from
/// `seen`; `None` if a key comes for a field already seen.
pub open spec fn run_keys(seen: Seq<bool>, keys: Seq<usize>) -> Option<Seq<bool>>
    decreases keys.len(),
{
    if keys.len() == 0 {
        Some(seen)
    } else {
        match run_keys(seen, keys.drop_last()) {
            None => None,
            Some(s) => if s[keys.last() as int] {
                None
            } else {
                Some(s.update(keys.last() as int, true))
            },
        }
    }
}

/// Which fields of a struct have come so far, and which are required.
#[derive(Debug)]
pub struct FieldTracker {
    seen: Vec<bool>,
    required: Vec<bool>,
}

impl FieldTracker {
    #[verifier::type_invariant]
    spec fn wf(&self) -> bool {
        self.seen.len() == self.required.len()
    }

    /// For each field, whether it has come.
    pub closed spec fn seen(&self) -> Seq<bool> {
        self.seen@
    }

    /// For each field, whether it is required.
    pub closed spec fn required(&self) -> Seq<bool> {
        self.required@
    }

    /// The number of fields.
    pub open spec fn fields(&self) -> nat {
        self.required().len()
    }

    /// A tracker for a struct whose fields are required as `required` says,
    /// none of them seen yet.
    pub fn new(required: Vec<bool>) -> (r: FieldTracker)
        ensures
            r.required() == required@,
            r.seen() == unseen(required@.len()),
    {
        let mut seen: Vec<bool> = Vec::new();
        let mut i: usize = 0;
        while i < required.len()
            invariant
                i <= required@.len(),
                seen@ == Seq::new(i as nat, |j: int| false),
            decreases required@.len() - i,
        {
            seen.push(false);
            i = i + 1;
            assert(seen@ =~= Seq::new(i as nat, |j: int| false));
        }
        FieldTracker { seen, required }
    }

    /// Records that the key of field `field` came.
    ///
    /// # Errors
    /// - [`FieldError::Duplicate`] if the field came before; nothing changes.
    pub fn key(&mut self, field: usize) -> (r: Result<(), FieldError>)
        requires
            field < old(self).fields(),
        ensures
            final(self).required() == old(self).required(),
            old(self).seen()[field as int] ==> r == Err::<(), FieldError>(
                FieldError::Duplicate(field),
            ) && final(self).seen() == old(self).seen(),
            !old(self).seen()[field as int] ==> r == Ok::<(), FieldError>(())
                && final(self).seen() == old(self).seen().update(field as int, true),
    {
        proof {
            use_type_invariant(&*self);
        }
        if self.seen[field] {
            return Err(FieldError::Duplicate(field));
        }
        let mut taken = FieldTracker { seen: Vec::new(), required: Vec::new() };
        std::mem::swap(&mut taken, self);
        let FieldTracker { mut seen, required } = taken;
        seen.set(field, true);
        *self = FieldTracker { seen, required };
        Ok(())
    }

    /// Checks, once the keys have run out, that every required field came.
    ///
    /// # Errors
    /// - [`FieldError::Missing`] with the first required field that did not
    ///   come.
    pub fn finish(&self) -> (r: Result<(), FieldError>)
        ensures
            match first_missing(self.seen(), self.required()) {
                None => r == Ok::<(), FieldError>(()),
                Some(i) => r == Err::<(), FieldError>(FieldError::Missing(i as usize)),
            },
    {
        proof {
            use_type_invariant(self);
        }
        let mut i: usize = 0;
        while i < self.required.len()
            invariant
                i <= self.required@.len(),
                self.seen@.len() == self.required@.len(),
                forall|j: int| 0 <= j < i ==> #[trigger] self.required@[j] ==> self.seen@[j],
            decreases self.required@.len() - i,
        {
            if self.required[i] && !self.seen[i] {
                proof {
                    let c = choose|c: int|
                        0 <= c < self.required@.len() && self.required@[c] && !self.seen@[c]
                            && forall|j: int|
                            0 <= j < c ==> #[trigger] self.required@[j] ==> self.seen@[j];
                    assert(self.required@[i as int] && !self.seen@[i as int]);
                    if c < i {
                        assert(self.required@[c] ==> self.seen@[c]);
                    }
                    if i < c {
                        assert(self.required@[i as int] ==> self.seen@[i as int]);
                    }
                }
                return Err(FieldError::Missing(i));
            }
            i = i + 1;
        }
        Ok(())
    }
}

/// Keys read from the start accept exactly the key sequences in which no
/// field comes twice, and then the fields seen are those whose key came.
pub proof fn law_keys_accepted_once(n: usize, keys: Seq<usize>)
    requires
        forall|i: int| 0 <= i < keys.len() ==> #[trigger] keys[i] < n,
    ensures
        run_keys(unseen(n as nat), keys) is Some <==> keys.no_duplicates(),
        keys.no_duplicates() ==> forall|f: int|
            0 <= f < n ==> (#[trigger] run_keys(unseen(n as nat), keys)->0[f]
                <==> keys.contains(f as usize)),
        keys.no_duplicates() ==> run_keys(unseen(n as nat), keys)->0.len() == n,
    decreases keys.len(),
{
    let start = unseen(n as nat);
    if keys.len() > 0 {
        let init = keys.drop_last();
        let k = keys.last();
        law_keys_accepted_once(n, init);
        assert(keys[keys.len() - 1] == k);
        if init.no_duplicates() {
            let s = run_keys(start, init)->0;
            if s[k as int] {
                assert(init.contains(k));
                let w = choose|w: int| 0 <= w < init.len() && init[w] == k;
                assert(keys[w] == keys[keys.len() - 1]);
                assert(!keys.no_duplicates());
            } else {
                assert(!init.contains(k));
                assert forall|a: int, b: int|
                    0 <= a < keys.len() && 0 <= b < keys.len() && a != b implies keys[a]
                    != keys[b] by {
                    if a < keys.len() - 1 && b < keys.len() - 1 {
                        assert(init[a] == keys[a] && init[b] == keys[b]);
                    } else if a < keys.len() - 1 {
                        assert(init[a] == keys[a]);
                    } else {
                        assert(init[b] == keys[b]);
                    }
                }
                let s2 = s.update(k as int, true);
                assert forall|f: int| 0 <= f < n implies (#[trigger] s2[f] <==> keys.contains(
                    f as usize,
                )) by {
                    assert(s[f] <==> init.contains(f as usize));
                    if keys.contains(f as usize) {
                        let w = choose|w: int| 0 <= w < keys.len() && keys[w] == f as usize;
                        if w < keys.len() - 1 {
                            assert(init[w] == keys[w]);
                        }
                    }
                    if init.contains(f as usize) {
                        let w = choose|w: int| 0 <= w < init.len() && init[w] == f as usize;
                        assert(keys[w] == init[w]);
                    }
                }
            }
        } else {
            assert(!keys.no_duplicates()) by {
                let (a, b) = choose|a: int, b: int|
                    0 <= a < init.len() && 0 <= b < init.len() && a != b && init[a] == init[b];
                assert(keys[a] == init[a] && keys[b] == init[b]);
            }
        }
    } else {
        assert forall|f: int| 0 <= f < n implies !(#[trigger] start[f]) by {}
    }
}

/// The types met so far in a map of reflected values.
#[derive(Debug)]
pub struct TypeGuard {
    seen: Vec<TypeId>,
}

impl TypeGuard {
    /// The types met so far, in order.
    pub closed spec fn seen(&self) -> Seq<TypeId> {
        self.seen@
    }

    /// A guard that has met no type.
    pub fn new() -> (r: TypeGuard)
        ensures
            r.seen() == Seq::<TypeId>::empty(),
    {
        TypeGuard { seen: Vec::new() }
    }

    /// Records a type; `false` if it was met before, which makes the map a
    /// map with a duplicate type.
    pub fn record(&mut self, id: TypeId) -> (r: bool)
        ensures
            r == !old(self).seen().contains(id),
            final(self).seen() == (if r {
                old(self).seen().push(id)
            } else {
                old(self).seen()
            }),
    {
        if list_contains(&self.seen, &id) {
            false
        } else {
            self.seen.push(id);
            true
        }
    }
}

} // verus!
