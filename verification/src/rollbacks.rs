//! The ordered store of checkpoints that can be rolled back and forward.

use vstd::prelude::*;

verus! {

/// `x` limited to the range `lo..=hi`.
pub open spec fn clamp(x: int, lo: int, hi: int) -> int {
    if x < lo {
        lo
    } else if x > hi {
        hi
    } else {
        x
    }
}

/// How many checkpoints stay when a new one is inserted: those up to and
/// including the active one (the first one, when none is active).
pub open spec fn kept_on_checkpoint(len: int, active: Option<int>) -> int {
    let wanted = match active {
        Some(a) => a + 1,
        None => 1,
    };
    if wanted < len {
        wanted
    } else {
        len
    }
}

/// The store after inserting `t`: everything after the active checkpoint is
/// dropped, `t` is appended and becomes the active one.
pub open spec fn after_checkpoint<T>(cps: Seq<T>, active: Option<int>, t: T) -> (
    Seq<T>,
    Option<int>,
) {
    let keep = kept_on_checkpoint(cps.len() as int, active);
    (cps.take(keep).push(t), Some(keep))
}

/// The active index after rolling back `n` checkpoints from `active` in a
/// store of `len` checkpoints (negative `n` rolls forward), clamped to the
/// valid indices.
pub open spec fn rolled_to(len: int, active: int, n: int) -> int {
    clamp(active - n, 0, len - 1)
}

/// The store after `rollback(n)`, with what it returns: unchanged with
/// `None` when no checkpoint is active, else the clamped index becomes active
/// and its checkpoint is returned.
pub open spec fn after_rollback<T>(cps: Seq<T>, active: Option<int>, n: int) -> (
    (Seq<T>, Option<int>),
    Option<T>,
) {
    match active {
        None => ((cps, None), None),
        Some(a) => {
            let new = rolled_to(cps.len() as int, a, n);
            ((cps, Some(new)), Some(cps[new]))
        },
    }
}

/// A store state is consistent when an active index implies there is at
/// least one checkpoint.
pub open spec fn consistent<T>(cps: Seq<T>, active: Option<int>) -> bool {
    &&& active is Some ==> cps.len() > 0
    &&& active matches Some(a) ==> a >= 0
}

/// The global registry of snapshots used for rollback / rollforward.
pub struct Rollbacks<T> {
    checkpoints: Vec<T>,
    active: Option<usize>,
}

impl<T> Rollbacks<T> {
    #[verifier::type_invariant]
    spec fn wf(&self) -> bool {
        self.active is Some ==> self.checkpoints.len() > 0
    }

    /// The stored checkpoints, oldest first.
    pub closed spec fn checkpoints(&self) -> Seq<T> {
        self.checkpoints@
    }

    /// The index of the active checkpoint, if any.
    pub closed spec fn active(&self) -> Option<int> {
        match self.active {
            Some(a) => Some(a as int),
            None => None,
        }
    }

    /// An empty store: no checkpoints, none active.
    pub fn new() -> (r: Self)
        ensures
            r.checkpoints() == Seq::<T>::empty(),
            r.active() is None,
            consistent(r.checkpoints(), r.active()),
    {
        Rollbacks { checkpoints: Vec::new(), active: None }
    }

    /// Rebuilds a store from its stored checkpoints and active index, as
    /// read back from a save.
    ///
    /// Returns `None` for an active index without any checkpoint, the one
    /// state on which rolling back cannot pick a checkpoint. An active index
    /// past the end is kept: rolling back clamps it.
    pub fn from_parts(checkpoints: Vec<T>, active: Option<usize>) -> (r: Option<Self>)
        ensures
            r is None <==> (active is Some && checkpoints@.len() == 0),
            r matches Some(s) ==> s.checkpoints() == checkpoints@ && s.active() == match active {
                Some(a) => Some(a as int),
                None => None::<int>,
            } && consistent(s.checkpoints(), s.active()),
    {
        if active.is_some() && checkpoints.len() == 0 {
            None
        } else {
            Some(Rollbacks { checkpoints, active })
        }
    }

    /// Returns true if no checkpoints have been created.
    pub fn is_empty(&self) -> (r: bool)
        ensures
            r == (self.checkpoints().len() == 0),
    {
        self.checkpoints.len() == 0
    }

    /// The number of stored checkpoints.
    pub fn len(&self) -> (r: usize)
        ensures
            r == self.checkpoints().len(),
    {
        self.checkpoints.len()
    }

    /// The index of the active checkpoint, if any.
    pub fn active_index(&self) -> (r: Option<usize>)
        ensures
            match r {
                Some(a) => self.active() == Some(a as int),
                None => self.active() is None,
            },
    {
        self.active
    }

    /// The stored checkpoints, oldest first.
    pub fn checkpoint_slice(&self) -> (r: &[T])
        ensures
            r@ == self.checkpoints(),
    {
        self.checkpoints.as_slice()
    }

    /// Given a new checkpoint, insert it and set it as the currently active
    /// rollback.
    ///
    /// If you rollback and then insert a checkpoint, it will erase all
    /// rollforward snapshots.
    pub fn checkpoint(&mut self, rollback: T)
        ensures
            (final(self).checkpoints(), final(self).active()) == after_checkpoint(
                old(self).checkpoints(),
                old(self).active(),
                rollback,
            ),
            consistent(final(self).checkpoints(), final(self).active()),
    {
        proof {
            use_type_invariant(&*self);
        }
        let active = match self.active {
            Some(a) => a,
            None => 0,
        };
        self.active = None;
        let mut cps: Vec<T> = Vec::new();
        std::mem::swap(&mut cps, &mut self.checkpoints);
        if active < cps.len() {
            cps.truncate(active + 1);
        }
        cps.push(rollback);
        let last = cps.len() - 1;
        proof {
            let old_cps = old(self).checkpoints();
            let keep = kept_on_checkpoint(old_cps.len() as int, old(self).active());
            assert(cps@ =~= old_cps.take(keep).push(rollback));
        }
        self.checkpoints = cps;
        self.active = Some(last);
    }

    /// Rolls back the given number of checkpoints.
    ///
    /// If checkpoints is negative, it rolls forward.
    ///
    /// This function will always clamp itself to valid rollbacks.
    /// Rolling back or further farther than what is valid will just return
    /// the oldest / newest snapshot.
    pub fn rollback(&mut self, checkpoints: isize) -> (r: Option<&T>)
        ensures
            ({
                let (state, out) = after_rollback(
                    old(self).checkpoints(),
                    old(self).active(),
                    checkpoints as int,
                );
                &&& (final(self).checkpoints(), final(self).active()) == state
                &&& match r {
                    Some(t) => out == Some(*t),
                    None => out is None,
                }
            }),
            consistent(final(self).checkpoints(), final(self).active()),
    {
        proof {
            use_type_invariant(&*self);
        }
        match self.active {
            None => None,
            Some(active) => {
                let len = self.checkpoints.len();
                let raw: i128 = active as i128 - checkpoints as i128;
                let last: i128 = len as i128 - 1;
                let new: usize = if raw < 0 {
                    0
                } else if raw > last {
                    (len - 1) as usize
                } else {
                    raw as usize
                };
                self.active = Some(new);
                Some(&self.checkpoints[new])
            },
        }
    }
}

impl<T> Default for Rollbacks<T> {
    fn default() -> (r: Self)
        ensures
            r.checkpoints() == Seq::<T>::empty(),
            r.active() is None,
    {
        Rollbacks::new()
    }
}

/// Rolling back zero checkpoints returns the active checkpoint and changes
/// nothing.
pub proof fn law_rollback_zero_is_identity<T>(cps: Seq<T>, active: Option<int>)
    requires
        consistent(cps, active),
        active matches Some(a) ==> a < cps.len(),
    ensures
        after_rollback(cps, active, 0).0 == (cps, active),
        active matches Some(a) ==> after_rollback(cps, active, 0).1 == Some(cps[a]),
{
}

/// The checkpoint just inserted is the active one: rolling back zero
/// returns it.
pub proof fn law_checkpoint_then_current<T>(cps: Seq<T>, active: Option<int>, t: T)
    requires
        consistent(cps, active),
    ensures
        ({
            let (c2, a2) = after_checkpoint(cps, active, t);
            &&& consistent(c2, a2)
            &&& after_rollback(c2, a2, 0).1 == Some(t)
            &&& after_rollback(c2, a2, 0).0 == (c2, a2)
        }),
{
    let (c2, a2) = after_checkpoint(cps, active, t);
    let keep = kept_on_checkpoint(cps.len() as int, active);
    assert(c2.len() == keep + 1);
    assert(c2[keep] == t);
}

/// Rolling back never leaves the stored checkpoints: the active index after
/// a rollback is always a valid index, whatever the count.
pub proof fn law_rollback_clamps<T>(cps: Seq<T>, active: Option<int>, n: int)
    requires
        consistent(cps, active),
    ensures
        after_rollback(cps, active, n).0.1 matches Some(b) ==> 0 <= b < cps.len(),
        after_rollback(cps, active, n).0.0 == cps,
        (after_rollback(cps, active, n).1 is None) <==> (active is None),
{
}

/// Rolling back `n` and then forward `n` returns to the same checkpoint when
/// the first move stayed within the stored checkpoints.
pub proof fn law_rollback_then_forward<T>(cps: Seq<T>, a: int, n: int)
    requires
        consistent(cps, Some(a)),
        0 <= a - n < cps.len(),
        a < cps.len(),
    ensures
        ({
            let (s1, _) = after_rollback(cps, Some(a), n);
            &&& s1 == (cps, Some(a - n))
            &&& after_rollback(s1.0, s1.1, -n) == ((cps, Some(a)), Some(cps[a]))
        }),
{
}

/// Two rollbacks are one rollback by the sum when they go the same way,
/// or, in either direction, when the first one is not clamped.
pub proof fn law_rollbacks_compose<T>(cps: Seq<T>, active: Option<int>, n: int, m: int)
    requires
        consistent(cps, active),
        active matches Some(a) ==> a < cps.len(),
        (n >= 0 && m >= 0) || (n <= 0 && m <= 0) || (active matches Some(a) && 0 <= a - n
            < cps.len()),
    ensures
        ({
            let (s1, _) = after_rollback(cps, active, n);
            after_rollback(s1.0, s1.1, m) == after_rollback(cps, active, n + m)
        }),
{
}

/// Inserting a checkpoint after rolling back erases the checkpoints that
/// could have been rolled forward to: rolling forward any amount afterwards
/// returns the new checkpoint, and the store holds the checkpoints up to the
/// one rolled back to, then the new one.
pub proof fn law_checkpoint_erases_rollforward<T>(
    cps: Seq<T>,
    a: int,
    n: int,
    t: T,
    k: int,
)
    requires
        consistent(cps, Some(a)),
        a < cps.len(),
        k >= 0,
    ensures
        ({
            let (s1, _) = after_rollback(cps, Some(a), n);
            let b = rolled_to(cps.len() as int, a, n);
            let (c2, a2) = after_checkpoint(s1.0, s1.1, t);
            &&& c2 == cps.take(b + 1).push(t)
            &&& after_rollback(c2, a2, -k).1 == Some(t)
        }),
{
    let b = rolled_to(cps.len() as int, a, n);
    let (c2, a2) = after_checkpoint(cps, Some(b), t);
    assert(c2.len() == b + 2);
    assert(c2[b + 1] == t);
}

} // verus!
