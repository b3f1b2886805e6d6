//! Borrowed-or-owned values.

use vstd::prelude::*;

verus! {

/// Borrowed or owned value
#[derive(Debug)]
pub enum MaybeRef<'a, T> {
    /// Owned value
    Owned(T),
    /// Reference to value
    Borrowed(&'a T),
}

impl<'a, T> MaybeRef<'a, T> {
    /// The value, owned or borrowed.
    pub open spec fn value(&self) -> T {
        match self {
            MaybeRef::Owned(v) => *v,
            MaybeRef::Borrowed(v) => **v,
        }
    }

    /// A reference to the value, whether owned or borrowed.
    pub fn get(&self) -> (r: &T)
        ensures
            *r == self.value(),
    {
        match self {
            MaybeRef::Owned(value) => value,
            MaybeRef::Borrowed(value) => value,
        }
    }
}

impl<T> MaybeRef<'static, T> {
    /// Converts the [`MaybeRef`] into an owned value.
    ///
    /// # Errors
    /// - If the value is not owned
    pub fn try_into_owned(self) -> (r: Result<T, Self>)
        ensures
            match self {
                MaybeRef::Owned(v) => r == Ok::<T, Self>(v),
                MaybeRef::Borrowed(_) => r == Err::<T, Self>(self),
            },
    {
        if let MaybeRef::Owned(value) = self {
            Ok(value)
        } else {
            Err(self)
        }
    }
}

impl<T> std::ops::Deref for MaybeRef<'_, T> {
    type Target = T;

    fn deref(&self) -> (r: &Self::Target)
        ensures
            *r == self.value(),
    {
        self.get()
    }
}

impl<T> From<T> for MaybeRef<'static, T> {
    fn from(value: T) -> (r: Self)
        ensures
            r == MaybeRef::<'static, T>::Owned(value),
    {
        MaybeRef::Owned(value)
    }
}

impl<T> vstd::std_specs::convert::FromSpecImpl<T> for MaybeRef<'static, T> {
    open spec fn obeys_from_spec() -> bool {
        true
    }

    open spec fn from_spec(v: T) -> Self {
        MaybeRef::Owned(v)
    }
}

impl<'a, T> From<&'a T> for MaybeRef<'a, T> {
    fn from(value: &'a T) -> (r: Self)
        ensures
            r == MaybeRef::<'a, T>::Borrowed(value),
    {
        MaybeRef::Borrowed(value)
    }
}

impl<'a, T> vstd::std_specs::convert::FromSpecImpl<&'a T> for MaybeRef<'a, T> {
    open spec fn obeys_from_spec() -> bool {
        true
    }

    open spec fn from_spec(v: &'a T) -> Self {
        MaybeRef::Borrowed(v)
    }
}

/// Mutably borrowed or owned value
pub enum MaybeMut<'a, T> {
    /// Owned value
    Owned(T),
    /// Mutable reference to value
    Mut(&'a mut T),
}

impl<'a, T> MaybeMut<'a, T> {
    /// The value, owned or mutably borrowed.
    pub open spec fn value(&self) -> T {
        match self {
            MaybeMut::Owned(v) => *v,
            MaybeMut::Mut(v) => **v,
        }
    }

    /// A reference to the value, whether owned or borrowed.
    pub fn get(&self) -> (r: &T)
        ensures
            *r == self.value(),
    {
        match self {
            MaybeMut::Owned(value) => value,
            MaybeMut::Mut(value) => value,
        }
    }
}

impl<T> std::ops::Deref for MaybeMut<'_, T> {
    type Target = T;

    fn deref(&self) -> (r: &Self::Target)
        ensures
            *r == self.value(),
    {
        self.get()
    }
}

impl<'a, T: Default> Default for MaybeMut<'a, T> {
    fn default() -> (r: Self)
        ensures
            r is Owned,
    {
        MaybeMut::Owned(T::default())
    }
}

impl<T> From<T> for MaybeMut<'static, T> {
    fn from(value: T) -> (r: Self)
        ensures
            r == MaybeMut::<'static, T>::Owned(value),
    {
        MaybeMut::Owned(value)
    }
}

impl<T> vstd::std_specs::convert::FromSpecImpl<T> for MaybeMut<'static, T> {
    open spec fn obeys_from_spec() -> bool {
        true
    }

    open spec fn from_spec(v: T) -> Self {
        MaybeMut::Owned(v)
    }
}

/// The elements of `v` in reverse order.
pub(crate) fn reversed<T>(v: Vec<T>) -> (r: Vec<T>)
    ensures
        r@.len() == v@.len(),
        forall|j: int| 0 <= j < v@.len() ==> r@[j] == v@[v@.len() - 1 - j],
{
    let ghost all = v@;
    let mut v = v;
    let mut r: Vec<T> = Vec::new();
    while v.len() > 0
        invariant
            v@.len() + r@.len() == all.len(),
            v@ == all.take(v@.len() as int),
            forall|j: int| 0 <= j < r@.len() ==> r@[j] == all[all.len() - 1 - j],
        decreases v@.len(),
    {
        let x = v.pop().unwrap();
        proof {
            assert(all.take(v@.len() as int) =~= all.take(v@.len() as int + 1).drop_last());
        }
        r.push(x);
    }
    r
}

} // verus!
