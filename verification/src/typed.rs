//! Markers that choose how a statically typed snapshot extracts, applies
//! and serializes each registered type: through reflection (`Dynamic`), the
//! type's own `Clone` and serde impls (`Typed`), or either of them with
//! entity mapping on apply (`Mapped`).

use std::marker::PhantomData;

use vstd::prelude::*;

verus! {

/// Extracts and applies a type through reflection.
pub struct Dynamic<T>(pub PhantomData<T>);

/// Extracts and applies a type through its own `Clone` and serde impls.
pub struct Typed<T>(pub PhantomData<T>);

/// Extracts and applies like `E`, and maps the entities the value refers
/// to when it is applied.
pub struct Mapped<E>(pub PhantomData<E>);

} // verus!
