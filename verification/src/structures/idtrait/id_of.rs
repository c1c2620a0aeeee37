//! [IdOf]
use vstd::prelude::*;

verus! {

/// Something that names a `TValue` by an id.
pub trait IdOf<TValue> {
    /// The id's type.
    type TIdStruct;

    /// The id.
    fn index(&self) -> Self::TIdStruct;
}

} // verus!
