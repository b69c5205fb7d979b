//! Provides `Lock` trait

use vstd::prelude::*;

verus! {

/// Primitive lock trait
pub trait Lock {
    /// Unlocks the lock
    fn unlock(self);
}

} // verus!
