//! Records that cannot be taken into the reference data.

use vstd::prelude::*;

verus! {

/// The first record of a list that breaks the rules of its kind.
#[derive(Debug, Clone, Copy, PartialEq, Eq, Structural)]
pub struct InvalidRecord {
    /// The place of the record in the list, counted from zero.
    pub index: usize,
}

} // verus!
