//! Names shared by the other modules.
use vstd::prelude::*;

verus! {

/// The index of a packet field.
pub type Field = u32;

} // verus!
