//! The universes in which an account or an application can live.

use vstd::prelude::*;

verus! {

/// A universe, in the order of the numbers 0 to 5 by which it is known.
#[derive(Debug, Clone, Copy, PartialEq, Eq, Structural)]
pub enum UniverseType {
    Invalid,
    Public,
    Beta,
    Internal,
    Dev,
    Max,
}

} // verus!
