//! Failure conditions of the engine.

use vstd::prelude::*;

verus! {

/// A tag was queried or unioned in the global index without prior
/// introduction. This is always a caller-contract violation by the
/// instrumentation layer (a tag produced by neither minting path); the
/// engine cannot recover from it, so it is
/// surfaced to the caller rather than swallowed.
#[derive(Clone, Copy, PartialEq, Eq, Debug, Structural)]
pub struct UnknownTag;

} // verus!
