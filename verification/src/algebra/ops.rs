//! The tags that tell the additive from the multiplicative operation.

use vstd::prelude::*;

verus! {

/// Tag of the additive operation.
pub struct Add;

/// Tag of the multiplicative operation.
pub struct Mul;

} // verus!
