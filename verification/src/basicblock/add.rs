//! Element-wise addition and subtraction with broadcasting.  Their
//! witnesses are computed by the tensor library in the application layer.
use vstd::prelude::*;

verus! {

/// `c = a + b`, element-wise with broadcasting.
#[derive(Clone, Debug)]
pub struct Add;

/// `c = a - b`, element-wise with broadcasting.
#[derive(Clone, Debug)]
pub struct Sub;

} // verus!
