use vstd::prelude::*;

pub mod consts;
pub mod bits;
pub mod attacks;
pub mod position;
pub mod movegen;
pub mod soundness;

verus! {

} // verus!
