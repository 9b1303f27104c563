//! The tagged value stored in a cache line. A value is immutable once
//! constructed; updates replace it wholesale.

use crate::addr::Addr;
use vstd::prelude::*;

verus! {

/// One cache-line value: a floating-point number, a signed integer, a
/// boolean, or a reference to another address.
///
/// The floating-point variant carries the number as its 32 raw bits, so
/// that the value can be stored and compared without floating-point
/// arithmetic; callers convert at the boundary with `f32::to_bits` and
/// `f32::from_bits`.
#[derive(Debug, Clone, Copy, PartialEq, Eq, Structural)]
pub enum Data {
    Float(u32),
    Int(i32),
    Bool(bool),
    Addr(Addr),
}

} // verus!
