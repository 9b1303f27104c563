//! Cache-line addresses: opaque, totally ordered keys wrapping a
//! non-negative integer. The parity of the wrapped value drives which end of
//! the eviction queue is sacrificed when the cache is full.

use vstd::prelude::*;

verus! {

/// A memory address. The wrapped integer is totally ordered and its parity
/// is semantically significant to the cache's eviction policy.
#[derive(Debug, Clone, Copy, PartialEq, Eq, Structural)]
pub struct Addr(pub usize);

impl Addr {
    /// The numeric value of the address.
    pub fn value(&self) -> (v: usize)
        ensures
            v == self.0,
    {
        self.0
    }

    /// Historical name: despite it, this predicate holds exactly for
    /// addresses with an even numeric value. The eviction policy is defined
    /// by this behaviour, not by the name.
    #[inline]
    pub fn is_odd(&self) -> (r: bool)
        ensures
            r == (self.0 % 2 == 0),
    {
        self.0 % 2 == 0
    }

    /// The complement of [`Addr::is_odd`]: holds exactly for addresses with
    /// an odd numeric value.
    #[inline]
    pub fn is_even(&self) -> (r: bool)
        ensures
            r == (self.0 % 2 != 0),
    {
        !self.is_odd()
    }
}

impl From<usize> for Addr {
    fn from(value: usize) -> (a: Self) {
        Addr(value)
    }
}

impl vstd::std_specs::convert::FromSpecImpl<usize> for Addr {
    open spec fn obeys_from_spec() -> bool {
        true
    }

    open spec fn from_spec(value: usize) -> Self {
        Addr(value)
    }
}

} // verus!
