//! One cache line: an address, its value, and a dirty bit.

use crate::addr::Addr;
use crate::data::Data;
use vstd::prelude::*;

verus! {

/// A cache entry. `sync` records whether the stored value still matches the
/// conceptual backing store: a freshly created entry is in sync, and a write
/// that overwrites the value desynchronizes it.
#[derive(Debug, Clone, Copy, PartialEq, Eq, Structural)]
pub struct Elem {
    pub addr: Addr,
    pub data: Data,
    pub sync: bool,
}

impl Elem {
    /// A fresh entry, in sync with main memory.
    pub fn new(addr: Addr, data: Data) -> (e: Self)
        ensures
            e == (Elem { addr, data, sync: true }),
    {
        Elem { addr, data, sync: true }
    }

    /// Mark the entry as diverging from the backing store.
    #[inline]
    pub fn desync(&mut self)
        ensures
            *final(self) == (Elem { sync: false, ..*old(self) }),
    {
        self.sync = false;
    }

    /// The stored value.
    #[inline]
    pub fn data(&self) -> (d: &Data)
        ensures
            *d == self.data,
    {
        &self.data
    }

    /// The entry's address.
    #[inline]
    pub fn addr(&self) -> (a: Addr)
        ensures
            a == self.addr,
    {
        self.addr
    }
}

} // verus!
