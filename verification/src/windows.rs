//! The Windows back end's state: the target process and the search cache.

use crate::ext::Cache;
use vstd::prelude::*;

verus! {

/// A process opened for memory access: its id and its handle.
#[derive(Debug, Default, Clone, Copy)]
pub struct WinProc {
    pub pid: u32,
    pub hprocess: isize,
}

/// A Windows process under search.
pub struct Windows {
    pub proc: WinProc,
    pub cache: Cache,
}

impl Windows {
    /// Sets the value searched for to a copy of `v`.
    pub fn input(&mut self, v: &[u8])
        ensures
            final(self).cache.input@ == v@,
            final(self).cache.maps@ == old(self).cache.maps@,
            final(self).cache.addr@ == old(self).cache.addr@,
            final(self).proc == old(self).proc,
    {
        self.cache.input = vstd::slice::slice_to_vec(v);
    }
}

} // verus!
