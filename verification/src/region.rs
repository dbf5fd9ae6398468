//! Common views of a mapped memory region.

use crate::text::{byte_at, byte_slot_ok};
use vstd::prelude::*;

verus! {

/// The bounds of a memory region.
pub trait RegionExt {
    fn size(&self) -> usize;

    fn start(&self) -> usize;

    fn end(&self) -> usize;
}

/// The bounds, permissions and path of a memory region.
pub trait InfoExt {
    spec fn spec_start(&self) -> int;

    spec fn spec_end(&self) -> int;

    spec fn spec_flags(&self) -> Seq<char>;

    spec fn spec_pathname(&self) -> Seq<char>;

    /// Length of the region in bytes.
    fn size(&self) -> (r: usize)
        requires
            self.spec_start() <= self.spec_end(),
        ensures
            r == self.spec_end() - self.spec_start(),
    ;

    fn start(&self) -> (r: usize)
        ensures
            r == self.spec_start(),
    ;

    fn end(&self) -> (r: usize)
        ensures
            r == self.spec_end(),
    ;

    /// Whether the first flag byte is `r`.
    fn is_read(&self) -> (r: bool)
        requires
            byte_slot_ok(self.spec_flags(), 0),
        ensures
            r == (byte_at(self.spec_flags(), 0) == 'r' as u8),
    ;

    /// Whether the second flag byte is `w`.
    fn is_write(&self) -> (r: bool)
        requires
            byte_slot_ok(self.spec_flags(), 1),
        ensures
            r == (byte_at(self.spec_flags(), 1) == 'w' as u8),
    ;

    fn pathname(&self) -> (r: &str)
        ensures
            r@ == self.spec_pathname(),
    ;
}

} // verus!
