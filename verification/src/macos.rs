//! The macOS back end, which offers no operation yet.

use vstd::prelude::*;

verus! {

/// A macOS process under search.
pub struct Macos {}

} // verus!
