//! Errors of the process tools.

use crate::text::IntErrorKind;
use vstd::prelude::*;

verus! {

/// `std::io::Error`, carried through unchanged.
#[verifier::external_type_specification]
#[verifier::external_body]
pub struct ExIoError(std::io::Error);

/// What can go wrong while reading and decoding process information.
#[derive(Debug)]
pub enum Error {
    /// An operating-system read or write failed.
    IoError(std::io::Error),
    /// A number in the input was not a valid numeral.
    ParseIntError(IntErrorKind),
    /// A line of a maps listing lacked one of its fields.
    ParseMapsError,
    /// A Windows API call failed with this error code.
    GetLastError(u32),
}

} // verus!
