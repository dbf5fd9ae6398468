//! The capabilities a platform back end offers, and the state a search
//! keeps between steps.

use crate::error::Error;
use crate::maps::MapRange;
use vstd::prelude::*;

verus! {

/// Reading, writing, dumping and pinning the memory of a process.
pub trait MemExt {
    /// Writes `payload` at `addr`, returning the number of bytes written.
    fn write(&self, addr: usize, payload: &[u8]) -> Result<usize, Error>;

    /// Reads `size` bytes at `addr`.
    fn read(&self, addr: usize, size: usize) -> Result<Vec<u8>, Error>;

    /// Saves `size` bytes at `addr` to the file at `path`.
    fn dump(&self, addr: usize, size: usize, path: &str) -> Result<usize, Error>;

    /// Keeps rewriting `payload` at `va`.
    fn freeze(&self, va: usize, payload: Vec<u8>) -> Result<(), Error>;

    /// Stops rewriting `payload` at `va`.
    fn unfreeze(&self, va: usize, payload: Vec<u8>) -> Result<(), Error>;
}

/// Listing the mapped regions of a process.
pub trait MapsExt {
    /// Every region.
    fn region_lv0(&mut self) -> Result<Vec<MapRange>, Error>;

    /// The regions worth searching.
    fn region_lv1(&mut self) -> Result<Vec<MapRange>, Error>;
}

/// Inspecting the system call a process is blocked in.
pub trait SyscallExt {
    /// The instruction pointer of the process.
    fn get_ip(&mut self) -> Result<u64, Error>;
}

/// Making a process load a shared library.
pub trait InjectExt {
    fn inject(&mut self, lib_path: &str) -> Result<(), Error>;
}

/// The steps of a value search.
pub trait ScanExt {
    fn value_scan(&mut self) -> Result<usize, Error>;

    fn value_more(&mut self) -> Result<usize, Error>;

    fn value_less(&mut self) -> Result<usize, Error>;

    fn value_change(&mut self) -> Result<usize, Error>;

    fn unknown_scan(&mut self) -> Result<usize, Error>;

    fn print(&mut self) -> Result<(), Error>;
}

/// What a search keeps between steps: the value searched for, the regions
/// searched and, per region, the addresses still matching.
pub struct Cache {
    pub input: Vec<u8>,
    pub maps: Vec<MapRange>,
    pub addr: Vec<Vec<usize>>,
}

impl Default for Cache {
    fn default() -> (r: Cache)
        ensures
            r.input@.len() == 0,
            r.maps@.len() == 0,
            r.addr@.len() == 0,
    {
        Cache { input: Vec::new(), maps: Vec::new(), addr: Vec::new() }
    }
}

/// The kind of value searched for.
#[derive(Debug, Clone, Copy, PartialEq, Eq, Structural)]
pub enum Type {
    U8,
    U16,
    U32,
    U64,
    I8,
    I16,
    I32,
    I64,
    STR,
    UNKNOWN,
}

} // verus!
