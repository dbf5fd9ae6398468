//! What a plugin sees of the process it works on.

use vstd::prelude::*;

verus! {

/// Why a plugin's memory access failed.
#[derive(Debug)]
pub enum Error {
    IoError(std::io::Error),
}

/// A plugin: a name, and an entry point given its arguments and the process.
pub trait Plugin {
    fn name(&self) -> &'static str;

    fn call(&self, args: &str, meow: Meow);
}

/// One mapped region: its bounds, flags and path.
#[derive(Debug)]
pub struct Maps {
    pub range_start: usize,
    pub range_end: usize,
    pub flags: String,
    pub pathname: String,
}

/// A region seen as plain values.
pub struct MapsView {
    pub start: int,
    pub end: int,
    pub flags: Seq<char>,
    pub pathname: Seq<char>,
}

impl View for Maps {
    type V = MapsView;

    open spec fn view(&self) -> MapsView {
        MapsView {
            start: self.range_start as int,
            end: self.range_end as int,
            flags: self.flags@,
            pathname: self.pathname@,
        }
    }
}

/// The views of a list of regions.
pub open spec fn maps_views(v: Seq<Maps>) -> Seq<MapsView> {
    v.map_values(|m: Maps| m@)
}

impl Maps {
    /// A copy of the region.
    pub fn duplicate(&self) -> (r: Maps)
        ensures
            r@ == self@,
    {
        Maps {
            range_start: self.range_start,
            range_end: self.range_end,
            flags: self.flags.clone(),
            pathname: self.pathname.clone(),
        }
    }
}

/// Reading and writing the memory of the process.
pub trait MemExt {
    fn read(&self, addr: usize, size: usize) -> Result<Vec<u8>, Error>;

    fn write(&self, addr: usize, payload: &[u8]) -> Result<usize, Error>;
}

/// The process handed to a plugin: its id, its regions and its memory.
pub struct Meow<'a> {
    pub pid: u32,
    pub maps: Vec<Maps>,
    pub handle: &'a dyn MemExt,
}

impl<'a> Meow<'a> {
    /// The id of the process.
    pub fn get_pid(&self) -> (r: u32)
        ensures
            r == self.pid,
    {
        self.pid
    }

    /// A copy of the regions of the process.
    pub fn getmaps(&self) -> (r: Vec<Maps>)
        ensures
            maps_views(r@) == maps_views(self.maps@),
    {
        let mut out: Vec<Maps> = Vec::new();
        let mut i: usize = 0;
        while i < self.maps.len()
            invariant
                i <= self.maps@.len(),
                maps_views(out@) == maps_views(self.maps@.take(i as int)),
            decreases self.maps@.len() - i,
        {
            let ghost prev = out@;
            out.push(self.maps[i].duplicate());
            assert(self.maps@.take(i + 1 as int) =~= self.maps@.take(i as int).push(self.maps@[i as int]));
            assert(maps_views(out@) =~= maps_views(prev).push(self.maps@[i as int]@));
            assert(maps_views(self.maps@.take(i + 1 as int)) =~= maps_views(self.maps@.take(i as int)).push(self.maps@[i as int]@));
            i = i + 1;
        }
        assert(self.maps@.take(self.maps@.len() as int) =~= self.maps@);
        out
    }
}

} // verus!
