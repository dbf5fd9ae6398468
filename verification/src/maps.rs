//! Parsing of `/proc/<pid>/maps` listings into address ranges with their
//! permission flags and path names.

use crate::error::Error;
use crate::text::{byte_at, byte_slot_is, byte_slot_ok, join_from, join_seq, parse_uint, parse_usize_hex, split_seq, split_str, split_whitespace, strs_view, words};
use vstd::prelude::*;
use vstd::string::StringExecFns;

verus! {

/// One decoded line of a maps listing.
pub struct MapLine {
    pub start: int,
    pub end: int,
    pub flags: Seq<char>,
    pub pathname: Seq<char>,
}

/// Decodes the words of one non-empty line: `start-end flags offset dev inode
/// [path words...]`; the path is the remaining words joined by single spaces.
pub open spec fn parse_map_words(w: Seq<Seq<char>>) -> Result<MapLine, Error> {
    let range = split_seq(w[0], '-');
    if range.len() < 2 || w.len() < 5 {
        Err(Error::ParseMapsError)
    } else {
        match parse_uint(range[0], true, usize::MAX as int) {
            Err(k) => Err(Error::ParseIntError(k)),
            Ok(start) => match parse_uint(range[1], true, usize::MAX as int) {
                Err(k) => Err(Error::ParseIntError(k)),
                Ok(end) => Ok(
                    MapLine { start, end, flags: w[1], pathname: join_seq(w.skip(5), seq![' ']) },
                ),
            },
        }
    }
}

/// Decodes `lines[i..]` after `acc`: decoding stops at the first line without
/// words, and fails at the first line that cannot be decoded.
pub open spec fn parse_map_lines(lines: Seq<Seq<char>>, i: int, acc: Seq<MapLine>) -> Result<
    Seq<MapLine>,
    Error,
>
    decreases lines.len() - i,
{
    if i >= lines.len() || i < 0 {
        Ok(acc)
    } else if words(lines[i]).len() == 0 {
        Ok(acc)
    } else {
        match parse_map_words(words(lines[i])) {
            Err(e) => Err(e),
            Ok(m) => parse_map_lines(lines, i + 1, acc.push(m)),
        }
    }
}

/// What `parse_proc_maps` returns for `contents`.
pub open spec fn parse_maps(contents: Seq<char>) -> Result<Seq<MapLine>, Error> {
    parse_map_lines(split_seq(contents, '\n'), 0, seq![])
}

/// Access to the fields of a mapped address range.
pub trait MapInfo {
    spec fn spec_start(&self) -> int;

    spec fn spec_end(&self) -> int;

    spec fn spec_flags(&self) -> Seq<char>;

    spec fn spec_pathname(&self) -> Seq<char>;

    /// Length of the range in bytes.
    fn size(&self) -> (r: usize)
        requires
            self.spec_start() <= self.spec_end(),
        ensures
            r == self.spec_end() - self.spec_start(),
    ;

    fn start(&self) -> (r: usize)
        ensures
            r == self.spec_start(),
    ;

    fn end(&self) -> (r: usize)
        ensures
            r == self.spec_end(),
    ;

    fn pathname(&self) -> (r: &str)
        ensures
            r@ == self.spec_pathname(),
    ;

    /// Whether the third flag byte is `x`.
    fn is_exec(&self) -> (r: bool)
        requires
            byte_slot_ok(self.spec_flags(), 2),
        ensures
            r == (byte_at(self.spec_flags(), 2) == 'x' as u8),
    ;

    /// Whether the second flag byte is `w`.
    fn is_write(&self) -> (r: bool)
        requires
            byte_slot_ok(self.spec_flags(), 1),
        ensures
            r == (byte_at(self.spec_flags(), 1) == 'w' as u8),
    ;

    /// Whether the first flag byte is `r`.
    fn is_read(&self) -> (r: bool)
        requires
            byte_slot_ok(self.spec_flags(), 0),
        ensures
            r == (byte_at(self.spec_flags(), 0) == 'r' as u8),
    ;
}

/// A mapped address range `[range_start, range_end)` with its flags and path.
#[derive(Debug, Default)]
pub struct MapRange {
    range_start: usize,
    range_end: usize,
    flags: String,
    pathname: String,
}

impl View for MapRange {
    type V = MapLine;

    closed spec fn view(&self) -> MapLine {
        MapLine {
            start: self.range_start as int,
            end: self.range_end as int,
            flags: self.flags@,
            pathname: self.pathname@,
        }
    }
}

impl MapInfo for MapRange {
    open spec fn spec_start(&self) -> int {
        self@.start
    }

    open spec fn spec_end(&self) -> int {
        self@.end
    }

    open spec fn spec_flags(&self) -> Seq<char> {
        self@.flags
    }

    open spec fn spec_pathname(&self) -> Seq<char> {
        self@.pathname
    }

    fn size(&self) -> (r: usize) {
        self.range_end - self.range_start
    }

    fn start(&self) -> (r: usize) {
        self.range_start
    }

    fn end(&self) -> (r: usize) {
        self.range_end
    }

    fn pathname(&self) -> (r: &str) {
        self.pathname.as_str()
    }

    fn is_exec(&self) -> (r: bool) {
        byte_slot_is(self.flags.as_str(), 2, 'x' as u8)
    }

    fn is_write(&self) -> (r: bool) {
        byte_slot_is(self.flags.as_str(), 1, 'w' as u8)
    }

    fn is_read(&self) -> (r: bool) {
        byte_slot_is(self.flags.as_str(), 0, 'r' as u8)
    }
}

/// The decoded lines held by `v`.
pub open spec fn map_views(v: Seq<MapRange>) -> Seq<MapLine> {
    v.map_values(|m: MapRange| m@)
}

/// Decodes the words of one line.
fn parse_map_words_exec(w: &Vec<&str>) -> (r: Result<MapRange, Error>)
    requires
        w@.len() > 0,
    ensures
        match r {
            Ok(m) => parse_map_words(strs_view(w@)) == Ok::<MapLine, Error>(m@),
            Err(e) => parse_map_words(strs_view(w@)) == Err::<MapLine, Error>(e),
        },
{
    let ghost wv = strs_view(w@);
    let range = split_str(w[0], '-');
    if range.len() < 2 || w.len() < 5 {
        return Err(Error::ParseMapsError);
    }
    let start = match parse_usize_hex(range[0]) {
        Ok(v) => v,
        Err(k) => {
            return Err(Error::ParseIntError(k));
        },
    };
    let end = match parse_usize_hex(range[1]) {
        Ok(v) => v,
        Err(k) => {
            return Err(Error::ParseIntError(k));
        },
    };
    let flags = String::from_str(w[1]);
    let pathname = join_from(w, 5, " ");
    proof {
        reveal_strlit(" ");
        assert(" "@ =~= seq![' ']);
    }
    let m = MapRange { range_start: start, range_end: end, flags, pathname };
    assert(strs_view(w@).skip(5) == wv.skip(5));
    Ok(m)
}

/// Decodes a maps listing line by line. Decoding stops, successfully, at the
/// first line without words; a line with fewer than five words or a range
/// without `-` gives `ParseMapsError`, a bad hexadecimal bound gives
/// `ParseIntError`.
pub fn parse_proc_maps(contents: &str) -> (r: Result<Vec<MapRange>, Error>)
    ensures
        match r {
            Ok(v) => parse_maps(contents@) == Ok::<Seq<MapLine>, Error>(map_views(v@)),
            Err(e) => parse_maps(contents@) == Err::<Seq<MapLine>, Error>(e),
        },
{
    let lines = split_str(contents, '\n');
    let ghost ls = strs_view(lines@);
    let mut vec: Vec<MapRange> = Vec::new();
    let mut i: usize = 0;
    assert(map_views(vec@) =~= Seq::<MapLine>::empty());
    while i < lines.len()
        invariant
            i <= lines@.len(),
            ls == strs_view(lines@),
            ls == split_seq(contents@, '\n'),
            parse_map_lines(ls, i as int, map_views(vec@)) == parse_maps(contents@),
        decreases lines@.len() - i,
    {
        let w = split_whitespace(lines[i]);
        assert(ls[i as int] == lines@[i as int]@);
        if w.len() == 0 {
            return Ok(vec);
        }
        match parse_map_words_exec(&w) {
            Err(e) => {
                return Err(e);
            },
            Ok(m) => {
                let ghost prev = vec@;
                vec.push(m);
                assert(map_views(vec@) =~= map_views(prev).push(m@));
            },
        }
        i = i + 1;
    }
    Ok(vec)
}

} // verus!
