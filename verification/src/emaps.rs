//! Maps reader that keeps the lines before the first undecodable one.

use crate::procmaps::{
    FullLine, MapEntry, MapsError, fields_match, first_word_entry, joined_entry, parse_full,
    parse_full_lines, parse_full_words, parse_full_words_exec, parse_prefix, parse_prefix_lines,
};
use crate::text::{
    byte_at, byte_slot_is, byte_slot_ok, join_from, split_seq, split_str, split_whitespace,
    strs_view, words,
};
use vstd::prelude::*;
use vstd::string::StringExecFns;

verus! {

/// A mapped address range with every field of its maps line.
#[derive(Debug)]
pub struct MapRange {
    pub range_start: usize,
    pub range_end: usize,
    pub offset: usize,
    pub dev: String,
    pub flags: String,
    pub inode: usize,
    pub pathname: String,
}

impl View for MapRange {
    type V = MapEntry;

    open spec fn view(&self) -> MapEntry {
        MapEntry {
            start: self.range_start as int,
            end: self.range_end as int,
            offset: self.offset as int,
            dev: self.dev@,
            flags: self.flags@,
            inode: self.inode as int,
            pathname: self.pathname@,
        }
    }
}

/// The entries held by `v`.
pub open spec fn entries(v: Seq<MapRange>) -> Seq<MapEntry> {
    v.map_values(|m: MapRange| m@)
}

impl MapRange {
    /// Length of the range in bytes.
    pub fn size(&self) -> (r: usize)
        requires
            self.range_start <= self.range_end,
        ensures
            r == self.range_end - self.range_start,
    {
        self.range_end - self.range_start
    }

    pub fn start(&self) -> (r: usize)
        ensures
            r == self.range_start,
    {
        self.range_start
    }

    pub fn end(&self) -> (r: usize)
        ensures
            r == self.range_end,
    {
        self.range_end
    }

    pub fn pathname(&self) -> (r: &String)
        ensures
            r@ == self.pathname@,
    {
        &self.pathname
    }

    /// Whether the third flag byte is `x`.
    pub fn is_exec(&self) -> (r: bool)
        requires
            byte_slot_ok(self.flags@, 2),
        ensures
            r == (byte_at(self.flags@, 2) == 'x' as u8),
    {
        byte_slot_is(self.flags.as_str(), 2, 'x' as u8)
    }

    /// Whether the second flag byte is `w`.
    pub fn is_write(&self) -> (r: bool)
        requires
            byte_slot_ok(self.flags@, 1),
        ensures
            r == (byte_at(self.flags@, 1) == 'w' as u8),
    {
        byte_slot_is(self.flags.as_str(), 1, 'w' as u8)
    }

    /// Whether the first flag byte is `r`.
    pub fn is_read(&self) -> (r: bool)
        requires
            byte_slot_ok(self.flags@, 0),
        ensures
            r == (byte_at(self.flags@, 0) == 'r' as u8),
    {
        byte_slot_is(self.flags.as_str(), 0, 'r' as u8)
    }
}

/// Decodes the lines of a maps listing up to the first one that has no words
/// or cannot be decoded; that line and the rest are left out.
pub fn get_process_maps(contents: &str) -> (r: Vec<MapRange>)
    ensures
        entries(r@) == parse_prefix(contents@).map_values(|f: FullLine| joined_entry(f)),
{
    let lines = split_str(contents, '\n');
    let ghost ls = strs_view(lines@);
    let mut vec: Vec<MapRange> = Vec::new();
    let ghost mut fulls: Seq<FullLine> = seq![];
    let mut i: usize = 0;
    assert(entries(vec@) =~= fulls.map_values(|f: FullLine| joined_entry(f)));
    while i < lines.len()
        invariant
            i <= lines@.len(),
            ls == strs_view(lines@),
            ls == split_seq(contents@, '\n'),
            parse_prefix_lines(ls, i as int, fulls) == parse_prefix(contents@),
            entries(vec@) == fulls.map_values(|f: FullLine| joined_entry(f)),
        decreases lines@.len() - i,
    {
        let w = split_whitespace(lines[i]);
        assert(ls[i as int] == lines@[i as int]@);
        assert(strs_view(w@) == words(ls[i as int]));
        if w.len() == 0 {
            return vec;
        }
        match parse_full_words_exec(&w) {
            Err(e) => {
                return vec;
            },
            Ok(fields) => {
                let ghost f = parse_full_words(strs_view(w@))->Ok_0;
                let pathname = join_from(&w, 5, " ");
                proof {
                    reveal_strlit(" ");
                    assert(" "@ =~= seq![' ']);
                }
                let m = MapRange {
                    range_start: fields.start,
                    range_end: fields.end,
                    offset: fields.offset,
                    dev: String::from_str(fields.dev),
                    flags: String::from_str(fields.flags),
                    inode: fields.inode,
                    pathname,
                };
                let ghost prev = vec@;
                vec.push(m);
                proof {
                    let ghost pf = fulls;
                    fulls = fulls.push(f);
                    assert(joined_entry(f).pathname =~= m@.pathname);
                    assert(m@ =~= joined_entry(f));
                    assert(entries(vec@) =~= entries(prev).push(m@));
                    assert(fulls.map_values(|f: FullLine| joined_entry(f)) =~= pf.map_values(
                        |f: FullLine| joined_entry(f),
                    ).push(joined_entry(f)));
                }
            },
        }
        i = i + 1;
    }
    vec
}

} // verus!
