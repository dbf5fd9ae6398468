//! Regions of a Linux maps listing, decoded lazily line by line.

use crate::region::InfoExt;
use crate::text::{
    byte_at, byte_slot_is, byte_slot_ok, lemma_split_spans_nonempty, lines_seq, lines_str,
    parse_uint, parse_usize_hex, skip_ws, split_seq, split_str, splitn_seq, splitn_str, strs_view,
    trim_start,
};
use vstd::prelude::*;

verus! {

/// A region decoded from one maps line.
pub struct RegionLine {
    pub start: int,
    pub end: int,
    pub flags: Seq<char>,
    pub pathname: Seq<char>,
}

/// The parts of a line split at its first five spaces.
pub open spec fn line_parts(line: Seq<char>) -> Seq<Seq<char>> {
    splitn_seq(line, ' ', 6)
}

/// The pieces of the first part of a line split at `-`.
pub open spec fn line_range(line: Seq<char>) -> Seq<Seq<char>> {
    split_seq(line_parts(line)[0], '-')
}

/// The bounds of `line` are valid hexadecimal numerals where they exist.
pub open spec fn region_line_ok(line: Seq<char>) -> bool {
    &&& parse_uint(line_range(line)[0], true, usize::MAX as int) is Ok
    &&& line_range(line).len() >= 2 ==> parse_uint(line_range(line)[1], true, usize::MAX as int) is Ok
}

/// The region of a line `start-end flags offset dev inode path`: `None` when
/// the range lacks `-` or the line lacks flags; the path is the text after
/// the fifth space with its leading whitespace removed, or empty.
pub open spec fn region_of_line(line: Seq<char>) -> Option<RegionLine> {
    let parts = line_parts(line);
    let range = line_range(line);
    if range.len() < 2 || parts.len() < 2 {
        None
    } else {
        Some(
            RegionLine {
                start: parse_uint(range[0], true, usize::MAX as int)->Ok_0,
                end: parse_uint(range[1], true, usize::MAX as int)->Ok_0,
                flags: parts[1],
                pathname: if parts.len() > 5 {
                    parts[5].skip(skip_ws(parts[5], 0))
                } else {
                    seq![]
                },
            },
        )
    }
}

/// A region of a maps listing; its flags and path borrow from the listing.
#[derive(Debug, Default, Clone)]
pub struct Region<'a> {
    pub start: usize,
    pub end: usize,
    pub flags: &'a str,
    pub pathname: &'a str,
}

impl<'a> View for Region<'a> {
    type V = RegionLine;

    open spec fn view(&self) -> RegionLine {
        RegionLine {
            start: self.start as int,
            end: self.end as int,
            flags: self.flags@,
            pathname: self.pathname@,
        }
    }
}

impl<'a> InfoExt for Region<'a> {
    open spec fn spec_start(&self) -> int {
        self.start as int
    }

    open spec fn spec_end(&self) -> int {
        self.end as int
    }

    open spec fn spec_flags(&self) -> Seq<char> {
        self.flags@
    }

    open spec fn spec_pathname(&self) -> Seq<char> {
        self.pathname@
    }

    fn size(&self) -> (r: usize) {
        self.end - self.start
    }

    fn start(&self) -> (r: usize) {
        self.start
    }

    fn end(&self) -> (r: usize) {
        self.end
    }

    fn is_read(&self) -> (r: bool) {
        byte_slot_is(self.flags, 0, 'r' as u8)
    }

    fn is_write(&self) -> (r: bool) {
        byte_slot_is(self.flags, 1, 'w' as u8)
    }

    fn pathname(&self) -> (r: &str) {
        self.pathname
    }
}

/// Yields the regions of a maps listing, one line per call.
pub struct RegionIter<'a> {
    lines: Vec<&'a str>,
    pos: usize,
}

impl<'a> RegionIter<'a> {
    #[verifier::type_invariant]
    closed spec fn inv(&self) -> bool {
        self.pos <= self.lines@.len()
    }

    /// The lines not yet decoded.
    pub closed spec fn remaining(&self) -> Seq<Seq<char>> {
        strs_view(self.lines@).skip(self.pos as int)
    }

    /// The next line, if any, can be decoded without a bad numeral.
    pub open spec fn next_ok(&self) -> bool {
        self.remaining().len() > 0 ==> region_line_ok(self.remaining()[0])
    }

    /// An iterator over the lines of `contents`.
    pub fn new(contents: &'a str) -> (r: Self)
        ensures
            r.remaining() == lines_seq(contents@),
    {
        let lines = lines_str(contents);
        let r = RegionIter { lines, pos: 0 };
        assert(strs_view(r.lines@).skip(0) =~= strs_view(r.lines@));
        r
    }

    /// Whether the next line, if any, can be decoded without a bad numeral.
    pub fn can_decode_next(&self) -> (r: bool)
        ensures
            r == self.next_ok(),
    {
        proof {
            use_type_invariant(self);
        }
        if self.pos >= self.lines.len() {
            return true;
        }
        let line = self.lines[self.pos];
        assert(self.remaining()[0] == line@);
        let parts = splitn_str(line, ' ', 6);
        let range = split_str(parts[0], '-');
        proof {
            lemma_split_spans_nonempty(parts@[0]@, '-', 0, 0);
            assert(strs_view(parts@)[0] == parts@[0]@);
            assert(strs_view(range@).len() >= 1);
        }
        if parse_usize_hex(range[0]).is_err() {
            return false;
        }
        if range.len() < 2 {
            return true;
        }
        parse_usize_hex(range[1]).is_ok()
    }

    /// Decodes the next line: `None` when there is none, or when its range
    /// lacks `-` or it lacks flags (the line is consumed either way).
    pub fn next(&mut self) -> (r: Option<Region<'a>>)
        requires
            old(self).next_ok(),
        ensures
            old(self).remaining().len() == 0 ==> r is None && final(self).remaining() == old(
                self,
            ).remaining(),
            old(self).remaining().len() > 0 ==> {
                &&& final(self).remaining() == old(self).remaining().drop_first()
                &&& match region_of_line(old(self).remaining()[0]) {
                    None => r is None,
                    Some(g) => r matches Some(x) && x@ == g,
                }
            },
    {
        proof {
            use_type_invariant(&*self);
        }
        if self.pos >= self.lines.len() {
            return None;
        }
        let line = self.lines[self.pos];
        let ghost l = line@;
        assert(self.remaining()[0] == l);
        let ghost old_rem = self.remaining();
        self.pos = self.pos + 1;
        assert(self.remaining() =~= old_rem.drop_first());
        let parts = splitn_str(line, ' ', 6);
        let range = split_str(parts[0], '-');
        proof {
            lemma_split_spans_nonempty(parts@[0]@, '-', 0, 0);
            assert(strs_view(parts@)[0] == parts@[0]@);
            assert(strs_view(range@).len() >= 1);
        }
        let start = match parse_usize_hex(range[0]) {
            Ok(v) => v,
            Err(_) => {
                return None;
            },
        };
        if range.len() < 2 {
            return None;
        }
        let end = match parse_usize_hex(range[1]) {
            Ok(v) => v,
            Err(_) => {
                return None;
            },
        };
        if parts.len() < 2 {
            return None;
        }
        let flags = parts[1];
        let pathname = if parts.len() > 5 {
            trim_start(parts[5])
        } else {
            ""
        };
        proof {
            reveal_strlit("");
        }
        let region = Region { start, end, flags, pathname };
        assert(region@.pathname =~= region_of_line(l)->Some_0.pathname);
        Some(region)
    }
}

} // verus!
