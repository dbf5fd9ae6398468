//! The full line format of a maps listing shared by the maps readers:
//! `start-end flags offset dev inode [path words...]`.

use crate::text::{
    IntErrorKind, join_seq, parse_uint, parse_usize_dec, parse_usize_hex, split_seq, split_str,
    strs_view,
};
use vstd::prelude::*;

verus! {

/// Why a maps line could not be decoded.
#[derive(Debug, Clone, Copy, PartialEq, Eq, Structural)]
pub enum MapsError {
    /// A field was missing.
    SplitNextError,
    /// A numeric field was not a valid numeral.
    ParseIntError(IntErrorKind),
}

/// All fields of one maps line; `rest` holds the words after the inode.
pub struct FullLine {
    pub start: int,
    pub end: int,
    pub offset: int,
    pub dev: Seq<char>,
    pub flags: Seq<char>,
    pub inode: int,
    pub rest: Seq<Seq<char>>,
}

/// A decoded maps entry as the readers store it.
pub struct MapEntry {
    pub start: int,
    pub end: int,
    pub offset: int,
    pub dev: Seq<char>,
    pub flags: Seq<char>,
    pub inode: int,
    pub pathname: Seq<char>,
}

/// Decodes the words `w` of a non-empty line. The bounds and the offset are
/// hexadecimal, the inode decimal; they are read in that order after checking
/// that the range holds a `-` and that the line has five words.
pub open spec fn parse_full_words(w: Seq<Seq<char>>) -> Result<FullLine, MapsError> {
    let range = split_seq(w[0], '-');
    if range.len() < 2 || w.len() < 5 {
        Err(MapsError::SplitNextError)
    } else {
        match parse_uint(range[0], true, usize::MAX as int) {
            Err(k) => Err(MapsError::ParseIntError(k)),
            Ok(start) => match parse_uint(range[1], true, usize::MAX as int) {
                Err(k) => Err(MapsError::ParseIntError(k)),
                Ok(end) => match parse_uint(w[2], true, usize::MAX as int) {
                    Err(k) => Err(MapsError::ParseIntError(k)),
                    Ok(offset) => match parse_uint(w[4], false, usize::MAX as int) {
                        Err(k) => Err(MapsError::ParseIntError(k)),
                        Ok(inode) => Ok(
                            FullLine {
                                start,
                                end,
                                offset,
                                dev: w[3],
                                flags: w[1],
                                inode,
                                rest: w.skip(5),
                            },
                        ),
                    },
                },
            },
        }
    }
}

/// The entry of a line whose path is its trailing words joined by single spaces.
pub open spec fn joined_entry(f: FullLine) -> MapEntry {
    MapEntry {
        start: f.start,
        end: f.end,
        offset: f.offset,
        dev: f.dev,
        flags: f.flags,
        inode: f.inode,
        pathname: join_seq(f.rest, seq![' ']),
    }
}

/// The entry of a line whose path is its first trailing word, or empty.
pub open spec fn first_word_entry(f: FullLine) -> MapEntry {
    MapEntry {
        start: f.start,
        end: f.end,
        offset: f.offset,
        dev: f.dev,
        flags: f.flags,
        inode: f.inode,
        pathname: if f.rest.len() == 0 {
            seq![]
        } else {
            f.rest[0]
        },
    }
}

/// Decodes `lines[i..]` after `acc`, stopping successfully at the first line
/// without words and failing at the first line that cannot be decoded.
pub open spec fn parse_full_lines(lines: Seq<Seq<char>>, i: int, acc: Seq<FullLine>) -> Result<
    Seq<FullLine>,
    MapsError,
>
    decreases lines.len() - i,
{
    if i >= lines.len() || i < 0 {
        Ok(acc)
    } else if crate::text::words(lines[i]).len() == 0 {
        Ok(acc)
    } else {
        match parse_full_words(crate::text::words(lines[i])) {
            Err(e) => Err(e),
            Ok(f) => parse_full_lines(lines, i + 1, acc.push(f)),
        }
    }
}

/// The lines of `contents` decoded in full, or the first failure.
pub open spec fn parse_full(contents: Seq<char>) -> Result<Seq<FullLine>, MapsError> {
    parse_full_lines(split_seq(contents, '\n'), 0, seq![])
}

/// No trailing word of a decoded line holds a whitespace character.
pub open spec fn rests_ws_free(fs: Seq<FullLine>) -> bool {
    forall|i: int, m: int|
        0 <= i < fs.len() && 0 <= m < fs[i].rest.len() ==> crate::text::ws_free(#[trigger] fs[i].rest[m])
}

proof fn lemma_parse_full_lines_ws_free(lines: Seq<Seq<char>>, i: int, acc: Seq<FullLine>)
    requires
        rests_ws_free(acc),
    ensures
        parse_full_lines(lines, i, acc) matches Ok(fs) ==> rests_ws_free(fs),
    decreases lines.len() - i,
{
    if i >= lines.len() || i < 0 {
    } else if crate::text::words(lines[i]).len() == 0 {
    } else {
        let w = crate::text::words(lines[i]);
        match parse_full_words(w) {
            Err(e) => {},
            Ok(f) => {
                crate::text::lemma_words_ws_free(lines[i]);
                let acc2 = acc.push(f);
                assert forall|a: int, m: int| 0 <= a < acc2.len() && 0 <= m < acc2[a].rest.len() implies crate::text::ws_free(#[trigger] acc2[a].rest[m]) by {
                    if a == acc.len() {
                        assert(f.rest[m] == w[m + 5]);
                    } else {
                        assert(acc2[a] == acc[a]);
                    }
                }
                lemma_parse_full_lines_ws_free(lines, i + 1, acc2);
            },
        }
    }
}

/// No trailing word of a line decoded by `parse_full` holds a whitespace
/// character.
pub proof fn lemma_parse_full_ws_free(contents: Seq<char>)
    ensures
        parse_full(contents) matches Ok(fs) ==> rests_ws_free(fs),
{
    lemma_parse_full_lines_ws_free(split_seq(contents, '\n'), 0, seq![]);
}

/// Decodes `lines[i..]` after `acc`, stopping at the first line that has no
/// words or cannot be decoded.
pub open spec fn parse_prefix_lines(lines: Seq<Seq<char>>, i: int, acc: Seq<FullLine>) -> Seq<
    FullLine,
>
    decreases lines.len() - i,
{
    if i >= lines.len() || i < 0 {
        acc
    } else if crate::text::words(lines[i]).len() == 0 {
        acc
    } else {
        match parse_full_words(crate::text::words(lines[i])) {
            Err(e) => acc,
            Ok(f) => parse_prefix_lines(lines, i + 1, acc.push(f)),
        }
    }
}

/// The decodable lines of `contents` up to the first empty or undecodable one.
pub open spec fn parse_prefix(contents: Seq<char>) -> Seq<FullLine> {
    parse_prefix_lines(split_seq(contents, '\n'), 0, seq![])
}

/// The numeric and text fields of one decoded line.
pub struct Fields<'a> {
    pub start: usize,
    pub end: usize,
    pub offset: usize,
    pub dev: &'a str,
    pub flags: &'a str,
    pub inode: usize,
}

/// `fields` and the trailing words of `w` form the decoded line `f`.
pub open spec fn fields_match(fields: Fields, w: Seq<Seq<char>>, f: FullLine) -> bool {
    &&& f.start == fields.start as int
    &&& f.end == fields.end as int
    &&& f.offset == fields.offset as int
    &&& f.dev == fields.dev@
    &&& f.flags == fields.flags@
    &&& f.inode == fields.inode as int
    &&& f.rest == w.skip(5)
}

/// Decodes the words of one non-empty line.
pub fn parse_full_words_exec<'a>(w: &Vec<&'a str>) -> (r: Result<Fields<'a>, MapsError>)
    requires
        w@.len() > 0,
    ensures
        match r {
            Ok(fields) => parse_full_words(strs_view(w@)) matches Ok(f) && fields_match(
                fields,
                strs_view(w@),
                f,
            ) && w@.len() >= 5,
            Err(e) => parse_full_words(strs_view(w@)) == Err::<FullLine, MapsError>(e),
        },
{
    let range = split_str(w[0], '-');
    if range.len() < 2 || w.len() < 5 {
        return Err(MapsError::SplitNextError);
    }
    let start = match parse_usize_hex(range[0]) {
        Ok(v) => v,
        Err(k) => {
            return Err(MapsError::ParseIntError(k));
        },
    };
    let end = match parse_usize_hex(range[1]) {
        Ok(v) => v,
        Err(k) => {
            return Err(MapsError::ParseIntError(k));
        },
    };
    let offset = match parse_usize_hex(w[2]) {
        Ok(v) => v,
        Err(k) => {
            return Err(MapsError::ParseIntError(k));
        },
    };
    let inode = match parse_usize_dec(w[4]) {
        Ok(v) => v,
        Err(k) => {
            return Err(MapsError::ParseIntError(k));
        },
    };
    Ok(Fields { start, end, offset, dev: w[3], flags: w[1], inode })
}

} // verus!
