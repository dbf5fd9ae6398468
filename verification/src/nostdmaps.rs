//! Two maps readers: one that owns its fields and one that borrows them.

use crate::procmaps::{
    FullLine, MapEntry, MapsError, fields_match, first_word_entry, joined_entry, parse_full,
    parse_full_lines, parse_full_words, parse_full_words_exec, parse_prefix, parse_prefix_lines,
};
use crate::text::{
    join_seq, byte_at, byte_slot_is, byte_slot_ok, join_from, split_seq, split_str, split_whitespace,
    strs_view, words,
};
use vstd::prelude::*;
use vstd::string::StringExecFns;

verus! {

/// A mapped address range that owns its text fields.
#[derive(Debug)]
pub struct MapRangeStd {
    pub range_start: usize,
    pub range_end: usize,
    pub offset: usize,
    pub dev: String,
    pub flags: String,
    pub inode: usize,
    pub pathname: String,
}

impl View for MapRangeStd {
    type V = MapEntry;

    open spec fn view(&self) -> MapEntry {
        MapEntry {
            start: self.range_start as int,
            end: self.range_end as int,
            offset: self.offset as int,
            dev: self.dev@,
            flags: self.flags@,
            inode: self.inode as int,
            pathname: self.pathname@,
        }
    }
}

/// The entries held by `v`.
pub open spec fn entries_maprangestd(v: Seq<MapRangeStd>) -> Seq<MapEntry> {
    v.map_values(|m: MapRangeStd| m@)
}

/// A mapped address range that borrows its text fields from the listing.
#[derive(Debug)]
pub struct MapRange<'a> {
    pub range_start: usize,
    pub range_end: usize,
    pub offset: usize,
    pub dev: &'a str,
    pub flags: &'a str,
    pub inode: usize,
    pub pathname: &'a str,
}

impl<'a> View for MapRange<'a> {
    type V = MapEntry;

    open spec fn view(&self) -> MapEntry {
        MapEntry {
            start: self.range_start as int,
            end: self.range_end as int,
            offset: self.offset as int,
            dev: self.dev@,
            flags: self.flags@,
            inode: self.inode as int,
            pathname: self.pathname@,
        }
    }
}

/// The entries held by `v`.
pub open spec fn entries<'a>(v: Seq<MapRange<'a>>) -> Seq<MapEntry> {
    v.map_values(|m: MapRange<'a>| m@)
}

/// Two or more words joined by spaces are longer than the first of them.
proof fn lemma_join_longer(parts: Seq<Seq<char>>)
    requires
        parts.len() >= 2,
    ensures
        join_seq(parts, seq![' ']).len() > parts[0].len(),
    decreases parts.len(),
{
    if parts.len() == 2 {
        assert(join_seq(parts.drop_last(), seq![' ']) == parts[0]);
    } else {
        lemma_join_longer(parts.drop_last());
    }
}

/// Words without whitespace joined by spaces hold a space exactly when
/// there are two or more of them.
proof fn lemma_join_has_space(parts: Seq<Seq<char>>)
    requires
        forall|m: int| 0 <= m < parts.len() ==> crate::text::ws_free(#[trigger] parts[m]),
    ensures
        join_seq(parts, seq![' ']).contains(' ') <==> parts.len() >= 2,
    decreases parts.len(),
{
    let j = join_seq(parts, seq![' ']);
    if parts.len() == 0 {
        assert(j.len() == 0);
    } else if parts.len() == 1 {
        assert(j == parts[0]);
        if j.contains(' ') {
            let k = choose|k: int| 0 <= k < j.len() && j[k] == ' ';
            assert(!crate::text::is_ws(parts[0][k]));
        }
    } else {
        let h = join_seq(parts.drop_last(), seq![' ']);
        assert(j == h + seq![' '] + parts.last());
        assert(j[h.len() as int] == ' ');
    }
}

/// The two readers decode a listing into as many entries, which agree on
/// the bounds, offset, device, flags and inode; their paths agree exactly
/// when the line has at most one trailing word, that is exactly when the
/// joined path holds no space.
pub proof fn lemma_readers_agree(contents: Seq<char>)
    requires
        parse_full(contents) is Ok,
    ensures
        parse_full(contents) matches Ok(fs) ==> {
            let a = fs.map_values(|f: FullLine| first_word_entry(f));
            let b = fs.map_values(|f: FullLine| joined_entry(f));
            &&& a.len() == b.len()
            &&& forall|i: int|
                0 <= i < a.len() ==> {
                    &&& (#[trigger] a[i]).start == b[i].start
                    &&& a[i].end == b[i].end
                    &&& a[i].offset == b[i].offset
                    &&& a[i].dev == b[i].dev
                    &&& a[i].flags == b[i].flags
                    &&& a[i].inode == b[i].inode
                    &&& (a[i].pathname == b[i].pathname <==> fs[i].rest.len() <= 1)
                    &&& (a[i].pathname == b[i].pathname <==> !b[i].pathname.contains(' '))
                }
        },
{
    crate::procmaps::lemma_parse_full_ws_free(contents);
    if let Ok(fs) = parse_full(contents) {
        let a = fs.map_values(|f: FullLine| first_word_entry(f));
        let b = fs.map_values(|f: FullLine| joined_entry(f));
        assert forall|i: int| 0 <= i < a.len() implies (a[i].pathname == b[i].pathname <==> fs[i].rest.len()
            <= 1) && (fs[i].rest.len() <= 1 <==> !b[i].pathname.contains(' ')) by {
            if fs[i].rest.len() >= 2 {
                lemma_join_longer(fs[i].rest);
            }
            assert forall|m: int| 0 <= m < fs[i].rest.len() implies crate::text::ws_free(
                #[trigger] fs[i].rest[m],
            ) by {}
            lemma_join_has_space(fs[i].rest);
        }
    }
}

/// Decodes a well-formed maps listing up to its first line without words;
/// the path is the trailing words joined by single spaces.
pub fn std_parse_proc_maps(contents: &str) -> (r: Vec<MapRangeStd>)
    requires
        parse_full(contents@) is Ok,
    ensures
        parse_full(contents@) matches Ok(fs) && entries_maprangestd(r@) == fs.map_values(
            |f: FullLine| joined_entry(f),
        ),
{
    let lines = split_str(contents, '\n');
    let ghost ls = strs_view(lines@);
    let mut vec: Vec<MapRangeStd> = Vec::new();
    let ghost mut fulls: Seq<FullLine> = seq![];
    let mut i: usize = 0;
    assert(entries_maprangestd(vec@) =~= fulls.map_values(|f: FullLine| joined_entry(f)));
    while i < lines.len()
        invariant
            i <= lines@.len(),
            ls == strs_view(lines@),
            ls == split_seq(contents@, '\n'),
            parse_full_lines(ls, i as int, fulls) == parse_full(contents@),
            parse_full(contents@) is Ok,
            entries_maprangestd(vec@) == fulls.map_values(|f: FullLine| joined_entry(f)),
        decreases lines@.len() - i,
    {
        let w = split_whitespace(lines[i]);
        assert(ls[i as int] == lines@[i as int]@);
        assert(strs_view(w@) == words(ls[i as int]));
        if w.len() == 0 {
            return vec;
        }
        match parse_full_words_exec(&w) {
            Err(e) => {
                proof {
                    assert(parse_full_lines(ls, i as int, fulls) is Err);
                }
                return vec;
            },
            Ok(fields) => {
                let ghost f = parse_full_words(strs_view(w@))->Ok_0;
                let pathname = join_from(&w, 5, " ");
                proof {
                    reveal_strlit(" ");
                    assert(" "@ =~= seq![' ']);
                }
                let m = MapRangeStd {
                    range_start: fields.start,
                    range_end: fields.end,
                    offset: fields.offset,
                    dev: String::from_str(fields.dev),
                    flags: String::from_str(fields.flags),
                    inode: fields.inode,
                    pathname,
                };
                let ghost prev = vec@;
                vec.push(m);
                proof {
                    let ghost pf = fulls;
                    fulls = fulls.push(f);
                    assert(joined_entry(f).pathname =~= m@.pathname);
                    assert(m@ =~= joined_entry(f));
                    assert(entries_maprangestd(vec@) =~= entries_maprangestd(prev).push(m@));
                    assert(fulls.map_values(|f: FullLine| joined_entry(f)) =~= pf.map_values(
                        |f: FullLine| joined_entry(f),
                    ).push(joined_entry(f)));
                }
            },
        }
        i = i + 1;
    }
    vec
}

/// Decodes a well-formed maps listing up to its first line without words;
/// the path is the first trailing word, or empty.
pub fn no_std_parse_proc_maps<'a>(contents: &'a str) -> (r: Vec<MapRange<'a>>)
    requires
        parse_full(contents@) is Ok,
    ensures
        parse_full(contents@) matches Ok(fs) && entries(r@) == fs.map_values(
            |f: FullLine| first_word_entry(f),
        ),
{
    let lines = split_str(contents, '\n');
    let ghost ls = strs_view(lines@);
    let mut vec: Vec<MapRange<'a>> = Vec::new();
    let ghost mut fulls: Seq<FullLine> = seq![];
    let mut i: usize = 0;
    assert(entries(vec@) =~= fulls.map_values(|f: FullLine| first_word_entry(f)));
    while i < lines.len()
        invariant
            i <= lines@.len(),
            ls == strs_view(lines@),
            ls == split_seq(contents@, '\n'),
            parse_full_lines(ls, i as int, fulls) == parse_full(contents@),
            parse_full(contents@) is Ok,
            entries(vec@) == fulls.map_values(|f: FullLine| first_word_entry(f)),
        decreases lines@.len() - i,
    {
        let w = split_whitespace(lines[i]);
        assert(ls[i as int] == lines@[i as int]@);
        assert(strs_view(w@) == words(ls[i as int]));
        if w.len() == 0 {
            return vec;
        }
        match parse_full_words_exec(&w) {
            Err(e) => {
                proof {
                    assert(parse_full_lines(ls, i as int, fulls) is Err);
                }
                return vec;
            },
            Ok(fields) => {
                let ghost f = parse_full_words(strs_view(w@))->Ok_0;
                let pathname = if w.len() > 5 {
                    w[5]
                } else {
                    ""
                };
                proof {
                    reveal_strlit("");
                }
                let m = MapRange {
                    range_start: fields.start,
                    range_end: fields.end,
                    offset: fields.offset,
                    dev: fields.dev,
                    flags: fields.flags,
                    inode: fields.inode,
                    pathname,
                };
                let ghost prev = vec@;
                vec.push(m);
                proof {
                    let ghost pf = fulls;
                    fulls = fulls.push(f);
                    assert(first_word_entry(f).pathname =~= m@.pathname);
                    assert(m@ =~= first_word_entry(f));
                    assert(entries(vec@) =~= entries(prev).push(m@));
                    assert(fulls.map_values(|f: FullLine| first_word_entry(f)) =~= pf.map_values(
                        |f: FullLine| first_word_entry(f),
                    ).push(first_word_entry(f)));
                }
            },
        }
        i = i + 1;
    }
    vec
}

} // verus!
