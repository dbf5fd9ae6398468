//! Reading machine words written as escaped byte strings such as
//! `\xa2\x01\x80\xd2`: every sixteen characters hold one little-endian
//! 32-bit word.

use crate::text::{IntErrorKind, parse_uint, parse_uint_chars};
use vstd::prelude::*;
use vstd::string::StringSliceAdditionalSpecFns;

verus! {

/// Why a word list could not be decoded.
#[derive(Debug)]
pub enum Error {
    /// A word's digits were not a valid hexadecimal numeral.
    ParseError(IntErrorKind),
    /// The decoder rejected the input.
    DecodeError(String),
}

/// Whether `b[i..i + 2]` is the escape `\x`.
pub open spec fn escape_at(b: Seq<u8>, i: int) -> bool {
    b[i] == 92u8 && b[i + 1] == 120u8
}

/// The pieces of `b` between the escapes `\x`, for the piece begun at
/// `start` with the scan at `i`.
pub open spec fn pieces_from(b: Seq<u8>, start: int, i: int) -> Seq<Seq<u8>>
    decreases b.len() - i,
{
    if i + 1 >= b.len() {
        seq![b.subrange(start, b.len() as int)]
    } else if escape_at(b, i) {
        seq![b.subrange(start, i)] + pieces_from(b, i + 2, i + 2)
    } else {
        pieces_from(b, start, i + 1)
    }
}

/// `p[k..]` joined in reverse order: `p[len - 1] + ... + p[k]`.
pub open spec fn join_rev_from(p: Seq<Seq<u8>>, k: int) -> Seq<u8>
    decreases p.len() - k,
{
    if k >= p.len() || k < 0 {
        seq![]
    } else {
        join_rev_from(p, k + 1) + p[k]
    }
}

/// Bytes read as the characters of the same code.
pub open spec fn as_chars(b: Seq<u8>) -> Seq<char> {
    b.map_values(|x: u8| x as char)
}

/// The hexadecimal digits of one group: the pieces after the first escape,
/// last piece first.
pub open spec fn group_digits(g: Seq<u8>) -> Seq<u8> {
    join_rev_from(pieces_from(g, 0, 0), 1)
}

/// The word of one group.
pub open spec fn group_word(g: Seq<u8>) -> Result<int, IntErrorKind> {
    parse_uint(as_chars(group_digits(g)), true, u32::MAX as int)
}

/// Group `j` of `b`: its bytes `16 * j` up to `16 * j + 16`.
pub open spec fn group(b: Seq<u8>, j: int) -> Seq<u8> {
    b.subrange(16 * j, if 16 * j + 16 <= b.len() {
        16 * j + 16
    } else {
        b.len() as int
    })
}

/// Number of groups of `b`.
pub open spec fn group_count(b: Seq<u8>) -> int {
    (b.len() as int + 15) / 16
}

/// The words of groups `j..` of `b`, or the first group's error.
pub open spec fn words_from(b: Seq<u8>, j: int) -> Result<Seq<int>, IntErrorKind>
    decreases group_count(b) - j,
{
    if j < 0 || j >= group_count(b) {
        Ok(seq![])
    } else {
        match group_word(group(b, j)) {
            Err(k) => Err(k),
            Ok(w) => match words_from(b, j + 1) {
                Err(k) => Err(k),
                Ok(rest) => Ok(seq![w] + rest),
            },
        }
    }
}

/// The pieces of `g` between the escapes `\x`.
fn split_escapes(g: &[u8]) -> (r: Vec<Vec<u8>>)
    ensures
        r@.map_values(|v: Vec<u8>| v@) == pieces_from(g@, 0, 0),
{
    let n = g.len();
    let mut out: Vec<Vec<u8>> = Vec::new();
    let mut cur: Vec<u8> = Vec::new();
    let mut start: usize = 0;
    let mut i: usize = 0;
    while n - i > 1
        invariant
            n == g@.len(),
            start <= i <= n,
            cur@ == g@.subrange(start as int, i as int),
            out@.map_values(|v: Vec<u8>| v@) + pieces_from(g@, start as int, i as int) == pieces_from(
                g@,
                0,
                0,
            ),
        decreases n - i,
    {
        if g[i] == 92 && g[i + 1] == 120 {
            let ghost prev = out@;
            out.push(cur);
            assert(out@.map_values(|v: Vec<u8>| v@) =~= prev.map_values(|v: Vec<u8>| v@).push(
                g@.subrange(start as int, i as int),
            ));
            cur = Vec::new();
            i = i + 2;
            start = i;
            assert(cur@ =~= g@.subrange(start as int, i as int));
        } else {
            cur.push(g[i]);
            assert(cur@ =~= g@.subrange(start as int, i + 1 as int));
            i = i + 1;
        }
    }
    while i < n
        invariant
            n == g@.len(),
            start <= i <= n,
            i + 1 >= n,
            cur@ == g@.subrange(start as int, i as int),
        decreases n - i,
    {
        cur.push(g[i]);
        assert(cur@ =~= g@.subrange(start as int, i + 1 as int));
        i = i + 1;
    }
    let ghost prev = out@;
    out.push(cur);
    assert(out@.map_values(|v: Vec<u8>| v@) =~= prev.map_values(|v: Vec<u8>| v@).push(
        g@.subrange(start as int, n as int),
    ));
    out
}

/// The word written in the group `g`.
fn group_value(g: &[u8]) -> (r: Result<u32, IntErrorKind>)
    ensures
        match r {
            Ok(v) => group_word(g@) == Ok::<int, IntErrorKind>(v as int),
            Err(k) => group_word(g@) == Err::<int, IntErrorKind>(k),
        },
{
    let pieces = split_escapes(g);
    let ghost p = pieces@.map_values(|v: Vec<u8>| v@);
    let mut digits: Vec<char> = Vec::new();
    let mut k: usize = pieces.len();
    while k > 1
        invariant
            k <= pieces@.len(),
            pieces@.len() >= 1 ==> k >= 1,
            p == pieces@.map_values(|v: Vec<u8>| v@),
            digits@ == as_chars(join_rev_from(p, k as int)),
        decreases k,
    {
        k = k - 1;
        let piece = &pieces[k];
        let mut j: usize = 0;
        let ghost before = digits@;
        while j < piece.len()
            invariant
                j <= piece@.len(),
                digits@ == before + as_chars(piece@.take(j as int)),
            decreases piece@.len() - j,
        {
            digits.push(piece[j] as char);
            assert(as_chars(piece@.take(j + 1 as int)) =~= as_chars(piece@.take(j as int)).push(
                piece@[j as int] as char,
            ));
            j = j + 1;
        }
        assert(piece@.take(piece@.len() as int) =~= piece@);
        assert(p[k as int] == piece@);
        assert(as_chars(join_rev_from(p, k as int)) =~= as_chars(join_rev_from(p, k + 1 as int))
            + as_chars(p[k as int]));
    }
    if pieces.len() == 0 {
        assert(join_rev_from(p, 1) =~= Seq::<u8>::empty());
    }
    assert(digits@ =~= as_chars(group_digits(g@)));
    match parse_uint_chars(&digits, true, 0xffff_ffff) {
        Ok(v) => {
            proof {
                crate::text::lemma_parse_bounded(digits@, true, 0xffff_ffff);
            }
            Ok(v as u32)
        },
        Err(k) => Err(k),
    }
}

/// The words written in `s`, one per sixteen bytes: each group's pieces
/// after its first `\x`, joined last piece first, read as a hexadecimal
/// 32-bit number. The first group that does not read gives the error.
pub fn jstr_to_vu32(s: &str) -> (r: Result<Vec<u32>, Error>)
    ensures
        match words_from(s.spec_bytes(), 0) {
            Ok(ws) => r matches Ok(v) && v@.map_values(|x: u32| x as int) == ws,
            Err(k) => r matches Err(Error::ParseError(k2)) && k2 == k,
        },
{
    let b = s.as_bytes();
    let n = b.len();
    let mut out: Vec<u32> = Vec::new();
    let mut j: usize = 0;
    while j < n
        invariant
            n == b@.len(),
            b@ == s.spec_bytes(),
            j <= n,
            j == if 16 * out@.len() <= n {
                16 * out@.len() as int
            } else {
                n as int
            },
            16 * out@.len() < n + 16,
            words_from(b@, 0) == match words_from(b@, out@.len() as int) {
                Ok(rest) => Ok::<Seq<int>, IntErrorKind>(out@.map_values(|x: u32| x as int) + rest),
                Err(k) => Err(k),
            },
        decreases n - j,
    {
        let end = if n - j >= 16 {
            j + 16
        } else {
            n
        };
        let ghost q = out@.len() as int;
        assert(j == 16 * q);
        assert(q < group_count(b@));
        let g = vstd::slice::slice_subrange(b, j, end);
        assert(g@ == group(b@, q));
        match group_value(g) {
            Err(k) => {
                return Err(Error::ParseError(k));
            },
            Ok(w) => {
                let ghost prev = out@;
                out.push(w);
                assert(out@.map_values(|x: u32| x as int) =~= prev.map_values(|x: u32| x as int).push(
                    w as int,
                ));
                j = end;
                proof {
                    match words_from(b@, q + 1) {
                        Ok(rest) => {
                            assert(out@.map_values(|x: u32| x as int) + rest =~= prev.map_values(
                                |x: u32| x as int,
                            ) + (seq![w as int] + rest));
                        },
                        Err(_) => {},
                    }
                }
            },
        }
    }
    proof {
        assert(out@.len() >= group_count(b@));
        assert(words_from(b@, out@.len() as int) == Ok::<Seq<int>, IntErrorKind>(seq![]));
        assert(out@.map_values(|x: u32| x as int) + seq![] =~= out@.map_values(|x: u32| x as int));
    }
    Ok(out)
}

} // verus!
