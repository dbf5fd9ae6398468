//! Parsing of user-supplied hexadecimal addresses.

use crate::error::Error;
use crate::text::{IntErrorKind, chars_of, parse_uint, parse_uint_chars, lemma_parse_bounded};
use vstd::prelude::*;

verus! {

/// `s` with every occurrence of `"0x"` removed, scanning left to right
/// (as `str::replace(s, "0x", "")`).
pub open spec fn strip_0x(s: Seq<char>) -> Seq<char>
    decreases s.len(),
{
    if s.len() == 0 {
        s
    } else if s.len() >= 2 && s[0] == '0' && s[1] == 'x' {
        strip_0x(s.skip(2))
    } else {
        seq![s[0]] + strip_0x(s.skip(1))
    }
}

/// The characters of `s` with every `"0x"` removed.
pub fn strip_0x_chars(s: &Vec<char>) -> (r: Vec<char>)
    ensures
        r@ == strip_0x(s@),
{
    let mut r: Vec<char> = Vec::new();
    let mut i: usize = 0;
    assert(s@.skip(0) =~= s@);
    assert(r@ + strip_0x(s@.skip(0)) =~= strip_0x(s@));
    while i < s.len()
        invariant
            i <= s@.len(),
            r@ + strip_0x(s@.skip(i as int)) == strip_0x(s@),
        decreases s@.len() - i,
    {
        let ghost rest = s@.skip(i as int);
        if i + 1 < s.len() && s[i] == '0' && s[i + 1] == 'x' {
            assert(rest.skip(2) =~= s@.skip(i + 2));
            i = i + 2;
        } else {
            assert(rest.skip(1) =~= s@.skip(i + 1));
            let ghost prev = r@;
            r.push(s[i]);
            assert(r@ + strip_0x(s@.skip(i + 1)) =~= prev + (seq![rest[0]] + strip_0x(
                rest.skip(1),
            )));
            i = i + 1;
        }
    }
    assert(s@.skip(i as int) =~= Seq::<char>::empty());
    assert(r@ =~= r@ + strip_0x(s@.skip(i as int)));
    r
}

/// Reads a hexadecimal address such as `0x7ffe40b6b000` or `7ffe40b6b000`:
/// every `"0x"` is removed and the rest parsed in base 16.
pub fn hexstr_to_usize(s: &str) -> (r: Result<usize, Error>)
    ensures
        match r {
            Ok(v) => parse_uint(strip_0x(s@), true, usize::MAX as int) == Ok::<int, IntErrorKind>(v as int),
            Err(e) => exists|k| e == Error::ParseIntError(k) && parse_uint(
                strip_0x(s@),
                true,
                usize::MAX as int,
            ) == Err::<int, IntErrorKind>(k),
        },
{
    let chars = chars_of(s);
    let stripped = strip_0x_chars(&chars);
    let m = usize::MAX as u64;
    match parse_uint_chars(&stripped, true, m) {
        Ok(v) => {
            proof {
                lemma_parse_bounded(stripped@, true, m as int);
            }
            Ok(v as usize)
        },
        Err(k) => Err(Error::ParseIntError(k)),
    }
}

} // verus!
