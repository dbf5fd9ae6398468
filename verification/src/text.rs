//! Character-level text utilities shared by the parsers: whitespace and
//! separator splitting, joining, trimming and radix-16/radix-10 integer parsing.

use vstd::prelude::*;
use vstd::std_specs::iter::IteratorSpec;
use vstd::string::StrSliceExecFns;
use vstd::string::StringExecFns;
use vstd::utf8::{encode_utf8, is_char_boundary};

verus! {

/// The characters that `char::is_whitespace` accepts (Unicode `White_Space`).
pub open spec fn is_ws(c: char) -> bool {
    ||| c == ' '
    ||| c == '\t'
    ||| c == '\n'
    ||| c == '\x0B'
    ||| c == '\x0C'
    ||| c == '\r'
    ||| c == '\u{85}'
    ||| c == '\u{A0}'
    ||| c == '\u{1680}'
    ||| ('\u{2000}' <= c && c <= '\u{200A}')
    ||| c == '\u{2028}'
    ||| c == '\u{2029}'
    ||| c == '\u{202F}'
    ||| c == '\u{205F}'
    ||| c == '\u{3000}'
}

/// Whether `c` is a Unicode whitespace character.
pub fn is_whitespace(c: char) -> (b: bool)
    ensures
        b == is_ws(c),
{
    c == ' ' || c == '\t' || c == '\n' || c == '\x0B' || c == '\x0C' || c == '\r' || c == '\u{85}'
        || c == '\u{A0}' || c == '\u{1680}' || ('\u{2000}' <= c && c <= '\u{200A}') || c
        == '\u{2028}' || c == '\u{2029}' || c == '\u{202F}' || c == '\u{205F}' || c == '\u{3000}'
}

/// The characters of `s`, in order.
pub fn chars_of(s: &str) -> (v: Vec<char>)
    ensures
        v@ == s@,
{
    let mut v: Vec<char> = Vec::new();
    let mut it = s.chars();
    proof {
        broadcast use vstd::string::group_string_axioms;
    }
    loop
        invariant
            v@ + it.remaining() == s@,
            it.obeys_prophetic_iter_laws(),
            it.decrease() is Some,
        decreases it.decrease()->0,
    {
        let ghost before = it.remaining();
        match it.next() {
            Some(c) => {
                proof {
                    broadcast use vstd::string::group_string_axioms;
                }
                v.push(c);
                assert(v@ + it.remaining() =~= s@);
            },
            None => {
                proof {
                    broadcast use vstd::string::group_string_axioms;
                }
                assert(v@ =~= s@);
                return v;
            },
        }
    }
}

/// Appends `c` to `s` (`String::push`).
#[verifier::external_body]
pub(crate) fn push_char(s: &mut String, c: char)
    ensures
        final(s)@ == old(s)@.push(c),
{
    s.push(c)
}

/// Whether two strings hold the same characters.
pub fn str_eq(a: &str, b: &str) -> (r: bool)
    ensures
        r == (a@ == b@),
{
    let x = chars_of(a);
    let y = chars_of(b);
    if x.len() != y.len() {
        return false;
    }
    let mut i: usize = 0;
    while i < x.len()
        invariant
            x@ == a@,
            y@ == b@,
            x@.len() == y@.len(),
            i <= x@.len(),
            forall|k: int| 0 <= k < i ==> x@[k] == y@[k],
        decreases x@.len() - i,
    {
        if x[i] != y[i] {
            return false;
        }
        i = i + 1;
    }
    assert(x@ =~= y@);
    true
}

/// Character spans `[lo, hi)` of the pieces of `s` split at every `sep`; the
/// piece being scanned began at `start` and scanning has reached `i`.
pub open spec fn split_spans_from(s: Seq<char>, sep: char, start: int, i: int) -> Seq<(int, int)>
    decreases s.len() - i,
{
    if i >= s.len() {
        seq![(start, s.len() as int)]
    } else if s[i] == sep {
        seq![(start, i)] + split_spans_from(s, sep, i + 1, i + 1)
    } else {
        split_spans_from(s, sep, start, i + 1)
    }
}

/// Spans of the pieces of `s` split at every `sep` (as `str::split` with a char).
pub open spec fn split_spans(s: Seq<char>, sep: char) -> Seq<(int, int)> {
    split_spans_from(s, sep, 0, 0)
}

/// Spans of the maximal runs of non-whitespace characters of `s` from `i` on;
/// `start` is the beginning of the run being scanned, if any.
pub open spec fn word_spans_from(s: Seq<char>, i: int, start: Option<int>) -> Seq<(int, int)>
    decreases s.len() - i,
{
    if i >= s.len() {
        match start {
            Some(a) => seq![(a, s.len() as int)],
            None => seq![],
        }
    } else if is_ws(s[i]) {
        match start {
            Some(a) => seq![(a, i)] + word_spans_from(s, i + 1, None),
            None => word_spans_from(s, i + 1, None),
        }
    } else {
        match start {
            Some(a) => word_spans_from(s, i + 1, Some(a)),
            None => word_spans_from(s, i + 1, Some(i)),
        }
    }
}

/// Spans of the whitespace-separated words of `s` (as `str::split_whitespace`).
pub open spec fn word_spans(s: Seq<char>) -> Seq<(int, int)> {
    word_spans_from(s, 0, None)
}

/// The pieces of `s` that `spans` select.
pub open spec fn pieces(s: Seq<char>, spans: Seq<(int, int)>) -> Seq<Seq<char>> {
    spans.map_values(|p: (int, int)| s.subrange(p.0, p.1))
}

/// `s` split at every occurrence of `sep`.
pub open spec fn split_seq(s: Seq<char>, sep: char) -> Seq<Seq<char>> {
    pieces(s, split_spans(s, sep))
}

/// The whitespace-separated words of `s`.
pub open spec fn words(s: Seq<char>) -> Seq<Seq<char>> {
    pieces(s, word_spans(s))
}

/// `w` holds no whitespace character.
pub open spec fn ws_free(w: Seq<char>) -> bool {
    forall|j: int| 0 <= j < w.len() ==> !is_ws(#[trigger] w[j])
}

/// Every span found from `i` on lies in `s` and covers no whitespace, given
/// that the run being scanned has none so far.
proof fn lemma_word_spans_from_ws_free(s: Seq<char>, i: int, start: Option<int>)
    requires
        0 <= i <= s.len(),
        start matches Some(a) ==> 0 <= a <= i && forall|j: int| a <= j < i ==> !is_ws(#[trigger] s[j]),
    ensures
        forall|k: int|
            0 <= k < word_spans_from(s, i, start).len() ==> {
                let p = #[trigger] word_spans_from(s, i, start)[k];
                &&& 0 <= p.0 <= p.1 <= s.len()
                &&& forall|j: int| p.0 <= j < p.1 ==> !is_ws(#[trigger] s[j])
            },
    decreases s.len() - i,
{
    if i >= s.len() {
        match start {
            Some(a) => {
                assert(word_spans_from(s, i, start) == seq![(a, s.len() as int)]);
                assert(word_spans_from(s, i, start)[0] == (a, s.len() as int));
            },
            None => {
                assert(word_spans_from(s, i, start).len() == 0);
            },
        }
    } else if is_ws(s[i]) {
        lemma_word_spans_from_ws_free(s, i + 1, None);
        match start {
            Some(a) => {
                let rest = word_spans_from(s, i + 1, None);
                assert(word_spans_from(s, i, start) == seq![(a, i)] + rest);
                assert forall|k: int| 0 <= k < word_spans_from(s, i, start).len() implies {
                    let p = #[trigger] word_spans_from(s, i, start)[k];
                    &&& 0 <= p.0 <= p.1 <= s.len()
                    &&& forall|j: int| p.0 <= j < p.1 ==> !is_ws(#[trigger] s[j])
                } by {
                    if k > 0 {
                        assert(word_spans_from(s, i, start)[k] == rest[k - 1]);
                    }
                }
            },
            None => {
                assert(word_spans_from(s, i, start) == word_spans_from(s, i + 1, None));
            },
        }
    } else {
        match start {
            Some(a) => {
                lemma_word_spans_from_ws_free(s, i + 1, Some(a));
                assert(word_spans_from(s, i, start) == word_spans_from(s, i + 1, Some(a)));
            },
            None => {
                lemma_word_spans_from_ws_free(s, i + 1, Some(i));
                assert(word_spans_from(s, i, start) == word_spans_from(s, i + 1, Some(i)));
            },
        }
    }
}

/// No word of `s` holds a whitespace character.
pub proof fn lemma_words_ws_free(s: Seq<char>)
    ensures
        forall|k: int| 0 <= k < words(s).len() ==> ws_free(#[trigger] words(s)[k]),
{
    lemma_word_spans_from_ws_free(s, 0, None);
    assert forall|k: int| 0 <= k < words(s).len() implies ws_free(#[trigger] words(s)[k]) by {
        let p = word_spans(s)[k];
        assert(words(s)[k] == s.subrange(p.0, p.1));
        assert forall|j: int| 0 <= j < words(s)[k].len() implies !is_ws(#[trigger] words(s)[k][j]) by {
            assert(words(s)[k][j] == s[p.0 + j]);
        }
    }
}

/// Spans held in machine integers, seen as mathematical spans.
pub open spec fn spans_view(r: Seq<(usize, usize)>) -> Seq<(int, int)> {
    r.map_values(|p: (usize, usize)| (p.0 as int, p.1 as int))
}

/// String slices seen as their character sequences.
pub open spec fn strs_view(r: Seq<&str>) -> Seq<Seq<char>> {
    r.map_values(|x: &str| x@)
}

/// `parts` joined with `sep` between consecutive parts.
pub open spec fn join_seq(parts: Seq<Seq<char>>, sep: Seq<char>) -> Seq<char>
    decreases parts.len(),
{
    if parts.len() == 0 {
        seq![]
    } else if parts.len() == 1 {
        parts[0]
    } else {
        join_seq(parts.drop_last(), sep) + sep + parts.last()
    }
}

/// Index of the first non-whitespace character of `s` at or after `i`
/// (`s.len()` when there is none).
pub open spec fn skip_ws(s: Seq<char>, i: int) -> int
    decreases s.len() - i,
{
    if i >= s.len() {
        s.len() as int
    } else if is_ws(s[i]) {
        skip_ws(s, i + 1)
    } else {
        i
    }
}

/// Spans of `s` split at every `sep`.
pub fn split_spans_exec(s: &Vec<char>, sep: char) -> (r: Vec<(usize, usize)>)
    ensures
        spans_view(r@) == split_spans(s@, sep),
        forall|k: int| 0 <= k < r@.len() ==> #[trigger] r@[k].0 <= r@[k].1 <= s@.len(),
{
    let mut r: Vec<(usize, usize)> = Vec::new();
    let mut start: usize = 0;
    let mut i: usize = 0;
    while i < s.len()
        invariant
            start <= i <= s@.len(),
            spans_view(r@) + split_spans_from(s@, sep, start as int, i as int) == split_spans(
                s@,
                sep,
            ),
            forall|k: int| 0 <= k < r@.len() ==> #[trigger] r@[k].0 <= r@[k].1 <= s@.len(),
        decreases s@.len() - i,
    {
        let ghost prev = r@;
        if s[i] == sep {
            r.push((start, i));
            assert(spans_view(r@) =~= spans_view(prev) + seq![(start as int, i as int)]);
            assert(spans_view(r@) + split_spans_from(s@, sep, i + 1, i + 1) =~= spans_view(prev)
                + split_spans_from(s@, sep, start as int, i as int));
            start = i + 1;
        }
        i = i + 1;
    }
    let ghost prev = r@;
    r.push((start, s.len()));
    assert(spans_view(r@) =~= spans_view(prev) + seq![(start as int, s@.len() as int)]);
    r
}

/// Spans of the whitespace-separated words of `s`.
pub fn word_spans_exec(s: &Vec<char>) -> (r: Vec<(usize, usize)>)
    ensures
        spans_view(r@) == word_spans(s@),
        forall|k: int| 0 <= k < r@.len() ==> #[trigger] r@[k].0 <= r@[k].1 <= s@.len(),
{
    let mut r: Vec<(usize, usize)> = Vec::new();
    let mut start: Option<usize> = None;
    let mut i: usize = 0;
    while i < s.len()
        invariant
            i <= s@.len(),
            start matches Some(a) ==> a <= i,
            spans_view(r@) + word_spans_from(
                s@,
                i as int,
                match start {
                    Some(a) => Some(a as int),
                    None => None,
                },
            ) == word_spans(s@),
            forall|k: int| 0 <= k < r@.len() ==> #[trigger] r@[k].0 <= r@[k].1 <= s@.len(),
        decreases s@.len() - i,
    {
        let ghost prev = r@;
        if is_whitespace(s[i]) {
            match start {
                Some(a) => {
                    r.push((a, i));
                    assert(spans_view(r@) =~= spans_view(prev) + seq![(a as int, i as int)]);
                    assert(spans_view(r@) + word_spans_from(s@, i + 1, None) =~= spans_view(prev)
                        + word_spans_from(s@, i as int, Some(a as int)));
                },
                None => {},
            }
            start = None;
        } else {
            match start {
                Some(_) => {},
                None => {
                    start = Some(i);
                },
            }
        }
        i = i + 1;
    }
    match start {
        Some(a) => {
            let ghost prev = r@;
            r.push((a, s.len()));
            assert(spans_view(r@) =~= spans_view(prev) + seq![(a as int, s@.len() as int)]);
        },
        None => {
            assert(spans_view(r@) =~= spans_view(r@) + Seq::<(int, int)>::empty());
        },
    }
    r
}

/// The slices of `s` that `spans` select.
pub fn slices_of<'a>(s: &'a str, chars: &Vec<char>, spans: &Vec<(usize, usize)>) -> (r: Vec<&'a str>)
    requires
        chars@ == s@,
        forall|k: int| 0 <= k < spans@.len() ==> #[trigger] spans@[k].0 <= spans@[k].1 <= s@.len(),
    ensures
        strs_view(r@) == pieces(s@, spans_view(spans@)),
{
    let mut r: Vec<&'a str> = Vec::new();
    let mut k: usize = 0;
    while k < spans.len()
        invariant
            k <= spans@.len(),
            chars@ == s@,
            forall|j: int| 0 <= j < spans@.len() ==> #[trigger] spans@[j].0 <= spans@[j].1 <= s@.len(),
            strs_view(r@) == pieces(s@, spans_view(spans@)).take(k as int),
        decreases spans@.len() - k,
    {
        let (lo, hi) = spans[k];
        let piece = s.substring_char(lo, hi);
        let ghost prev = r@;
        r.push(piece);
        assert(spans_view(spans@)[k as int] == (lo as int, hi as int));
        assert(pieces(s@, spans_view(spans@))[k as int] == piece@);
        assert(strs_view(r@) =~= strs_view(prev).push(piece@));
        assert(strs_view(r@) =~= pieces(s@, spans_view(spans@)).take(k + 1));
        k = k + 1;
    }
    assert(pieces(s@, spans_view(spans@)).take(k as int) =~= pieces(s@, spans_view(spans@)));
    r
}

/// `s` split at every occurrence of `sep`, as `str::split` does.
pub fn split_str<'a>(s: &'a str, sep: char) -> (r: Vec<&'a str>)
    ensures
        strs_view(r@) == split_seq(s@, sep),
{
    let chars = chars_of(s);
    let spans = split_spans_exec(&chars, sep);
    slices_of(s, &chars, &spans)
}

/// The whitespace-separated words of `s`, as `str::split_whitespace` yields them.
pub fn split_whitespace<'a>(s: &'a str) -> (r: Vec<&'a str>)
    ensures
        strs_view(r@) == words(s@),
{
    let chars = chars_of(s);
    let spans = word_spans_exec(&chars);
    slices_of(s, &chars, &spans)
}

/// `parts[from..]` joined with `sep` in between.
pub fn join_from(parts: &Vec<&str>, from: usize, sep: &str) -> (r: String)
    requires
        from <= parts@.len(),
    ensures
        r@ == join_seq(strs_view(parts@).skip(from as int), sep@),
{
    let mut r = String::new();
    let mut k: usize = from;
    while k < parts.len()
        invariant
            from <= k <= parts@.len(),
            r@ == join_seq(strs_view(parts@).subrange(from as int, k as int), sep@),
        decreases parts@.len() - k,
    {
        let ghost prev = strs_view(parts@).subrange(from as int, k as int);
        let ghost next = strs_view(parts@).subrange(from as int, k + 1);
        assert(next.drop_last() =~= prev);
        if k != from {
            r.append(sep);
        } else {
            assert(prev.len() == 0);
            assert(r@ =~= Seq::<char>::empty());
        }
        r.append(parts[k]);
        if k == from {
            assert(r@ =~= next[0]);
        }
        k = k + 1;
    }
    assert(strs_view(parts@).subrange(from as int, parts@.len() as int) =~= strs_view(
        parts@,
    ).skip(from as int));
    r
}

/// `s` without its leading whitespace, as `str::trim_start` returns it.
pub fn trim_start<'a>(s: &'a str) -> (r: &'a str)
    ensures
        r@ == s@.skip(skip_ws(s@, 0)),
{
    let chars = chars_of(s);
    let mut i: usize = 0;
    while i < chars.len() && is_whitespace(chars[i])
        invariant
            i <= chars@.len(),
            chars@ == s@,
            skip_ws(s@, i as int) == skip_ws(s@, 0),
        decreases chars@.len() - i,
    {
        i = i + 1;
    }
    s.substring_char(i, chars.len())
}

/// Why an integer could not be parsed (the kinds `ParseIntError` reports for
/// unsigned targets).
#[derive(Debug, Clone, Copy, PartialEq, Eq, Structural)]
pub enum IntErrorKind {
    Empty,
    InvalidDigit,
    PosOverflow,
    NegOverflow,
}

/// The value of `c` as a digit in base 16 (`hex`) or base 10, as `char::to_digit`.
pub open spec fn digit_of(c: char, hex: bool) -> Option<int> {
    if '0' <= c && c <= '9' {
        Some(c as int - '0' as int)
    } else if hex && 'a' <= c && c <= 'f' {
        Some(c as int - 'a' as int + 10)
    } else if hex && 'A' <= c && c <= 'F' {
        Some(c as int - 'A' as int + 10)
    } else {
        None
    }
}

/// The base of the numeral: 16 or 10.
pub open spec fn base_of(hex: bool) -> int {
    if hex {
        16
    } else {
        10
    }
}

/// Accumulates the digits `s[i..]` onto `acc`, failing on the first invalid
/// digit or as soon as the value exceeds `max`.
pub open spec fn digits_from(s: Seq<char>, i: int, acc: int, hex: bool, max: int) -> Result<
    int,
    IntErrorKind,
>
    decreases s.len() - i,
{
    if i >= s.len() {
        Ok(acc)
    } else {
        match digit_of(s[i], hex) {
            None => Err(IntErrorKind::InvalidDigit),
            Some(d) => if acc * base_of(hex) + d > max {
                Err(IntErrorKind::PosOverflow)
            } else {
                digits_from(s, i + 1, acc * base_of(hex) + d, hex, max)
            },
        }
    }
}

/// The value of the unsigned numeral `s` in base 16 or 10 with upper bound
/// `max`, as `from_str_radix` computes it for an unsigned type.
pub open spec fn parse_uint(s: Seq<char>, hex: bool, max: int) -> Result<int, IntErrorKind> {
    if s.len() == 0 {
        Err(IntErrorKind::Empty)
    } else if s.len() == 1 && (s[0] == '+' || s[0] == '-') {
        Err(IntErrorKind::InvalidDigit)
    } else if s[0] == '+' {
        digits_from(s, 1, 0, hex, max)
    } else {
        digits_from(s, 0, 0, hex, max)
    }
}

/// A parse outcome held in a machine integer, seen mathematically.
pub open spec fn uint_result(r: Result<u64, IntErrorKind>) -> Result<int, IntErrorKind> {
    match r {
        Ok(v) => Ok(v as int),
        Err(e) => Err(e),
    }
}

/// A parse outcome held in a `usize`, seen mathematically.
pub open spec fn usize_result(r: Result<usize, IntErrorKind>) -> Result<int, IntErrorKind> {
    match r {
        Ok(v) => Ok(v as int),
        Err(e) => Err(e),
    }
}

/// Every successful parse stays within `max`.
pub proof fn lemma_digits_bounded(s: Seq<char>, i: int, acc: int, hex: bool, max: int)
    requires
        0 <= acc <= max,
    ensures
        digits_from(s, i, acc, hex, max) matches Ok(v) ==> 0 <= v <= max,
    decreases s.len() - i,
{
    if i < s.len() {
        match digit_of(s[i], hex) {
            None => {},
            Some(d) => {
                if acc * base_of(hex) + d <= max {
                    lemma_digits_bounded(s, i + 1, acc * base_of(hex) + d, hex, max);
                }
            },
        }
    }
}

/// The digit value of `c`, if it is a digit of the base.
pub fn digit_value(c: char, hex: bool) -> (r: Option<u64>)
    ensures
        match digit_of(c, hex) {
            Some(d) => r == Some(d as u64),
            None => r is None,
        },
{
    if '0' <= c && c <= '9' {
        Some(((c as u32) - ('0' as u32)) as u64)
    } else if hex && 'a' <= c && c <= 'f' {
        Some(((c as u32) - ('a' as u32) + 10) as u64)
    } else if hex && 'A' <= c && c <= 'F' {
        Some(((c as u32) - ('A' as u32) + 10) as u64)
    } else {
        None
    }
}

/// Parses the unsigned numeral held in `s` (base 16 or 10) with upper bound `max`.
pub fn parse_uint_chars(s: &Vec<char>, hex: bool, max: u64) -> (r: Result<u64, IntErrorKind>)
    ensures
        uint_result(r) == parse_uint(s@, hex, max as int),
{
    if s.len() == 0 {
        return Err(IntErrorKind::Empty);
    }
    if s.len() == 1 && (s[0] == '+' || s[0] == '-') {
        return Err(IntErrorKind::InvalidDigit);
    }
    let mut i: usize = if s[0] == '+' {
        1
    } else {
        0
    };
    let ghost first = i as int;
    let mut acc: u64 = 0;
    while i < s.len()
        invariant
            first <= i <= s@.len(),
            acc <= max,
            parse_uint(s@, hex, max as int) == digits_from(s@, first, 0, hex, max as int),
            digits_from(s@, i as int, acc as int, hex, max as int) == digits_from(
                s@,
                first,
                0,
                hex,
                max as int,
            ),
        decreases s@.len() - i,
    {
        match digit_value(s[i], hex) {
            None => {
                return Err(IntErrorKind::InvalidDigit);
            },
            Some(d) => {
                let base: u64 = if hex {
                    16
                } else {
                    10
                };
                let wide: u128 = (acc as u128) * (base as u128) + (d as u128);
                assert(wide == acc * base_of(hex) + d);
                if wide > max as u128 {
                    return Err(IntErrorKind::PosOverflow);
                }
                acc = wide as u64;
            },
        }
        i = i + 1;
    }
    Ok(acc)
}

/// The value of the decimal numeral `s` as `i32::from_str` computes it: an
/// optional sign, then digits; a magnitude beyond the type's range is
/// `PosOverflow`, or `NegOverflow` after a minus sign.
pub open spec fn parse_i32_spec(s: Seq<char>) -> Result<int, IntErrorKind> {
    if s.len() == 0 {
        Err(IntErrorKind::Empty)
    } else if s.len() == 1 && (s[0] == '+' || s[0] == '-') {
        Err(IntErrorKind::InvalidDigit)
    } else if s[0] == '-' {
        match digits_from(s, 1, 0, false, 2147483648) {
            Ok(m) => Ok(-m),
            Err(IntErrorKind::PosOverflow) => Err(IntErrorKind::NegOverflow),
            Err(e) => Err(e),
        }
    } else {
        parse_uint(s, false, 2147483647)
    }
}

/// Digit accumulation reads only the characters from `i` on.
pub proof fn lemma_digits_from_suffix(s: Seq<char>, t: Seq<char>, i: int, acc: int, hex: bool, max: int)
    requires
        0 <= i <= s.len(),
        s.len() == t.len(),
        forall|k: int| i <= k < s.len() ==> s[k] == t[k],
    ensures
        digits_from(s, i, acc, hex, max) == digits_from(t, i, acc, hex, max),
    decreases s.len() - i,
{
    if i < s.len() {
        match digit_of(s[i], hex) {
            None => {},
            Some(d) => {
                lemma_digits_from_suffix(s, t, i + 1, acc * base_of(hex) + d, hex, max);
            },
        }
    }
}

/// Parses `s` as `i32::from_str` does.
pub fn parse_i32(s: &str) -> (r: Result<i32, IntErrorKind>)
    ensures
        match r {
            Ok(v) => parse_i32_spec(s@) == Ok::<int, IntErrorKind>(v as int),
            Err(e) => parse_i32_spec(s@) == Err::<int, IntErrorKind>(e),
        },
{
    let chars = chars_of(s);
    if chars.len() == 0 {
        return Err(IntErrorKind::Empty);
    }
    if chars.len() == 1 && (chars[0] == '+' || chars[0] == '-') {
        return Err(IntErrorKind::InvalidDigit);
    }
    if chars[0] == '-' {
        let mut t: Vec<char> = Vec::new();
        t.push('0');
        let mut i: usize = 1;
        while i < chars.len()
            invariant
                1 <= i <= chars@.len(),
                t@.len() == i,
                t@[0] == '0',
                forall|k: int| 1 <= k < i ==> t@[k] == chars@[k],
            decreases chars@.len() - i,
        {
            t.push(chars[i]);
            i = i + 1;
        }
        let m = parse_uint_chars(&t, false, 2147483648);
        proof {
            assert(digit_of('0', false) == Some(0int));
            lemma_digits_from_suffix(t@, chars@, 1, 0, false, 2147483648);
        }
        match m {
            Ok(v) => {
                assert(v <= 2147483648) by {
                    lemma_parse_bounded(t@, false, 2147483648);
                }
                if v == 2147483648 {
                    Ok(i32::MIN)
                } else {
                    Ok(-(v as i32))
                }
            },
            Err(IntErrorKind::PosOverflow) => Err(IntErrorKind::NegOverflow),
            Err(e) => Err(e),
        }
    } else {
        match parse_uint_chars(&chars, false, 2147483647) {
            Ok(v) => {
                assert(v <= 2147483647) by {
                    lemma_parse_bounded(chars@, false, 2147483647);
                }
                Ok(v as i32)
            },
            Err(e) => Err(e),
        }
    }
}

/// Parses `s` as `usize::from_str_radix(s, 16)` does.
pub fn parse_usize_hex(s: &str) -> (r: Result<usize, IntErrorKind>)
    ensures
        usize_result(r) == parse_uint(s@, true, usize::MAX as int),
{
    let chars = chars_of(s);
    let m = usize::MAX as u64;
    let r = parse_uint_chars(&chars, true, m);
    match r {
        Ok(v) => {
            proof {
                lemma_parse_bounded(chars@, true, m as int);
            }
            Ok(v as usize)
        },
        Err(e) => Err(e),
    }
}

/// Parses `s` as `s.parse::<usize>()` does.
pub fn parse_usize_dec(s: &str) -> (r: Result<usize, IntErrorKind>)
    ensures
        usize_result(r) == parse_uint(s@, false, usize::MAX as int),
{
    let chars = chars_of(s);
    let m = usize::MAX as u64;
    let r = parse_uint_chars(&chars, false, m);
    match r {
        Ok(v) => {
            proof {
                lemma_parse_bounded(chars@, false, m as int);
            }
            Ok(v as usize)
        },
        Err(e) => Err(e),
    }
}

/// Parses `s` as `u64::from_str_radix(s, 16)` does.
pub fn parse_u64_hex(s: &str) -> (r: Result<u64, IntErrorKind>)
    ensures
        uint_result(r) == parse_uint(s@, true, u64::MAX as int),
{
    let chars = chars_of(s);
    parse_uint_chars(&chars, true, u64::MAX)
}

/// A successful parse stays within `max`.
pub proof fn lemma_parse_bounded(s: Seq<char>, hex: bool, max: int)
    requires
        0 <= max,
    ensures
        parse_uint(s, hex, max) matches Ok(v) ==> 0 <= v <= max,
{
    lemma_digits_bounded(s, 0, 0, hex, max);
    lemma_digits_bounded(s, 1, 0, hex, max);
}

/// Bytes `i..i + 1` of the UTF-8 encoding of `s` exist and form a whole
/// character, so that slicing them out of the string cannot panic.
pub open spec fn byte_slot_ok(s: Seq<char>, i: int) -> bool {
    let b = encode_utf8(s);
    &&& 0 <= i
    &&& i + 1 <= b.len()
    &&& is_char_boundary(b, i)
    &&& is_char_boundary(b, i + 1)
}

/// Byte `i` of the UTF-8 encoding of `s`.
pub open spec fn byte_at(s: Seq<char>, i: int) -> u8 {
    encode_utf8(s)[i]
}

/// Whether the one-byte slice `s[i..i + 1]` equals the ASCII character `c`.
pub fn byte_slot_is(s: &str, i: usize, c: u8) -> (r: bool)
    requires
        byte_slot_ok(s@, i as int),
    ensures
        r == (byte_at(s@, i as int) == c),
{
    let b = s.as_bytes();
    b[i] == c
}

/// Splitting always yields at least one piece.
pub proof fn lemma_split_spans_nonempty(s: Seq<char>, sep: char, start: int, i: int)
    ensures
        split_spans_from(s, sep, start, i).len() >= 1,
    decreases s.len() - i,
{
    if i < s.len() {
        if s[i] == sep {
            lemma_split_spans_nonempty(s, sep, i + 1, i + 1);
        } else {
            lemma_split_spans_nonempty(s, sep, start, i + 1);
        }
    }
}

/// `s` split at the first `n - 1` occurrences of `sep` (as `str::splitn(n, sep)`):
/// at most `n` pieces, the last holding the rest of `s`.
pub open spec fn splitn_seq(s: Seq<char>, sep: char, n: int) -> Seq<Seq<char>> {
    let sp = split_spans(s, sep);
    if sp.len() <= n {
        pieces(s, sp)
    } else {
        pieces(s, sp.take(n - 1)).push(s.subrange(sp[n - 1].0, s.len() as int))
    }
}

/// `s` split at the first `n - 1` occurrences of `sep`.
pub fn splitn_str<'a>(s: &'a str, sep: char, n: usize) -> (r: Vec<&'a str>)
    requires
        n >= 1,
    ensures
        strs_view(r@) == splitn_seq(s@, sep, n as int),
        r@.len() >= 1,
{
    let chars = chars_of(s);
    let spans = split_spans_exec(&chars, sep);
    proof {
        lemma_split_spans_nonempty(s@, sep, 0, 0);
    }
    if spans.len() <= n {
        let r = slices_of(s, &chars, &spans);
        assert(strs_view(r@).len() == r@.len());
        assert(spans_view(spans@).len() == spans@.len());
        return r;
    }
    let mut head: Vec<(usize, usize)> = Vec::new();
    let mut k: usize = 0;
    while k < n - 1
        invariant
            k <= n - 1,
            n < spans@.len(),
            head@ == spans@.take(k as int),
            forall|j: int| 0 <= j < spans@.len() ==> #[trigger] spans@[j].0 <= spans@[j].1 <= s@.len(),
        decreases n - 1 - k,
    {
        head.push(spans[k]);
        assert(head@ =~= spans@.take(k + 1));
        k = k + 1;
    }
    assert(spans_view(head@) =~= spans_view(spans@).take(n - 1));
    let mut r = slices_of(s, &chars, &head);
    let ghost prev = r@;
    let rest = s.substring_char(spans[n - 1].0, chars.len());
    r.push(rest);
    assert(strs_view(r@) =~= strs_view(prev).push(rest@));
    r
}

/// `p` without one trailing carriage return.
pub open spec fn strip_cr(p: Seq<char>) -> Seq<char> {
    if p.len() > 0 && p.last() == '\r' {
        p.drop_last()
    } else {
        p
    }
}

/// The lines of `s` as `str::lines` yields them: split at `\n`, each line
/// ended by `\n` loses one trailing `\r`, and a final empty line is dropped.
pub open spec fn lines_seq(s: Seq<char>) -> Seq<Seq<char>> {
    let p = split_seq(s, '\n');
    if p.len() == 0 {
        seq![]
    } else {
        let body = p.take(p.len() - 1).map_values(|x: Seq<char>| strip_cr(x));
        if p.last().len() == 0 {
            body
        } else {
            body.push(p.last())
        }
    }
}

/// `s` without one trailing carriage return.
fn strip_cr_str<'a>(s: &'a str) -> (r: &'a str)
    ensures
        r@ == strip_cr(s@),
{
    let n = s.unicode_len();
    if n > 0 && s.get_char(n - 1) == '\r' {
        let r = s.substring_char(0, n - 1);
        assert(r@ =~= s@.drop_last());
        r
    } else {
        s
    }
}

/// The lines of `s`, as `str::lines` yields them.
pub fn lines_str<'a>(s: &'a str) -> (r: Vec<&'a str>)
    ensures
        strs_view(r@) == lines_seq(s@),
{
    let p = split_str(s, '\n');
    let ghost pv = strs_view(p@);
    if p.len() == 0 {
        return Vec::new();
    }
    let n = p.len();
    let mut r: Vec<&'a str> = Vec::new();
    let mut k: usize = 0;
    while k < n - 1
        invariant
            n == p@.len(),
            n >= 1,
            k <= n - 1,
            pv == strs_view(p@),
            strs_view(r@) == pv.take(k as int).map_values(|x: Seq<char>| strip_cr(x)),
        decreases n - 1 - k,
    {
        let line = strip_cr_str(p[k]);
        let ghost prev = r@;
        r.push(line);
        assert(strs_view(r@) =~= strs_view(prev).push(line@));
        assert(pv.take(k + 1).map_values(|x: Seq<char>| strip_cr(x)) =~= pv.take(k as int).map_values(
            |x: Seq<char>| strip_cr(x),
        ).push(strip_cr(pv[k as int])));
        k = k + 1;
    }
    let last = p[n - 1];
    if last.unicode_len() == 0 {
        r
    } else {
        let ghost prev = r@;
        r.push(last);
        assert(strs_view(r@) =~= strs_view(prev).push(last@));
        r
    }
}

} // verus!
