//! A value scanner over the writable regions of a process: picking the
//! regions, finding a byte pattern in them, narrowing the hits down on later
//! passes, and the bookkeeping of injecting a loader stub.

use crate::data::vec_shrink_to_fit;
use crate::maps_result::MapRange;
use crate::procmaps::MapEntry;
use crate::elf::util::le64;
use crate::text::{
    IntErrorKind, byte_at, byte_slot_is, byte_slot_ok, chars_of, is_whitespace, is_ws, parse_u64_hex,
    parse_uint, skip_ws, str_eq, uint_result,
};
use vstd::string::StrSliceExecFns;
use vstd::string::StringSliceAdditionalSpecFns;
use goblin::error::Error as ElfParseError;
use vstd::multiset::Multiset;
use vstd::prelude::*;

verus! {

/// The first position at or after `pos` where `needle` occurs in `hay`.
pub open spec fn first_occurrence(hay: Seq<u8>, needle: Seq<u8>, pos: int) -> Option<int>
    decreases hay.len() + 1 - pos,
{
    if pos < 0 || pos + needle.len() > hay.len() {
        None
    } else if hay.subrange(pos, pos + needle.len()) == needle {
        Some(pos)
    } else {
        first_occurrence(hay, needle, pos + 1)
    }
}

/// A found occurrence lies at or after `pos` and inside `hay`.
pub proof fn lemma_first_occurrence(hay: Seq<u8>, needle: Seq<u8>, pos: int)
    ensures
        first_occurrence(hay, needle, pos) matches Some(i) ==> pos <= i && i + needle.len()
            <= hay.len() && hay.subrange(i, i + needle.len()) == needle,
    decreases hay.len() + 1 - pos,
{
    if !(pos < 0 || pos + needle.len() > hay.len()) && hay.subrange(pos, pos + needle.len())
        != needle {
        lemma_first_occurrence(hay, needle, pos + 1);
    }
}

/// The starts of the non-overlapping occurrences of `needle` in `hay` from
/// `pos` on, each search resuming after the previous occurrence (one byte
/// after it for an empty needle, which occurs everywhere, the end included).
pub open spec fn memmem_matches(hay: Seq<u8>, needle: Seq<u8>, pos: int) -> Seq<int>
    decreases hay.len() + 1 - pos,
{
    match first_occurrence(hay, needle, pos) {
        None => seq![],
        Some(i) => {
            proof {
                lemma_first_occurrence(hay, needle, pos);
            }
            seq![i] + memmem_matches(
                hay,
                needle,
                i + if needle.len() == 0 {
                    1
                } else {
                    needle.len() as int
                },
            )
        },
    }
}

/// Every reported position starts an occurrence of the needle, positions
/// increase, and occurrences do not overlap.
pub proof fn lemma_matches_are_occurrences(hay: Seq<u8>, needle: Seq<u8>, pos: int)
    ensures
        forall|k: int|
            0 <= k < memmem_matches(hay, needle, pos).len() ==> {
                let i = #[trigger] memmem_matches(hay, needle, pos)[k];
                &&& pos <= i
                &&& i + needle.len() <= hay.len()
                &&& hay.subrange(i, i + needle.len()) == needle
            },
        forall|k: int|
            0 <= k < memmem_matches(hay, needle, pos).len() - 1 ==> memmem_matches(hay, needle, pos)[k]
                + needle.len() <= #[trigger] memmem_matches(hay, needle, pos)[k + 1],
    decreases hay.len() + 1 - pos,
{
    lemma_first_occurrence(hay, needle, pos);
    match first_occurrence(hay, needle, pos) {
        None => {},
        Some(i) => {
            let next = i + if needle.len() == 0 {
                1
            } else {
                needle.len() as int
            };
            lemma_matches_are_occurrences(hay, needle, next);
            let rest = memmem_matches(hay, needle, next);
            assert(memmem_matches(hay, needle, pos) == seq![i] + rest);
            assert forall|k: int| 0 <= k < memmem_matches(hay, needle, pos).len() - 1 implies memmem_matches(
                hay,
                needle,
                pos,
            )[k] + needle.len() <= #[trigger] memmem_matches(hay, needle, pos)[k + 1] by {
                if k > 0 {
                    assert(memmem_matches(hay, needle, pos)[k] == rest[k - 1]);
                    assert(memmem_matches(hay, needle, pos)[k + 1] == rest[k]);
                    assert(rest[(k - 1) + 1] == rest[k]);
                } else {
                    assert(memmem_matches(hay, needle, pos)[0] == i);
                    assert(memmem_matches(hay, needle, pos)[1] == rest[0]);
                    assert(next <= rest[0]);
                }
            }
            assert forall|k: int| 0 <= k < memmem_matches(hay, needle, pos).len() implies {
                let i2 = #[trigger] memmem_matches(hay, needle, pos)[k];
                &&& pos <= i2
                &&& i2 + needle.len() <= hay.len()
                &&& hay.subrange(i2, i2 + needle.len()) == needle
            } by {
                if k > 0 {
                    assert(memmem_matches(hay, needle, pos)[k] == rest[k - 1]);
                }
            }
        },
    }
}

/// Positions seen as integers.
pub open spec fn ints(v: Seq<usize>) -> Seq<int> {
    v.map_values(|x: usize| x as int)
}

/// `memchr::memmem::find_iter`, collected: the starts of the
/// non-overlapping occurrences of `needle` in `haystack`, leftmost first,
/// each search resuming right after the previous occurrence.
#[verifier::external_body]
fn find_all(haystack: &[u8], needle: &[u8]) -> (r: Vec<usize>)
    ensures
        ints(r@) == memmem_matches(haystack@, needle@, 0),
{
    memchr::memmem::find_iter(haystack, needle).collect()
}

/// The offsets in `mem` of the non-overlapping occurrences of `value`.
pub fn find_in(mem: &[u8], value: &[u8]) -> (r: Vec<usize>)
    ensures
        ints(r@) == memmem_matches(mem@, value@, 0),
{
    find_all(mem, value)
}

/// The path of the heap region.
pub open spec fn heap_path() -> Seq<char> {
    seq!['[', 'h', 'e', 'a', 'p', ']']
}

/// The path of the main stack region.
pub open spec fn stack_path() -> Seq<char> {
    seq!['[', 's', 't', 'a', 'c', 'k', ']']
}

/// Whether a region is searched for values: the heap and the stack when not
/// empty, and anonymous regions that are readable and writable.
pub open spec fn scan_worthy(e: MapEntry) -> bool {
    ||| e.end - e.start > 0 && (e.pathname == heap_path() || e.pathname == stack_path())
    ||| e.pathname.len() == 0 && byte_at(e.flags, 0) == 'r' as u8 && byte_at(e.flags, 1) == 'w'
        as u8
}

/// What deciding `scan_worthy` reads of an entry can be read: its bounds are
/// ordered, and for an anonymous region the first flag byte exists, and the
/// second one too when the first is `r`.
pub open spec fn checkable(e: MapEntry) -> bool {
    &&& e.start <= e.end
    &&& e.pathname.len() == 0 ==> byte_slot_ok(e.flags, 0) && (byte_at(e.flags, 0) == 'r' as u8
        ==> byte_slot_ok(e.flags, 1))
}

/// A copy of a maps entry.
pub fn clone_range(m: &MapRange) -> (r: MapRange)
    ensures
        r@ == m@,
{
    MapRange {
        range_start: m.range_start,
        range_end: m.range_end,
        offset: m.offset,
        dev: m.dev.clone(),
        flags: m.flags.clone(),
        inode: m.inode,
        pathname: m.pathname.clone(),
    }
}

/// Whether the region `m` is searched for values.
pub fn is_scan_worthy(m: &MapRange) -> (r: bool)
    requires
        checkable(m@),
    ensures
        r == scan_worthy(m@),
{
    let path = m.pathname.as_str();
    let heap = str_eq(path, "[heap]");
    let stack = str_eq(path, "[stack]");
    proof {
        reveal_strlit("[heap]");
        reveal_strlit("[stack]");
        assert("[heap]"@ =~= heap_path());
        assert("[stack]"@ =~= stack_path());
    }
    if m.range_end - m.range_start > 0 && (heap || stack) {
        return true;
    }
    path.is_empty() && byte_slot_is(m.flags.as_str(), 0, 'r' as u8) && byte_slot_is(
        m.flags.as_str(),
        1,
        'w' as u8,
    )
}

/// The entries of a list of maps ranges.
pub open spec fn views(v: Seq<MapRange>) -> Seq<MapEntry> {
    v.map_values(|m: MapRange| m@)
}

/// The regions of `maps` worth searching, in order.
pub fn select_regions(maps: &Vec<MapRange>) -> (r: Vec<MapRange>)
    requires
        forall|i: int| 0 <= i < maps@.len() ==> checkable(#[trigger] maps@[i]@),
    ensures
        views(r@) == views(maps@).filter(|e: MapEntry| scan_worthy(e)),
{
    let mut out: Vec<MapRange> = Vec::new();
    let mut i: usize = 0;
    while i < maps.len()
        invariant
            i <= maps@.len(),
            forall|k: int| 0 <= k < maps@.len() ==> checkable(#[trigger] maps@[k]@),
            views(out@) == views(maps@).take(i as int).filter(|e: MapEntry| scan_worthy(e)),
        decreases maps@.len() - i,
    {
        let ghost pre = views(maps@).take(i as int);
        proof {
            assert(views(maps@).take(i + 1 as int) =~= pre.push(maps@[i as int]@));
            pre.lemma_filter_push(maps@[i as int]@, |e: MapEntry| scan_worthy(e));
        }
        if is_scan_worthy(&maps[i]) {
            let ghost prev = out@;
            out.push(clone_range(&maps[i]));
            assert(views(out@) =~= views(prev).push(maps@[i as int]@));
        }
        i = i + 1;
    }
    assert(views(maps@).take(maps@.len() as int) =~= views(maps@));
    out
}

/// Byte strings ordered as slices are: by the first differing byte, a
/// proper prefix first.
pub open spec fn lex_less(a: Seq<u8>, b: Seq<u8>) -> bool
    decreases a.len(),
{
    if a.len() == 0 {
        b.len() > 0
    } else if b.len() == 0 {
        false
    } else if a[0] != b[0] {
        a[0] < b[0]
    } else {
        lex_less(a.drop_first(), b.drop_first())
    }
}

/// Whether `a` sorts before `b` as byte slices.
pub fn bytes_less(a: &[u8], b: &[u8]) -> (r: bool)
    ensures
        r == lex_less(a@, b@),
{
    let mut i: usize = 0;
    assert(a@.skip(0) =~= a@);
    assert(b@.skip(0) =~= b@);
    while i < a.len() && i < b.len()
        invariant
            i <= a@.len(),
            i <= b@.len(),
            lex_less(a@, b@) == lex_less(a@.skip(i as int), b@.skip(i as int)),
        decreases a@.len() - i,
    {
        assert(a@.skip(i as int)[0] == a@[i as int]);
        assert(b@.skip(i as int)[0] == b@[i as int]);
        if a[i] != b[i] {
            return a[i] < b[i];
        }
        assert(a@.skip(i as int).drop_first() =~= a@.skip(i + 1 as int));
        assert(b@.skip(i as int).drop_first() =~= b@.skip(i + 1 as int));
        i = i + 1;
    }
    i < b.len()
}

/// Which windows survive a narrowing pass.
#[derive(Debug, Clone, Copy, PartialEq, Eq, Structural)]
pub enum Keep {
    /// Windows equal to the value.
    Equal,
    /// Windows that do not sort after the value.
    NotGreater,
}

/// Whether a window of memory survives against `value`.
pub open spec fn survives(kind: Keep, window: Seq<u8>, value: Seq<u8>) -> bool {
    match kind {
        Keep::Equal => window == value,
        Keep::NotGreater => !lex_less(value, window),
    }
}

/// The window of `mem` that starts at `a` and is as long as `value`.
pub open spec fn window(mem: Seq<u8>, a: int, value: Seq<u8>) -> Seq<u8> {
    mem.subrange(a, a + value.len())
}

/// The offsets left after visiting `offs[k - 1], ..., offs[0]` in turn and
/// replacing each one whose window does not survive by the last offset.
pub open spec fn narrow(mem: Seq<u8>, offs: Seq<usize>, value: Seq<u8>, kind: Keep, k: int) -> Seq<
    usize,
>
    decreases k,
{
    if k <= 0 || k > offs.len() {
        offs
    } else {
        let next = if survives(kind, window(mem, offs[k - 1] as int, value), value) {
            offs
        } else {
            offs.update(k - 1, offs.last()).drop_last()
        };
        narrow(mem, next, value, kind, k - 1)
    }
}

/// Every offset leaves room for a window of `len` bytes in `mem`.
pub open spec fn windows_fit(offs: Seq<usize>, len: int, size: int) -> bool {
    forall|j: int| 0 <= j < offs.len() ==> #[trigger] offs[j] + len <= size
}

/// Whether the window of `mem` at `a` survives against `value`.
fn survives_exec(mem: &[u8], a: usize, value: &[u8], kind: Keep) -> (r: bool)
    requires
        a + value@.len() <= mem@.len(),
    ensures
        r == survives(kind, window(mem@, a as int, value@), value@),
{
    let m = mem.len();
    let n = value.len();
    let w = vstd::slice::slice_subrange(mem, a, a + n);
    assert(w@ == window(mem@, a as int, value@));
    match kind {
        Keep::Equal => {
            if w.len() != value.len() {
                return false;
            }
            let mut j: usize = 0;
            while j < value.len()
                invariant
                    w@ == window(mem@, a as int, value@),
                    kind == Keep::Equal,
                    w@.len() == value@.len(),
                    j <= value@.len(),
                    forall|t: int| 0 <= t < j ==> w@[t] == value@[t],
                decreases value@.len() - j,
            {
                if w[j] != value[j] {
                    assert(w@[j as int] != value@[j as int]);
                    assert(w@ != value@);
                    return false;
                }
                j = j + 1;
            }
            assert(w@ =~= value@);
            true
        },
        Keep::NotGreater => !bytes_less(value, w),
    }
}

/// Walks the offsets from the last to the first and replaces each one whose
/// window no longer survives by the last offset, releasing spare capacity
/// after each removal.
pub fn narrow_offsets(mem: &[u8], offs: &mut Vec<usize>, value: &[u8], kind: Keep)
    requires
        windows_fit(old(offs)@, value@.len() as int, mem@.len() as int),
    ensures
        final(offs)@ == narrow(mem@, old(offs)@, value@, kind, old(offs)@.len() as int),
{
    let ghost orig = offs@;
    let mut k: usize = offs.len();
    while k > 0
        invariant
            k <= offs@.len(),
            windows_fit(offs@, value@.len() as int, mem@.len() as int),
            narrow(mem@, offs@, value@, kind, k as int) == narrow(
                mem@,
                orig,
                value@,
                kind,
                orig.len() as int,
            ),
        decreases k,
    {
        let a = offs[k - 1];
        if !survives_exec(mem, a, value, kind) {
            let ghost before = offs@;
            offs.swap_remove(k - 1);
            vec_shrink_to_fit(offs);
            assert(offs@ == before.update(k - 1, before.last()).drop_last());
        }
        k = k - 1;
    }
}

/// Whether the window of `mem` at `a` survives against `value`, as a
/// predicate on offsets.
pub open spec fn survivor(mem: Seq<u8>, value: Seq<u8>, kind: Keep) -> spec_fn(usize) -> bool {
    |a: usize| survives(kind, window(mem, a as int, value), value)
}

proof fn lemma_empty_multiset(s: Seq<usize>)
    requires
        s.len() == 0,
    ensures
        s.to_multiset() =~= Multiset::<usize>::empty(),
{
    vstd::seq_lib::to_multiset_len(s);
    vstd::multiset::lemma_multiset_empty_len(s.to_multiset());
}

proof fn lemma_narrow_step(mem: Seq<u8>, offs: Seq<usize>, value: Seq<u8>, kind: Keep, k: int)
    requires
        0 <= k <= offs.len(),
    ensures
        narrow(mem, offs, value, kind, k).to_multiset() == offs.take(k).filter(
            survivor(mem, value, kind),
        ).to_multiset().add(offs.skip(k).to_multiset()),
    decreases k,
{
    broadcast use vstd::multiset::group_multiset_axioms;
    broadcast use vstd::seq_lib::lemma_multiset_commutative;

    let p = survivor(mem, value, kind);
    if k == 0 {
        assert(offs.skip(0) =~= offs);
        assert(offs.take(0) =~= Seq::<usize>::empty());
        assert(offs.take(0).filter(p) =~= Seq::<usize>::empty()) by {
            offs.take(0).lemma_filter_len(p);
        }
        lemma_empty_multiset(offs.take(0).filter(p));
        assert(narrow(mem, offs, value, kind, 0).to_multiset() =~= Multiset::<usize>::empty().add(
            offs.to_multiset(),
        ));
    } else {
        let x = offs[k - 1];
        assert(offs.take(k) =~= offs.take(k - 1).push(x));
        offs.take(k - 1).lemma_filter_push(x, p);
        if survives(kind, window(mem, x as int, value), value) {
            lemma_narrow_step(mem, offs, value, kind, k - 1);
            assert(offs.skip(k - 1) =~= seq![x] + offs.skip(k));
            assert(seq![x].to_multiset() =~= Multiset::<usize>::empty().insert(x)) by {
                assert(seq![x] =~= Seq::<usize>::empty().push(x));
                vstd::seq_lib::to_multiset_build(Seq::<usize>::empty(), x);
                lemma_empty_multiset(Seq::<usize>::empty());
            }
            vstd::seq_lib::to_multiset_build(offs.take(k - 1).filter(p), x);
            assert(offs.take(k).filter(p) == offs.take(k - 1).filter(p).push(x));
            assert(narrow(mem, offs, value, kind, k).to_multiset() =~= offs.take(k).filter(
                p,
            ).to_multiset().add(offs.skip(k).to_multiset()));
        } else {
            let next = offs.update(k - 1, offs.last()).drop_last();
            lemma_narrow_step(mem, next, value, kind, k - 1);
            assert(next.take(k - 1) =~= offs.take(k - 1));
            assert(offs.take(k).filter(p) == offs.take(k - 1).filter(p));
            if k == offs.len() {
                assert(next.skip(k - 1) =~= Seq::<usize>::empty());
                assert(offs.skip(k) =~= Seq::<usize>::empty());
            } else {
                let mid = offs.subrange(k, offs.len() - 1);
                assert(next.skip(k - 1) =~= seq![offs.last()] + mid);
                assert(offs.skip(k) =~= mid + seq![offs.last()]);
                vstd::seq_lib::lemma_seq_union_to_multiset_commutative(seq![offs.last()], mid);
            }
            assert(narrow(mem, offs, value, kind, k) == narrow(mem, next, value, kind, k - 1));
            assert(narrow(mem, offs, value, kind, k).to_multiset() =~= offs.take(k).filter(
                p,
            ).to_multiset().add(offs.skip(k).to_multiset()));
        }
    }
}

/// A narrowing pass keeps exactly the hits whose windows survive: counted
/// with repetition, the hits left are those of before that pass the test
/// (their order is not kept).
pub proof fn lemma_narrow_keeps_survivors(mem: Seq<u8>, offs: Seq<usize>, value: Seq<u8>, kind: Keep)
    ensures
        narrow(mem, offs, value, kind, offs.len() as int).to_multiset() == offs.filter(
            survivor(mem, value, kind),
        ).to_multiset(),
{
    broadcast use vstd::multiset::group_multiset_axioms;

    lemma_narrow_step(mem, offs, value, kind, offs.len() as int);
    assert(offs.take(offs.len() as int) =~= offs);
    assert(offs.skip(offs.len() as int) =~= Seq::<usize>::empty());
    lemma_empty_multiset(Seq::<usize>::empty());
    assert(offs.filter(survivor(mem, value, kind)).to_multiset().add(Multiset::<usize>::empty())
        =~= offs.filter(survivor(mem, value, kind)).to_multiset());
}

/// A narrowing pass removes nothing when every window survives.
pub proof fn lemma_narrow_keeps_all(mem: Seq<u8>, offs: Seq<usize>, value: Seq<u8>, kind: Keep, k: int)
    requires
        0 <= k <= offs.len(),
        forall|i: int| 0 <= i < k ==> survives(kind, window(mem, #[trigger] offs[i] as int, value), value),
    ensures
        narrow(mem, offs, value, kind, k) == offs,
    decreases k,
{
    if k > 0 {
        lemma_narrow_keeps_all(mem, offs, value, kind, k - 1);
    }
}

/// A later pass over memory that did not change keeps every hit of the
/// first pass, in place: each occurrence of the value searched for still
/// begins with its first four bytes.
pub proof fn lemma_unchanged_memory_keeps_hits(mem: Seq<u8>, offs: Seq<usize>, input: Seq<u8>)
    requires
        input.len() >= 4,
        ints(offs) == memmem_matches(mem, input, 0),
    ensures
        narrow(mem, offs, probe(input), Keep::Equal, offs.len() as int) == offs,
{
    lemma_matches_are_occurrences(mem, input, 0);
    assert forall|i: int| 0 <= i < offs.len() implies survives(
        Keep::Equal,
        window(mem, #[trigger] offs[i] as int, probe(input)),
        probe(input),
    ) by {
        let a = offs[i] as int;
        assert(ints(offs)[i] == a);
        assert(memmem_matches(mem, input, 0)[i] == a);
        assert(mem.subrange(a, a + input.len()) == input);
        assert(window(mem, a, probe(input)) =~= mem.subrange(a, a + input.len()).subrange(0, 4));
    }
    lemma_narrow_keeps_all(mem, offs, probe(input), Keep::Equal, offs.len() as int);
}

/// The offsets of `offs` (in order) whose windows of `mem` sort before
/// `value`.
pub open spec fn keep_less(mem: Seq<u8>, offs: Seq<usize>, value: Seq<u8>) -> Seq<usize> {
    offs.filter(|a: usize| lex_less(window(mem, a as int, value), value))
}

/// The offsets whose windows sort before `value`, in order.
pub fn filter_less(mem: &[u8], offs: &Vec<usize>, value: &[u8]) -> (r: Vec<usize>)
    requires
        windows_fit(offs@, value@.len() as int, mem@.len() as int),
    ensures
        r@ == keep_less(mem@, offs@, value@),
{
    let mut out: Vec<usize> = Vec::new();
    let mut i: usize = 0;
    while i < offs.len()
        invariant
            i <= offs@.len(),
            windows_fit(offs@, value@.len() as int, mem@.len() as int),
            out@ == keep_less(mem@, offs@.take(i as int), value@),
        decreases offs@.len() - i,
    {
        let a = offs[i];
        proof {
            assert(offs@.take(i + 1 as int) =~= offs@.take(i as int).push(a));
            offs@.take(i as int).lemma_filter_push(
                a,
                |a: usize| lex_less(window(mem@, a as int, value@), value@),
            );
        }
        let m = mem.len();
        assert(a + value@.len() <= m);
        let w = vstd::slice::slice_subrange(mem, a, a + value.len());
        if bytes_less(w, value) {
            out.push(a);
        }
        i = i + 1;
    }
    assert(offs@.take(offs@.len() as int) =~= offs@);
    out
}

/// `goblin::error::Error`, carried through unchanged.
#[verifier::external_type_specification]
#[verifier::external_body]
pub struct ExElfParseError(ElfParseError);

/// What can go wrong while scanning or injecting.
#[derive(Debug)]
pub enum Error {
    IoError(std::io::Error),
    ParseIntError(IntErrorKind),
    SysCall(std::io::Error),
    ParseMapsError,
    ArgsError,
    PidNotFound,
    ReadMemError,
    WriteMemError,
    MprotectError,
    ElfError(ElfParseError),
}

/// Reading, writing, dumping and pinning the memory of a process.
pub trait MemExt {
    /// Writes `payload` at `addr`, returning the number of bytes written.
    fn write(&self, addr: usize, payload: &[u8]) -> Result<usize, Error>;

    /// `bytes` were, at some moment, the contents of the memory at `addr`.
    /// Each implementation says what its memory held; the library reasons
    /// only through this name.
    closed spec fn holds(&self, addr: int, bytes: Seq<u8>) -> bool {
        true
    }

    /// Reading `size` bytes at `addr` can fail.
    closed spec fn refuses(&self, addr: int, size: int) -> bool {
        true
    }

    /// Reads `size` bytes at `addr`: on success, bytes that the memory there
    /// held; a failure is one that a read of that range can give.
    fn read(&self, addr: usize, size: usize) -> (r: Result<Vec<u8>, Error>)
        ensures
            r matches Ok(v) ==> v@.len() == size && self.holds(addr as int, v@),
            r is Err ==> self.refuses(addr as int, size as int),
    ;

    /// Saves `size` bytes at `addr` to the file at `path`.
    fn dump(&self, addr: usize, size: usize, path: &str) -> Result<usize, Error>;

    /// Keeps rewriting `payload` at `va`.
    fn freeze(&self, va: usize, payload: Vec<u8>) -> Result<(), Error>;

    /// Stops rewriting `payload` at `va`.
    fn unfreeze(&self, va: usize, payload: Vec<u8>) -> Result<(), Error>;
}

/// Listing the mapped regions of a process.
pub trait MapsExt {
    fn readmaps_all(&mut self) -> Result<Vec<MapRange>, Error>;

    fn readmaps_v1(&mut self) -> Result<Vec<MapRange>, Error>;

    fn getlibc_addr(&mut self) -> Result<usize, Error>;
}

/// Inspecting the system call a process is blocked in.
pub trait SyscallExt {
    fn get_ip(&mut self) -> Result<u64, Error>;
}

/// Making a process load a shared library.
pub trait InjectExt {
    fn inject(&mut self, lib_path: &str) -> Result<(), Error>;
}

/// The two steps of a value search: scanning, and showing the hits.
pub trait ScanExt {
    fn scan(&mut self) -> Result<(), Error>;

    fn print(&mut self) -> Result<(), Error>;
}

/// What a search keeps between passes: the value searched for, the regions
/// searched and, per region, the offsets of the hits still standing.
pub struct Cache {
    pub input: Vec<u8>,
    pub maps: Vec<MapRange>,
    pub addr: Vec<Vec<usize>>,
}

impl Default for Cache {
    fn default() -> (r: Cache)
        ensures
            r.input@.len() == 0,
            r.maps@.len() == 0,
            r.addr@.len() == 0,
    {
        Cache { input: Vec::new(), maps: Vec::new(), addr: Vec::new() }
    }
}

/// `addr` lists the occurrences of `input` in the region `e` of `h`: in
/// bytes that the memory of `h` held over the whole region, or in nothing
/// when a read of the region can fail.
pub open spec fn found_region<H: MemExt>(h: &H, addr: Seq<usize>, e: MapEntry, input: Seq<u8>) -> bool {
    exists|b: Seq<u8>|
        {
            &&& (b.len() == e.end - e.start && h.holds(e.start, b)) || (b.len() == 0 && h.refuses(
                e.start,
                e.end - e.start,
            ))
            &&& ints(addr) == memmem_matches(b, input, 0)
        }
}

/// The two lists after visiting the hit lists from the last to the first
/// and, for each empty one, moving the last element of both lists into its
/// place.
pub open spec fn drop_empty(maps: Seq<MapRange>, addr: Seq<Vec<usize>>, k: int) -> (
    Seq<MapRange>,
    Seq<Vec<usize>>,
)
    decreases k,
{
    if k <= 0 || k > addr.len() || k > maps.len() {
        (maps, addr)
    } else if addr[k - 1]@.len() == 0 {
        drop_empty(
            maps.update(k - 1, maps.last()).drop_last(),
            addr.update(k - 1, addr.last()).drop_last(),
            k - 1,
        )
    } else {
        drop_empty(maps, addr, k - 1)
    }
}

/// The value the later passes compare with: the first four bytes searched for.
pub open spec fn probe(input: Seq<u8>) -> Seq<u8> {
    input.subrange(0, 4)
}

/// The region `m` has ordered bounds and leaves room for `len` bytes at
/// each offset of `a`.
pub open spec fn pair_ok(m: MapRange, a: Vec<usize>, len: int) -> bool {
    m.range_start <= m.range_end && windows_fit(a@, len, m.range_end - m.range_start)
}

/// After dropping the empty hit lists, every region pairs with a hit list,
/// has ordered bounds, and leaves room for four bytes at each hit.
pub open spec fn rescannable(maps: Seq<MapRange>, addr: Seq<Vec<usize>>) -> bool {
    let (m1, a1) = drop_empty(maps, addr, addr.len() as int);
    &&& m1.len() >= a1.len()
    &&& forall|k: int| 0 <= k < a1.len() ==> #[trigger] pair_ok(m1[k], a1[k], 4)
}

/// `addr` after narrowing `a` by `kind` against `value` in bytes that the
/// memory of `h` held over the region `m`.
pub open spec fn narrowed<H: MemExt>(
    h: &H,
    addr: Vec<usize>,
    m: MapRange,
    a: Vec<usize>,
    value: Seq<u8>,
    kind: Keep,
) -> bool {
    exists|mem: Seq<u8>|
        mem.len() == m.range_end - m.range_start && h.holds(m.range_start as int, mem) && addr@ == narrow(
            mem,
            a@,
            value,
            kind,
            a@.len() as int,
        )
}

/// The hit lists before position `f` are narrowed, the others unchanged,
/// and a read of the region at `f` can fail.
pub open spec fn narrowed_before<H: MemExt>(
    h: &H,
    new: Seq<Vec<usize>>,
    old: Seq<Vec<usize>>,
    maps: Seq<MapRange>,
    value: Seq<u8>,
    kind: Keep,
    f: int,
) -> bool {
    &&& forall|k: int| 0 <= k < f ==> #[trigger] narrowed(h, new[k], maps[k], old[k], value, kind)
    &&& forall|k: int| f <= k < old.len() ==> (#[trigger] new[k]) == old[k]
    &&& h.refuses(maps[f].range_start as int, maps[f].range_end - maps[f].range_start)
}

/// Reads each region paired with a hit list (as many as both lists have)
/// and keeps the hits whose windows survive against `value` by `kind`. A
/// failed read ends the pass with its error.
pub fn narrow_regions<H: MemExt>(
    handle: &H,
    maps: &Vec<MapRange>,
    addr: &mut Vec<Vec<usize>>,
    value: &[u8],
    kind: Keep,
) -> (r: Result<(), Error>)
    requires
        forall|k: int|
            0 <= k < old(addr)@.len() && k < maps@.len() ==> #[trigger] pair_ok(maps@[k], old(addr)@[k], value@.len() as int),
    ensures
        final(addr)@.len() == old(addr)@.len(),
        forall|k: int| maps@.len() <= k < old(addr)@.len() ==> (#[trigger] final(addr)@[k]) == old(addr)@[k],
        r is Ok ==> forall|k: int|
            0 <= k < old(addr)@.len() && k < maps@.len() ==> #[trigger] narrowed(handle, final(addr)@[k], maps@[k], old(addr)@[k], value@, kind),
        r is Err ==> exists|f: int|
            0 <= f < old(addr)@.len() && f < maps@.len() && #[trigger] narrowed_before(
                handle,
                final(addr)@,
                old(addr)@,
                maps@,
                value@,
                kind,
                f,
            ),
{
    let ghost a1 = addr@;
    let n = if addr.len() < maps.len() { addr.len() } else { maps.len() };
    let mut i: usize = 0;
    while i < n
        invariant
            a1 == old(addr)@,
            n <= a1.len(),
            n <= maps@.len(),
            n == a1.len() || n == maps@.len(),
            i <= n,
            addr@.len() == a1.len(),
            forall|k: int| 0 <= k < n ==> #[trigger] pair_ok(maps@[k], a1[k], value@.len() as int),
            forall|k: int| i <= k < a1.len() ==> (#[trigger] addr@[k]) == a1[k],
            forall|k: int| 0 <= k < i ==> #[trigger] narrowed(handle, addr@[k], maps@[k], a1[k], value@, kind),
        decreases n - i,
    {
        assert(pair_ok(maps@[i as int], a1[i as int], value@.len() as int));
        assert(addr@[i as int] == a1[i as int]);
        let start = maps[i].range_start;
        let size = maps[i].range_end - maps[i].range_start;
        match handle.read(start, size) {
            Ok(mem) => {
                let ghost before = addr@;
                narrow_offsets(mem.as_slice(), &mut addr[i], value, kind);
                proof {
                    assert(narrowed(handle, addr@[i as int], maps@[i as int], a1[i as int], value@, kind)) by {
                        assert(mem@.len() == maps@[i as int].range_end - maps@[i as int].range_start);
                    }
                    assert forall|k: int| 0 <= k < i + 1 implies #[trigger] narrowed(handle, addr@[k], maps@[k], a1[k], value@, kind) by {
                        if k < i {
                            assert(addr@[k] == before[k]);
                        }
                    }
                    assert forall|k: int| i + 1 <= k < a1.len() implies (#[trigger] addr@[k]) == a1[k] by {
                        assert(addr@[k] == before[k]);
                    }
                }
            },
            Err(e) => {
                assert(0 <= i < a1.len() && i < maps@.len());
                assert(narrowed_before(handle, addr@, a1, maps@, value@, kind, i as int));
                return Err(e);
            },
        }
        i = i + 1;
    }
    Ok(())
}

proof fn lemma_drop_empty_len(maps: Seq<MapRange>, addr: Seq<Vec<usize>>, k: int)
    requires
        maps.len() >= addr.len(),
    ensures
        drop_empty(maps, addr, k).0.len() >= drop_empty(maps, addr, k).1.len(),
    decreases k,
{
    if !(k <= 0 || k > addr.len() || k > maps.len()) {
        if addr[k - 1]@.len() == 0 {
            lemma_drop_empty_len(
                maps.update(k - 1, maps.last()).drop_last(),
                addr.update(k - 1, addr.last()).drop_last(),
                k - 1,
            );
        } else {
            lemma_drop_empty_len(maps, addr, k - 1);
        }
    }
}

/// For each region of `maps`, the offsets of the occurrences of `input` in
/// its contents (none when it cannot be read).
pub fn scan_regions<H: MemExt>(handle: &H, maps: &Vec<MapRange>, input: &[u8]) -> (r: Vec<Vec<usize>>)
    requires
        forall|i: int| 0 <= i < maps@.len() ==> (#[trigger] maps@[i]).range_start <= maps@[i].range_end,
    ensures
        r@.len() == maps@.len(),
        forall|i: int| 0 <= i < maps@.len() ==> found_region(handle, (#[trigger] r@[i])@, maps@[i]@, input@),
{
    let mut addr: Vec<Vec<usize>> = Vec::new();
    let mut i: usize = 0;
    while i < maps.len()
        invariant
            i <= maps@.len(),
            addr@.len() == i,
            forall|k: int| 0 <= k < maps@.len() ==> (#[trigger] maps@[k]).range_start <= maps@[k].range_end,
            forall|k: int| 0 <= k < i ==> found_region(handle, (#[trigger] addr@[k])@, maps@[k]@, input@),
        decreases maps@.len() - i,
    {
        let start = maps[i].range_start;
        let size = maps[i].range_end - maps[i].range_start;
        let bytes: Vec<u8> = match handle.read(start, size) {
            Ok(v) => v,
            Err(_) => Vec::new(),
        };
        let found = find_in(bytes.as_slice(), input);
        proof {
            assert(found_region(handle, found@, maps@[i as int]@, input@)) by {
                assert((bytes@.len() == maps@[i as int]@.end - maps@[i as int]@.start || bytes@.len() == 0)
                    && ints(found@) == memmem_matches(bytes@, input@, 0));
            }
        }
        let ghost prev = addr@;
        addr.push(found);
        proof {
            assert forall|k: int| 0 <= k < i + 1 implies found_region(handle, (#[trigger] addr@[k])@, maps@[k]@, input@) by {
                if k < i {
                    assert(addr@[k] == prev[k]);
                }
            }
        }
        i = i + 1;
    }
    addr
}

/// `kept` is the list of the addresses of `addrs` whose bytes in `reads`
/// (one read per address, in order) sort before `input`.
pub open spec fn kept_below(kept: Seq<usize>, addrs: Seq<usize>, reads: Seq<Seq<u8>>, input: Seq<u8>) -> bool
    decreases addrs.len(),
{
    if addrs.len() == 0 {
        kept.len() == 0
    } else {
        let k = addrs.len() - 1;
        if lex_less(reads[k], input) {
            kept.len() > 0 && kept.last() == addrs[k] && kept_below(
                kept.drop_last(),
                addrs.drop_last(),
                reads.drop_last(),
                input,
            )
        } else {
            kept_below(kept, addrs.drop_last(), reads.drop_last(), input)
        }
    }
}

/// Reads `input.len()` bytes at each address of `addrs` and keeps, in order,
/// the addresses whose bytes sort before `input`. A failed read ends the
/// pass with its error; with no address nothing is read and the pass
/// succeeds with an empty list.
pub fn keep_below<H: MemExt>(handle: &H, addrs: &Vec<usize>, input: &[u8]) -> (r: Result<Vec<usize>, Error>)
    ensures
        addrs@.len() == 0 ==> (r matches Ok(kept) && kept@.len() == 0),
        r matches Ok(kept) ==> exists|reads: Seq<Seq<u8>>|
            #![trigger kept_below(kept@, addrs@, reads, input@)]
            reads.len() == addrs@.len() && (forall|i: int| 0 <= i < reads.len() ==> (#[trigger] reads[i]).len() == input@.len()
                && handle.holds(addrs@[i] as int, reads[i]))
                && kept_below(kept@, addrs@, reads, input@),
        r is Err ==> exists|i: int|
            0 <= i < addrs@.len() && handle.refuses(#[trigger] addrs@[i] as int, input@.len() as int),
{
    let mut out: Vec<usize> = Vec::new();
    let ghost mut reads: Seq<Seq<u8>> = seq![];
    let mut i: usize = 0;
    while i < addrs.len()
        invariant
            i <= addrs@.len(),
            reads.len() == i,
            forall|t: int| 0 <= t < reads.len() ==> (#[trigger] reads[t]).len() == input@.len()
                && handle.holds(addrs@[t] as int, reads[t]),
            kept_below(out@, addrs@.take(i as int), reads, input@),
        decreases addrs@.len() - i,
    {
        let v = match handle.read(addrs[i], input.len()) {
            Ok(v) => v,
            Err(e) => {
                assert(handle.refuses(addrs@[i as int] as int, input@.len() as int));
                return Err(e);
            },
        };
        let ghost prev_out = out@;
        let ghost prev_reads = reads;
        proof {
            reads = reads.push(v@);
            assert(addrs@.take(i + 1 as int).drop_last() =~= addrs@.take(i as int));
            assert(reads.drop_last() =~= prev_reads);
        }
        if bytes_less(v.as_slice(), input) {
            out.push(addrs[i]);
            assert(out@.drop_last() =~= prev_out);
        }
        i = i + 1;
    }
    assert(addrs@.take(addrs@.len() as int) =~= addrs@);
    assert(reads.len() == addrs@.len() && (forall|t: int| 0 <= t < reads.len() ==> (#[trigger] reads[t]).len()
        == input@.len() && handle.holds(addrs@[t] as int, reads[t])) && kept_below(out@, addrs@, reads, input@));
    let r: Result<Vec<usize>, Error> = Ok(out);
    assert(r matches Ok(kept) && kept@ == out@);
    r
}

/// One pass of the region-by-region scanner: with no hits yet, the
/// occurrences of `input` in each region of `maps` (none for a region that
/// cannot be read); otherwise each hit list narrowed to the hits whose four
/// bytes still equal the first four bytes of `input`. A failed read of a
/// region with hits ends the pass with its error.
pub fn first_scan<H: MemExt>(handle: &H, maps: &Vec<MapRange>, addr: &mut Vec<Vec<usize>>, input: &[u8]) -> (r: Result<(), Error>)
    requires
        forall|i: int| 0 <= i < maps@.len() ==> (#[trigger] maps@[i]).range_start <= maps@[i].range_end,
        old(addr)@.len() == 0 || old(addr)@.len() == maps@.len(),
        old(addr)@.len() > 0 ==> input@.len() >= 4,
        forall|k: int| 0 <= k < old(addr)@.len() ==> #[trigger] pair_ok(maps@[k], old(addr)@[k], 4),
    ensures
        r is Ok ==> final(addr)@.len() == maps@.len(),
        r is Ok && old(addr)@.len() == 0 ==> forall|i: int|
            0 <= i < maps@.len() ==> found_region(handle, (#[trigger] final(addr)@[i])@, maps@[i]@, input@),
        r is Ok && old(addr)@.len() > 0 ==> forall|k: int|
            0 <= k < maps@.len() ==> #[trigger] narrowed(handle, final(addr)@[k], maps@[k], old(addr)@[k], probe(input@), Keep::Equal),
        r is Err ==> old(addr)@.len() > 0 && exists|f: int|
            0 <= f < maps@.len() && #[trigger] narrowed_before(
                handle,
                final(addr)@,
                old(addr)@,
                maps@,
                probe(input@),
                Keep::Equal,
                f,
            ),
{
    if addr.len() == 0 {
        *addr = scan_regions(handle, maps, input);
        Ok(())
    } else {
        let v: Vec<u8> = vstd::slice::slice_to_vec(vstd::slice::slice_subrange(input, 0, 4));
        let r = narrow_regions(handle, maps, addr, v.as_slice(), Keep::Equal);
        if r.is_err() {
            let ghost f = choose|f: int|
                0 <= f < old(addr)@.len() && f < maps@.len() && #[trigger] narrowed_before(
                    handle,
                    addr@,
                    old(addr)@,
                    maps@,
                    v@,
                    Keep::Equal,
                    f,
                );
            assert(narrowed_before(handle, addr@, old(addr)@, maps@, probe(input@), Keep::Equal, f));
        }
        r
    }
}

/// For each hit list, the hits whose windows in the matching memory image
/// sort before `input`, in order.
pub fn filter_less_regions(mems: &Vec<Vec<u8>>, addr: &Vec<Vec<usize>>, input: &[u8]) -> (r: Vec<Vec<usize>>)
    requires
        mems@.len() >= addr@.len(),
        forall|k: int| 0 <= k < addr@.len() ==> windows_fit((#[trigger] addr@[k])@, input@.len() as int, mems@[k]@.len() as int),
    ensures
        r@.len() == addr@.len(),
        forall|k: int| 0 <= k < addr@.len() ==> (#[trigger] r@[k])@ == keep_less(mems@[k]@, addr@[k]@, input@),
{
    let mut out: Vec<Vec<usize>> = Vec::new();
    let mut k: usize = 0;
    while k < addr.len()
        invariant
            k <= addr@.len(),
            out@.len() == k,
            mems@.len() >= addr@.len(),
            forall|j: int| 0 <= j < addr@.len() ==> windows_fit((#[trigger] addr@[j])@, input@.len() as int, mems@[j]@.len() as int),
            forall|j: int| 0 <= j < k ==> (#[trigger] out@[j])@ == keep_less(mems@[j]@, addr@[j]@, input@),
        decreases addr@.len() - k,
    {
        assert(windows_fit(addr@[k as int]@, input@.len() as int, mems@[k as int]@.len() as int));
        let kept = filter_less(mems[k].as_slice(), &addr[k], input);
        let ghost prev = out@;
        out.push(kept);
        proof {
            assert forall|j: int| 0 <= j < k + 1 implies (#[trigger] out@[j])@ == keep_less(mems@[j]@, addr@[j]@, input@) by {
                if j < k {
                    assert(out@[j] == prev[j]);
                }
            }
        }
        k = k + 1;
    }
    out
}

/// The part of `list` to show when at most `num` entries are shown, and the
/// count reported as left out: when there are more, the first `num` and
/// `lists - num`, where `lists` is the number of hit lists the addresses came
/// from; all of them when there are fewer; none when there are exactly `num`.
pub fn addr_page(list: &Vec<usize>, lists: usize, num: usize) -> (r: (Vec<usize>, Option<usize>))
    requires
        list@.len() > num ==> lists >= num,
    ensures
        list@.len() > num ==> r.0@ == list@.take(num as int) && r.1 == Some((lists - num) as usize),
        list@.len() < num ==> r.0@ == list@ && r.1 is None,
        list@.len() == num ==> r.0@.len() == 0 && r.1 is None,
{
    let n = list.len();
    let mut shown: Vec<usize> = Vec::new();
    if n == num {
        return (shown, None);
    }
    let upto = if n > num { num } else { n };
    let mut i: usize = 0;
    while i < upto
        invariant
            upto <= list@.len(),
            i <= upto,
            shown@ == list@.take(i as int),
        decreases upto - i,
    {
        shown.push(list[i]);
        assert(list@.take(i + 1 as int) =~= list@.take(i as int).push(list@[i as int]));
        i = i + 1;
    }
    if n > num {
        (shown, Some(lists - num))
    } else {
        assert(list@.take(n as int) =~= list@);
        (shown, None)
    }
}

/// A copy of a list of hit lists.
fn clone_hits(addr: &Vec<Vec<usize>>) -> (r: Vec<Vec<usize>>)
    ensures
        r@.len() == addr@.len(),
        forall|k: int| 0 <= k < addr@.len() ==> (#[trigger] r@[k])@ == addr@[k]@,
{
    let mut out: Vec<Vec<usize>> = Vec::new();
    let mut k: usize = 0;
    while k < addr.len()
        invariant
            k <= addr@.len(),
            out@.len() == k,
            forall|j: int| 0 <= j < k ==> (#[trigger] out@[j])@ == addr@[j]@,
        decreases addr@.len() - k,
    {
        let ghost prev = out@;
        out.push(vstd::slice::slice_to_vec(addr[k].as_slice()));
        proof {
            assert forall|j: int| 0 <= j < k + 1 implies (#[trigger] out@[j])@ == addr@[j]@ by {
                if j < k {
                    assert(out@[j] == prev[j]);
                }
            }
        }
        k = k + 1;
    }
    out
}

/// Whether every offset of `a` leaves room for four bytes in the region `m`.
fn pair_fits(m: &MapRange, a: &Vec<usize>) -> (r: bool)
    ensures
        r == pair_ok(*m, *a, 4),
{
    if m.range_start > m.range_end {
        return false;
    }
    let size = m.range_end - m.range_start;
    let mut j: usize = 0;
    while j < a.len()
        invariant
            j <= a@.len(),
            size == m.range_end - m.range_start,
            forall|t: int| 0 <= t < j ==> #[trigger] a@[t] + 4 <= size,
        decreases a@.len() - j,
    {
        if size < 4 || a[j] > size - 4 {
            assert(!(a@[j as int] + 4 <= size));
            assert(!windows_fit(a@, 4, size as int));
            return false;
        }
        j = j + 1;
    }
    true
}

/// Two lists of hit lists hold the same offsets.
pub open spec fn same_hits(a: Seq<Vec<usize>>, b: Seq<Vec<usize>>) -> bool {
    a.len() == b.len() && forall|k: int| 0 <= k < a.len() ==> (#[trigger] a[k])@ == b[k]@
}

/// Two lists of regions hold the same entries.
pub open spec fn same_ranges(a: Seq<MapRange>, b: Seq<MapRange>) -> bool {
    a.len() == b.len() && forall|k: int| 0 <= k < a.len() ==> (#[trigger] a[k])@ == b[k]@
}

proof fn lemma_drop_empty_same(
    m: Seq<MapRange>,
    a: Seq<Vec<usize>>,
    m2: Seq<MapRange>,
    a2: Seq<Vec<usize>>,
    k: int,
)
    requires
        same_ranges(m, m2),
        same_hits(a, a2),
    ensures
        same_ranges(drop_empty(m, a, k).0, drop_empty(m2, a2, k).0),
        same_hits(drop_empty(m, a, k).1, drop_empty(m2, a2, k).1),
    decreases k,
{
    if !(k <= 0 || k > a.len() || k > m.len()) {
        assert(a[k - 1]@ == a2[k - 1]@);
        if a[k - 1]@.len() == 0 {
            let nm = m.update(k - 1, m.last()).drop_last();
            let na = a.update(k - 1, a.last()).drop_last();
            let nm2 = m2.update(k - 1, m2.last()).drop_last();
            let na2 = a2.update(k - 1, a2.last()).drop_last();
            assert(same_ranges(nm, nm2));
            assert(same_hits(na, na2));
            lemma_drop_empty_same(nm, na, nm2, na2, k - 1);
        } else {
            lemma_drop_empty_same(m, a, m2, a2, k - 1);
        }
    }
}

impl Cache {
    /// Whether a later pass can run: the value searched for has four bytes,
    /// every hit list has a region, and once the empty hit lists are
    /// dropped every hit leaves room for four bytes in its region.
    pub fn can_rescan(&self) -> (r: bool)
        ensures
            r == (self.input@.len() >= 4 && self.maps@.len() >= self.addr@.len() && rescannable(
                self.maps@,
                self.addr@,
            )),
    {
        if self.input.len() < 4 || self.maps.len() < self.addr.len() {
            return false;
        }
        let mut maps: Vec<MapRange> = Vec::new();
        let mut i: usize = 0;
        while i < self.maps.len()
            invariant
                i <= self.maps@.len(),
                maps@.len() == i,
                forall|j: int| 0 <= j < i ==> (#[trigger] maps@[j])@ == self.maps@[j]@,
            decreases self.maps@.len() - i,
        {
            let ghost prev = maps@;
            maps.push(clone_range(&self.maps[i]));
            proof {
                assert forall|j: int| 0 <= j < i + 1 implies (#[trigger] maps@[j])@ == self.maps@[j]@ by {
                    if j < i {
                        assert(maps@[j] == prev[j]);
                    }
                }
            }
            i = i + 1;
        }
        let mut addr = clone_hits(&self.addr);
        let ghost m0 = maps@;
        let ghost a0 = addr@;
        let mut k: usize = addr.len();
        while k > 0
            invariant
                k <= addr@.len(),
                maps@.len() >= addr@.len(),
                drop_empty(maps@, addr@, k as int) == drop_empty(m0, a0, a0.len() as int),
            decreases k,
        {
            if addr[k - 1].is_empty() {
                addr.swap_remove(k - 1);
                maps.swap_remove(k - 1);
            }
            k = k - 1;
        }
        let ghost m1 = maps@;
        let ghost a1 = addr@;
        proof {
            assert(drop_empty(m1, a1, 0) == (m1, a1));
            lemma_drop_empty_same(m0, a0, self.maps@, self.addr@, a0.len() as int);
        }
        let ghost (dm, da) = drop_empty(self.maps@, self.addr@, self.addr@.len() as int);
        assert(same_ranges(m1, dm) && same_hits(a1, da));
        let mut j: usize = 0;
        while j < addr.len()
            invariant
                (dm, da) == drop_empty(self.maps@, self.addr@, self.addr@.len() as int),
                j <= addr@.len(),
                maps@ == m1,
                addr@ == a1,
                m1.len() >= a1.len(),
                same_ranges(m1, dm),
                same_hits(a1, da),
                forall|t: int| 0 <= t < j ==> #[trigger] pair_ok(dm[t], da[t], 4),
            decreases addr@.len() - j,
        {
            let ok = pair_fits(&maps[j], &addr[j]);
            assert(maps@[j as int]@ == dm[j as int]@ && addr@[j as int]@ == da[j as int]@);
            assert(pair_ok(maps@[j as int], addr@[j as int], 4) == pair_ok(dm[j as int], da[j as int], 4));
            if !ok {
                proof {
                    let t = drop_empty(self.maps@, self.addr@, self.addr@.len() as int);
                    assert(t.0 == dm && t.1 == da);
                    assert(!pair_ok(t.0[j as int], t.1[j as int], 4));
                    assert(j < t.1.len());
                }
                assert(!rescannable(self.maps@, self.addr@));
                return false;
            }
            j = j + 1;
        }
        true
    }

    /// First pass: records the regions `maps` and, for each, the offsets of
    /// the occurrences of `input` in its contents (none when it cannot be
    /// read).
    pub fn first_scan<H: MemExt>(&mut self, handle: &H, maps: Vec<MapRange>)
        requires
            forall|i: int| 0 <= i < maps@.len() ==> (#[trigger] maps@[i]).range_start <= maps@[i].range_end,
        ensures
            final(self).input@ == old(self).input@,
            views(final(self).maps@) == views(maps@),
            final(self).addr@.len() == maps@.len(),
            final(self).maps@.len() == final(self).addr@.len(),
            forall|i: int|
                0 <= i < maps@.len() ==> found_region(
                    handle,
                    (#[trigger] final(self).addr@[i])@,
                    maps@[i]@,
                    old(self).input@,
                ),
    {
        let addr = scan_regions(handle, &maps, self.input.as_slice());
        self.maps = maps;
        self.addr = addr;
    }

    /// Later pass: drops the regions whose hit lists are empty, then reads
    /// each remaining region again and keeps the hits whose four bytes still
    /// equal the first four bytes searched for. A failed read ends the pass
    /// with its error.
    pub fn rescan<H: MemExt>(&mut self, handle: &H) -> (r: Result<(), Error>)
        requires
            old(self).input@.len() >= 4,
            old(self).maps@.len() >= old(self).addr@.len(),
            rescannable(old(self).maps@, old(self).addr@),
        ensures
            final(self).input@ == old(self).input@,
            old(self).maps@.len() == old(self).addr@.len() ==> final(self).maps@.len()
                == final(self).addr@.len(),
            ({
                let (m1, a1) = drop_empty(old(self).maps@, old(self).addr@, old(self).addr@.len() as int);
                &&& views(final(self).maps@) == views(m1)
                &&& final(self).addr@.len() == a1.len()
                &&& r is Ok ==> forall|k: int|
                    0 <= k < a1.len() ==> #[trigger] narrowed(handle, final(self).addr@[k], m1[k], a1[k], probe(old(self).input@), Keep::Equal)
                &&& r is Err ==> exists|f: int|
                    0 <= f < a1.len() && #[trigger] narrowed_before(
                        handle,
                        final(self).addr@,
                        a1,
                        m1,
                        probe(old(self).input@),
                        Keep::Equal,
                        f,
                    )
            }),
    {
        let v: Vec<u8> = vstd::slice::slice_to_vec(
            vstd::slice::slice_subrange(self.input.as_slice(), 0, 4),
        );
        let ghost m0 = self.maps@;
        let ghost a0 = self.addr@;
        let mut k: usize = self.addr.len();
        while k > 0
            invariant
                m0 == old(self).maps@,
                a0 == old(self).addr@,
                k <= self.addr@.len(),
                self.maps@.len() >= self.addr@.len(),
                self.input@ == old(self).input@,
                drop_empty(self.maps@, self.addr@, k as int) == drop_empty(m0, a0, a0.len() as int),
            decreases k,
        {
            if self.addr[k - 1].is_empty() {
                self.addr.swap_remove(k - 1);
                self.maps.swap_remove(k - 1);
            }
            k = k - 1;
        }
        let ghost m1 = self.maps@;
        let ghost a1 = self.addr@;
        assert(drop_empty(m1, a1, 0) == (m1, a1));
        proof {
            lemma_drop_empty_len(m0, a0, a0.len() as int);
            assert(drop_empty(m0, a0, a0.len() as int) == (m1, a1));
            if m0.len() == a0.len() {
                lemma_drop_empty_pairs(m0, a0);
            }
        }
        let r = narrow_regions(handle, &self.maps, &mut self.addr, v.as_slice(), Keep::Equal);
        assert(self.maps@ == m1);
        if r.is_err() {
            let ghost f = choose|f: int|
                0 <= f < a1.len() && f < m1.len() && #[trigger] narrowed_before(
                    handle,
                    self.addr@,
                    a1,
                    m1,
                    v@,
                    Keep::Equal,
                    f,
                );
            assert(narrowed_before(handle, self.addr@, a1, m1, probe(old(self).input@), Keep::Equal, f));
        }
        r
    }
}

proof fn lemma_drop_empty_pairs_from(maps: Seq<MapRange>, addr: Seq<Vec<usize>>, k: int)
    requires
        maps.len() == addr.len(),
        0 <= k <= addr.len(),
        forall|j: int| k <= j < addr.len() ==> (#[trigger] addr[j])@.len() > 0,
    ensures
        ({
            let (m1, a1) = drop_empty(maps, addr, k);
            &&& m1.len() == a1.len()
            &&& forall|j: int| 0 <= j < a1.len() ==> (#[trigger] a1[j])@.len() > 0
        }),
    decreases k,
{
    if k > 0 {
        if addr[k - 1]@.len() == 0 {
            let m2 = maps.update(k - 1, maps.last()).drop_last();
            let a2 = addr.update(k - 1, addr.last()).drop_last();
            assert forall|j: int| k - 1 <= j < a2.len() implies (#[trigger] a2[j])@.len() > 0 by {
                if j == k - 1 {
                    assert(a2[j] == addr[addr.len() - 1]);
                } else {
                    assert(a2[j] == addr[j]);
                }
            }
            lemma_drop_empty_pairs_from(m2, a2, k - 1);
        } else {
            lemma_drop_empty_pairs_from(maps, addr, k - 1);
        }
    }
}

/// Dropping the empty hit lists, as a later pass does first, keeps regions
/// and hit lists paired one to one, and leaves no empty hit list.
pub proof fn lemma_drop_empty_pairs(maps: Seq<MapRange>, addr: Seq<Vec<usize>>)
    requires
        maps.len() == addr.len(),
    ensures
        ({
            let (m1, a1) = drop_empty(maps, addr, addr.len() as int);
            &&& m1.len() == a1.len()
            &&& forall|j: int| 0 <= j < a1.len() ==> (#[trigger] a1[j])@.len() > 0
        }),
{
    lemma_drop_empty_pairs_from(maps, addr, addr.len() as int);
}

/// A hit that a later pass keeps was a hit before, and the memory of `h`
/// held, over its region, bytes whose window at the hit equals the first
/// four bytes searched for.
pub proof fn lemma_rescan_keeps_matching<H: MemExt>(
    h: &H,
    new: Vec<usize>,
    m: MapRange,
    a: Vec<usize>,
    input: Seq<u8>,
)
    requires
        narrowed(h, new, m, a, probe(input), Keep::Equal),
    ensures
        forall|o: usize|
            #[trigger] new@.contains(o) ==> a@.contains(o) && exists|mem: Seq<u8>|
                mem.len() == m.range_end - m.range_start && h.holds(m.range_start as int, mem)
                    && window(mem, o as int, probe(input)) == probe(input),
{
    let v = probe(input);
    let mem = choose|mem: Seq<u8>|
        mem.len() == m.range_end - m.range_start && h.holds(m.range_start as int, mem) && new@ == narrow(
            mem,
            a@,
            v,
            Keep::Equal,
            a@.len() as int,
        );
    lemma_narrow_keeps_survivors(mem, a@, v, Keep::Equal);
    let f = a@.filter(survivor(mem, v, Keep::Equal));
    assert forall|o: usize| #[trigger] new@.contains(o) implies a@.contains(o) && exists|mm: Seq<u8>|
        mm.len() == m.range_end - m.range_start && h.holds(m.range_start as int, mm) && window(
            mm,
            o as int,
            v,
        ) == v by {
        vstd::seq_lib::to_multiset_contains(new@, o);
        vstd::seq_lib::to_multiset_contains(f, o);
        assert(f.contains(o));
        a@.lemma_filter_contains_rev(survivor(mem, v, Keep::Equal), o);
        let i = choose|i: int| 0 <= i < f.len() && f[i] == o;
        a@.lemma_filter_pred(survivor(mem, v, Keep::Equal), i);
        assert(window(mem, o as int, v) == v);
    }
}

/// The absolute addresses of the hits of the first `n` regions, region by
/// region: each offset plus the start of its region.
pub open spec fn abs_hits(maps: Seq<MapRange>, addr: Seq<Vec<usize>>, n: int) -> Seq<int>
    decreases n,
{
    if n <= 0 || n > addr.len() {
        seq![]
    } else {
        abs_hits(maps, addr, n - 1) + ints(addr[n - 1]@).map_values(
            |a: int| a + maps[n - 1].range_start,
        )
    }
}

/// Number of hits in the first `n` lists.
pub open spec fn hit_count(addr: Seq<Vec<usize>>, n: int) -> int
    decreases n,
{
    if n <= 0 || n > addr.len() {
        0
    } else {
        hit_count(addr, n - 1) + addr[n - 1]@.len()
    }
}

/// The listing has one address per hit.
pub proof fn lemma_abs_hits_len(maps: Seq<MapRange>, addr: Seq<Vec<usize>>, n: int)
    ensures
        abs_hits(maps, addr, n).len() == hit_count(addr, n),
    decreases n,
{
    if 0 < n <= addr.len() {
        lemma_abs_hits_len(maps, addr, n - 1);
    }
}

/// The absolute addresses of all hits, region by region: each offset of
/// `addr[k]` plus the start of `maps[k]`.
pub fn absolute_hits(maps: &Vec<MapRange>, addr: &Vec<Vec<usize>>) -> (r: Vec<usize>)
    requires
        maps@.len() >= addr@.len(),
        forall|k: int, j: int|
            0 <= k < addr@.len() && 0 <= j < addr@[k]@.len() ==> #[trigger] addr@[k]@[j]
                + maps@[k].range_start <= usize::MAX,
    ensures
        ints(r@) == abs_hits(maps@, addr@, addr@.len() as int),
{
    let mut out: Vec<usize> = Vec::new();
    let n = addr.len();
    let mut k: usize = 0;
    while k < n
        invariant
            n == addr@.len(),
            k <= n,
            maps@.len() >= n,
            forall|k: int, j: int|
                0 <= k < addr@.len() && 0 <= j < addr@[k]@.len() ==> #[trigger] addr@[k]@[j]
                    + maps@[k].range_start <= usize::MAX,
            ints(out@) == abs_hits(maps@, addr@, k as int),
        decreases n - k,
    {
        let base = maps[k].range_start;
        let list = &addr[k];
        let ghost pre = ints(out@);
        let mut j: usize = 0;
        while j < list.len()
            invariant
                n == addr@.len(),
                k < n,
                maps@.len() >= n,
                *list == addr@[k as int],
                base == maps@[k as int].range_start,
                j <= list@.len(),
                forall|k: int, j: int|
                    0 <= k < addr@.len() && 0 <= j < addr@[k]@.len() ==> #[trigger] addr@[k]@[j]
                        + maps@[k].range_start <= usize::MAX,
                ints(out@) == pre + ints(list@.take(j as int)).map_values(|a: int| a + base),
            decreases list@.len() - j,
        {
            assert(addr@[k as int]@[j as int] + maps@[k as int].range_start <= usize::MAX);
            let a = list[j] + base;
            let ghost prev = out@;
            out.push(a);
            proof {
                assert(list@.take(j + 1 as int) =~= list@.take(j as int).push(list@[j as int]));
                assert(ints(out@) =~= ints(prev).push(a as int));
                assert(ints(list@.take(j + 1 as int)).map_values(|a: int| a + base) =~= ints(
                    list@.take(j as int),
                ).map_values(|a: int| a + base).push(a as int));
            }
            j = j + 1;
        }
        proof {
            assert(list@.take(list@.len() as int) =~= list@);
        }
        k = k + 1;
    }
    out
}

impl Cache {
    /// The absolute addresses of all hits, region by region.
    pub fn hits(&self) -> (r: Vec<usize>)
        requires
            self.maps@.len() >= self.addr@.len(),
            forall|k: int, j: int|
                0 <= k < self.addr@.len() && 0 <= j < self.addr@[k]@.len() ==> #[trigger] self.addr@[k]@[j]
                    + self.maps@[k].range_start <= usize::MAX,
        ensures
            ints(r@) == abs_hits(self.maps@, self.addr@, self.addr@.len() as int),
    {
        absolute_hits(&self.maps, &self.addr)
    }
}

/// The position just after the last non-whitespace character of
/// `s[..j]` (zero when there is none).
pub open spec fn rskip_ws(s: Seq<char>, j: int) -> int
    decreases j,
{
    if j <= 0 {
        0
    } else if is_ws(s[j - 1]) {
        rskip_ws(s, j - 1)
    } else {
        j
    }
}

/// `s` without leading and trailing whitespace (`str::trim`).
pub open spec fn trimmed(s: Seq<char>) -> Seq<char> {
    let a = skip_ws(s, 0);
    let b = rskip_ws(s, s.len() as int);
    if a < b {
        s.subrange(a, b)
    } else {
        seq![]
    }
}

/// The position of the last `x` in `t[..j]`.
pub open spec fn last_x(t: Seq<char>, j: int) -> Option<int>
    decreases j,
{
    if j <= 0 {
        None
    } else if t[j - 1] == 'x' {
        Some(j - 1)
    } else {
        last_x(t, j - 1)
    }
}

proof fn lemma_skip_ws_range(s: Seq<char>, i: int)
    requires
        0 <= i <= s.len(),
    ensures
        i <= skip_ws(s, i) <= s.len(),
    decreases s.len() - i,
{
    if i < s.len() && is_ws(s[i]) {
        lemma_skip_ws_range(s, i + 1);
    }
}

/// The trimmed end lies between the start and `j`.
pub proof fn lemma_rskip_ws_range(s: Seq<char>, j: int)
    requires
        0 <= j <= s.len(),
    ensures
        0 <= rskip_ws(s, j) <= j,
    decreases j,
{
    if j > 0 && is_ws(s[j - 1]) {
        lemma_rskip_ws_range(s, j - 1);
    }
}

proof fn lemma_last_x_range(t: Seq<char>, j: int)
    requires
        0 <= j <= t.len(),
    ensures
        last_x(t, j) matches Some(i) ==> 0 <= i < j,
    decreases j,
{
    if j > 0 && t[j - 1] != 'x' {
        lemma_last_x_range(t, j - 1);
    }
}

/// The program counter in the contents of `/proc/<pid>/syscall`: the
/// hexadecimal digits after the last `x` of the trimmed text.
pub fn parse_syscall_ip(content: &str) -> (r: Result<u64, Error>)
    ensures
        match last_x(trimmed(content@), trimmed(content@).len() as int) {
            None => r matches Err(Error::PidNotFound),
            Some(i) => match parse_uint(trimmed(content@).skip(i + 1), true, u64::MAX as int) {
                Ok(v) => r matches Ok(x) && x == v,
                Err(k) => r matches Err(Error::ParseIntError(k2)) && k2 == k,
            },
        },
{
    let chars = chars_of(content);
    let n = chars.len();
    let mut a: usize = 0;
    while a < n && is_whitespace(chars[a])
        invariant
            chars@ == content@,
            n == chars@.len(),
            a <= n,
            skip_ws(content@, a as int) == skip_ws(content@, 0),
        decreases n - a,
    {
        a = a + 1;
    }
    let mut b: usize = n;
    while b > a && is_whitespace(chars[b - 1])
        invariant
            chars@ == content@,
            n == chars@.len(),
            a <= b <= n,
            skip_ws(content@, 0) == a,
            rskip_ws(content@, b as int) == rskip_ws(content@, n as int) || (b == a && rskip_ws(
                content@,
                n as int,
            ) <= a),
        decreases b,
    {
        proof {
            lemma_rskip_ws_range(content@, b - 1);
        }
        b = b - 1;
    }
    proof {
        lemma_rskip_ws_range(content@, n as int);
        lemma_rskip_ws_range(content@, b as int);
    }
    let ghost t = trimmed(content@);
    assert(t =~= content@.subrange(a as int, b as int));
    let mut j: usize = b;
    while j > a && chars[j - 1] != 'x'
        invariant
            chars@ == content@,
            n == chars@.len(),
            a <= j <= b <= n,
            t == content@.subrange(a as int, b as int),
            last_x(t, t.len() as int) == last_x(t, j - a),
        decreases j,
    {
        j = j - 1;
    }
    if j == a {
        return Err(Error::PidNotFound);
    }
    proof {
        lemma_last_x_range(t, t.len() as int);
    }
    let after = content.substring_char(j, b);
    assert(after@ =~= t.skip(j - a));
    match parse_u64_hex(after) {
        Ok(v) => Ok(v),
        Err(k) => Err(Error::ParseIntError(k)),
    }
}

/// The path of the C library whose loader entry point is used.
pub open spec fn libc_path() -> Seq<char> {
    seq![
        '/', 'u', 's', 'r', '/', 'l', 'i', 'b', '/', 'l', 'i', 'b', 'c', '.', 's', 'o', '.', '6'
    ]
}

/// The position of the first entry of `maps[i..]` whose path is `path`.
pub open spec fn first_with_path(maps: Seq<MapEntry>, path: Seq<char>, i: int) -> Option<int>
    decreases maps.len() - i,
{
    if i < 0 || i >= maps.len() {
        None
    } else if maps[i].pathname == path {
        Some(i)
    } else {
        first_with_path(maps, path, i + 1)
    }
}

/// The start of the first region mapped from the C library.
pub fn libc_base(maps: &Vec<MapRange>) -> (r: Result<usize, Error>)
    ensures
        match first_with_path(views(maps@), libc_path(), 0) {
            None => r matches Err(Error::PidNotFound),
            Some(i) => r matches Ok(b) && b == maps@[i].range_start,
        },
{
    let mut i: usize = 0;
    proof {
        reveal_strlit("/usr/lib/libc.so.6");
        assert("/usr/lib/libc.so.6"@ =~= libc_path());
    }
    while i < maps.len()
        invariant
            i <= maps@.len(),
            "/usr/lib/libc.so.6"@ == libc_path(),
            first_with_path(views(maps@), libc_path(), i as int) == first_with_path(
                views(maps@),
                libc_path(),
                0,
            ),
        decreases maps@.len() - i,
    {
        if str_eq(maps[i].pathname.as_str(), "/usr/lib/libc.so.6") {
            return Ok(maps[i].range_start);
        }
        i = i + 1;
    }
    Err(Error::PidNotFound)
}

/// A symbol as a name (when the string table has one for it) and a value.
pub open spec fn sym_view(s: (Option<String>, u64)) -> (Option<Seq<char>>, u64) {
    (
        match s.0 {
            Some(n) => Some(n@),
            None => None,
        },
        s.1,
    )
}

/// The views of a symbol table.
pub open spec fn sym_views(t: Seq<(Option<String>, u64)>) -> Seq<(Option<Seq<char>>, u64)> {
    t.map_values(|s: (Option<String>, u64)| sym_view(s))
}

/// The static and the dynamic symbol tables of the ELF image `image`, each
/// symbol as its name and value, or none when the image does not parse.
pub uninterp spec fn elf_symbols(image: Seq<u8>) -> Option<
    (Seq<(Option<Seq<char>>, u64)>, Seq<(Option<Seq<char>>, u64)>),
>;

/// `goblin::elf::Elf::parse`, with the static (`syms`, `strtab`) and the
/// dynamic (`dynsyms`, `dynstrtab`) symbol tables handed out in order, each
/// symbol as the string `Strtab::get_at` finds at its name offset and its
/// `st_value`. The tables are named by `elf_symbols`; a parse error comes
/// back as it is.
#[verifier::external_body]
fn elf_symbol_tables(image: &[u8]) -> (r: Result<
    (Vec<(Option<String>, u64)>, Vec<(Option<String>, u64)>),
    ElfParseError,
>)
    ensures
        match r {
            Ok((s, d)) => elf_symbols(image@) == Some((sym_views(s@), sym_views(d@))),
            Err(_) => elf_symbols(image@) is None,
        },
{
    let elf = goblin::elf::Elf::parse(image)?;
    let name = |t: &goblin::strtab::Strtab, i: usize| t.get_at(i).map(String::from);
    let syms = elf.syms.iter().map(|s| (name(&elf.strtab, s.st_name), s.st_value)).collect();
    let dyns = elf.dynsyms.iter().map(|s| (name(&elf.dynstrtab, s.st_name), s.st_value)).collect();
    Ok((syms, dyns))
}

/// The value of the first symbol of `t[i..]` named `name`.
pub open spec fn sym_lookup(t: Seq<(Option<Seq<char>>, u64)>, name: Seq<char>, i: int) -> Option<
    u64,
>
    decreases t.len() - i,
{
    if i < 0 || i >= t.len() {
        None
    } else if t[i].0 == Some(name) {
        Some(t[i].1)
    } else {
        sym_lookup(t, name, i + 1)
    }
}

/// The value of the symbol `name`, looked up in the static table first and
/// then in the dynamic one.
pub open spec fn find_sym(
    syms: Seq<(Option<Seq<char>>, u64)>,
    dynsyms: Seq<(Option<Seq<char>>, u64)>,
    name: Seq<char>,
) -> Option<u64> {
    match sym_lookup(syms, name, 0) {
        Some(v) => Some(v),
        None => sym_lookup(dynsyms, name, 0),
    }
}

/// The value of the first symbol of `t` named `name`.
fn lookup_in(t: &Vec<(Option<String>, u64)>, name: &str) -> (r: Option<u64>)
    ensures
        r == sym_lookup(sym_views(t@), name@, 0),
{
    let mut i: usize = 0;
    while i < t.len()
        invariant
            i <= t@.len(),
            sym_lookup(sym_views(t@), name@, i as int) == sym_lookup(sym_views(t@), name@, 0),
        decreases t@.len() - i,
    {
        match &t[i].0 {
            Some(n) => {
                if str_eq(n.as_str(), name) {
                    return Some(t[i].1);
                }
            },
            None => {},
        }
        i = i + 1;
    }
    None
}

/// The value of the symbol `name`: the first match in the static symbol
/// table, else the first in the dynamic one.
pub fn find_sym_by_name(
    syms: &Vec<(Option<String>, u64)>,
    dynsyms: &Vec<(Option<String>, u64)>,
    name: &str,
) -> (r: Option<u64>)
    ensures
        r == find_sym(sym_views(syms@), sym_views(dynsyms@), name@),
{
    match lookup_in(syms, name) {
        Some(v) => Some(v),
        None => lookup_in(dynsyms, name),
    }
}

/// The name of the C library's loader entry point.
pub open spec fn dlopen_name() -> Seq<char> {
    seq![
        '_', '_', 'l', 'i', 'b', 'c', '_', 'd', 'l', 'o', 'p', 'e', 'n', '_', 'm', 'o', 'd', 'e'
    ]
}

/// Where the loader entry point `__libc_dlopen_mode` lies in the target:
/// the start of the target's C library mapping plus the symbol's value in
/// the library image `libc_image` (the sum wraps around on overflow). An
/// image that does not parse gives its parse error; a missing symbol or
/// mapping gives `PidNotFound`.
pub fn dlopen_address(libc_image: &[u8], maps: &Vec<MapRange>) -> (r: Result<u64, Error>)
    ensures
        match elf_symbols(libc_image@) {
            None => r matches Err(Error::ElfError(_)),
            Some((s, d)) => match find_sym(s, d, dlopen_name()) {
                None => r matches Err(Error::PidNotFound),
                Some(v) => match first_with_path(views(maps@), libc_path(), 0) {
                    None => r matches Err(Error::PidNotFound),
                    Some(i) => r matches Ok(a) && a == (maps@[i].range_start + v) % 0x1_0000_0000_0000_0000,
                },
            },
        },
{
    let (syms, dynsyms) = match elf_symbol_tables(libc_image) {
        Ok(t) => t,
        Err(e) => {
            return Err(Error::ElfError(e));
        },
    };
    proof {
        reveal_strlit("__libc_dlopen_mode");
        assert("__libc_dlopen_mode"@ =~= dlopen_name());
    }
    let value = match find_sym_by_name(&syms, &dynsyms, "__libc_dlopen_mode") {
        Some(v) => v,
        None => {
            return Err(Error::PidNotFound);
        },
    };
    let base = libc_base(maps)?;
    let b = base as u64;
    assert(b == base);
    Ok(b.wrapping_add(value))
}

/// The eight little-endian bytes of `x`.
pub open spec fn u64_le(x: u64) -> Seq<u8> {
    seq![
        (x & 0xff) as u8,
        ((x >> 8) & 0xff) as u8,
        ((x >> 16) & 0xff) as u8,
        ((x >> 24) & 0xff) as u8,
        ((x >> 32) & 0xff) as u8,
        ((x >> 40) & 0xff) as u8,
        ((x >> 48) & 0xff) as u8,
        ((x >> 56) & 0xff) as u8
    ]
}

/// Writing a value as eight little-endian bytes and reading them back gives
/// the value again.
pub proof fn lemma_u64_le_roundtrip(x: u64)
    ensures
        le64(u64_le(x), 0) == x,
{
    let b = u64_le(x);
    let b0 = (x & 0xff) as u8;
    let b1 = ((x >> 8) & 0xff) as u8;
    let b2 = ((x >> 16) & 0xff) as u8;
    let b3 = ((x >> 24) & 0xff) as u8;
    let b4 = ((x >> 32) & 0xff) as u8;
    let b5 = ((x >> 40) & 0xff) as u8;
    let b6 = ((x >> 48) & 0xff) as u8;
    let b7 = ((x >> 56) & 0xff) as u8;
    assert(b[0] == b0 && b[1] == b1 && b[2] == b2 && b[3] == b3);
    assert(b[4] == b4 && b[5] == b5 && b[6] == b6 && b[7] == b7);
    assert(x == b0 as u64 + 256 * b1 as u64 + 65536 * (b2 as u64 + 256 * b3 as u64) + 4294967296 * (
    b4 as u64 + 256 * b5 as u64 + 65536 * (b6 as u64 + 256 * b7 as u64))) by (bit_vector)
        requires
            b0 == (x & 0xff) as u8,
            b1 == ((x >> 8) & 0xff) as u8,
            b2 == ((x >> 16) & 0xff) as u8,
            b3 == ((x >> 24) & 0xff) as u8,
            b4 == ((x >> 32) & 0xff) as u8,
            b5 == ((x >> 40) & 0xff) as u8,
            b6 == ((x >> 48) & 0xff) as u8,
            b7 == ((x >> 56) & 0xff) as u8,
    ;
}

/// Appends the eight little-endian bytes of `x` to `v` (`u64::to_le_bytes`).
pub fn push_u64_le(v: &mut Vec<u8>, x: u64)
    ensures
        final(v)@ == old(v)@ + u64_le(x),
{
    v.push((x & 0xff) as u8);
    v.push(((x >> 8) & 0xff) as u8);
    v.push(((x >> 16) & 0xff) as u8);
    v.push(((x >> 24) & 0xff) as u8);
    v.push(((x >> 32) & 0xff) as u8);
    v.push(((x >> 40) & 0xff) as u8);
    v.push(((x >> 48) & 0xff) as u8);
    v.push(((x >> 56) & 0xff) as u8);
    assert(v@ =~= old(v)@ + u64_le(x));
}

/// Appends the bytes of `b` to `v`.
pub fn push_all(v: &mut Vec<u8>, b: &[u8])
    ensures
        final(v)@ == old(v)@ + b@,
{
    let mut i: usize = 0;
    while i < b.len()
        invariant
            i <= b@.len(),
            v@ == old(v)@ + b@.take(i as int),
        decreases b@.len() - i,
    {
        v.push(b[i]);
        assert(b@.take(i + 1 as int) =~= b@.take(i as int).push(b@[i as int]));
        i = i + 1;
    }
    assert(b@.take(b@.len() as int) =~= b@);
}

/// The machine code that the first stage writes at the target's
/// instruction pointer: it maps the second-stage file and jumps into it.
pub open spec fn stage1_code() -> Seq<u8> {
    seq![
        80, 83, 81, 82, 85, 86, 87, 65, 80, 65, 81, 65, 82, 65, 83, 65, 84, 65, 85, 65, 86, 65,
        87, 72, 199, 192, 2, 0, 0, 0, 72, 141, 61, 100, 0, 0, 0, 72, 199, 198, 0, 0, 0, 0, 72,
        199, 194, 0, 0, 0, 0, 15, 5, 73, 137, 198, 72, 199, 192, 9, 0, 0, 0, 72, 199, 199, 0,
        0, 0, 0, 72, 199, 198, 0, 2, 0, 0, 72, 199, 194, 5, 0, 0, 0, 73, 199, 194, 2, 0, 0, 0,
        77, 137, 240, 73, 199, 193, 0, 0, 0, 0, 15, 5, 73, 137, 199, 72, 199, 192, 3, 0, 0, 0,
        76, 137, 247, 15, 5, 72, 199, 192, 87, 0, 0, 0, 72, 141, 61, 5, 0, 0, 0, 15, 5, 65,
        255, 231
    ]
}

/// The machine code that starts the second stage: it restores the
/// overwritten instructions, calls the loader entry point on the library
/// path and returns to the interrupted code.
pub open spec fn stage2_code() -> Seq<u8> {
    seq![
        72, 199, 192, 2, 0, 0, 0, 72, 141, 61, 123, 0, 0, 0, 72, 199, 198, 2, 0, 0, 0, 72, 199,
        194, 0, 0, 0, 0, 15, 5, 73, 137, 199, 72, 199, 192, 18, 0, 0, 0, 76, 137, 255, 72, 141,
        53, 102, 0, 0, 0, 72, 139, 21, 245, 0, 0, 0, 76, 139, 21, 246, 0, 0, 0, 15, 5, 72, 199,
        192, 3, 0, 0, 0, 76, 137, 255, 15, 5, 72, 137, 229, 72, 131, 228, 240, 72, 141, 61,
        226, 0, 0, 0, 72, 199, 198, 1, 0, 0, 0, 255, 21, 0, 1, 0, 0, 72, 137, 236, 65, 95, 65,
        94, 65, 93, 65, 92, 65, 91, 65, 90, 65, 89, 65, 88, 95, 94, 93, 90, 89, 91, 88, 255,
        37, 173, 0, 0, 0, 47, 112, 114, 111, 99, 47, 115, 101, 108, 102, 47, 109, 101, 109, 0
    ]
}

/// The bytes of the first stage: its code, then the path of the
/// second-stage file and a terminating zero.
pub open spec fn stage1(path: Seq<u8>) -> Seq<u8> {
    stage1_code() + path + seq![0u8]
}

/// The bytes of the second stage: its code, the saved instructions, their
/// length and the resume address as little-endian words, the library path
/// with a terminating zero, and the loader's address.
pub open spec fn stage2(code: Seq<u8>, ip: u64, lib_path: Seq<u8>, dl: u64) -> Seq<u8> {
    stage2_code() + code + u64_le(code.len() as u64) + u64_le(ip) + lib_path + seq![0u8] + u64_le(dl)
}

/// The first-stage stub that loads the second stage from `payload_path`.
pub fn loader_stub(payload_path: &str) -> (r: Vec<u8>)
    ensures
        r@ == stage1(payload_path.spec_bytes()),
{
    let mut p1: Vec<u8> = vec![
        80, 83, 81, 82, 85, 86, 87, 65, 80, 65, 81, 65, 82, 65, 83, 65, 84, 65, 85, 65, 86, 65,
        87, 72, 199, 192, 2, 0, 0, 0, 72, 141, 61, 100, 0, 0, 0, 72, 199, 198, 0, 0, 0, 0, 72,
        199, 194, 0, 0, 0, 0, 15, 5, 73, 137, 198, 72, 199, 192, 9, 0, 0, 0, 72, 199, 199, 0,
        0, 0, 0, 72, 199, 198, 0, 2, 0, 0, 72, 199, 194, 5, 0, 0, 0, 73, 199, 194, 2, 0, 0, 0,
        77, 137, 240, 73, 199, 193, 0, 0, 0, 0, 15, 5, 73, 137, 199, 72, 199, 192, 3, 0, 0, 0,
        76, 137, 247, 15, 5, 72, 199, 192, 87, 0, 0, 0, 72, 141, 61, 5, 0, 0, 0, 15, 5, 65,
        255, 231
    ];
    assert(p1@ =~= stage1_code());
    push_all(&mut p1, payload_path.as_bytes());
    p1.push(0);
    assert(p1@ =~= stage1(payload_path.spec_bytes()));
    p1
}

/// The second stage: restores `code` at `ip` and makes the target load
/// `lib_path` through the loader at `dl`.
pub fn loader_payload(code: &[u8], ip: u64, lib_path: &str, dl: u64) -> (r: Vec<u8>)
    ensures
        r@ == stage2(code@, ip, lib_path.spec_bytes(), dl),
{
    let mut p2: Vec<u8> = vec![
        72, 199, 192, 2, 0, 0, 0, 72, 141, 61, 123, 0, 0, 0, 72, 199, 198, 2, 0, 0, 0, 72, 199,
        194, 0, 0, 0, 0, 15, 5, 73, 137, 199, 72, 199, 192, 18, 0, 0, 0, 76, 137, 255, 72, 141,
        53, 102, 0, 0, 0, 72, 139, 21, 245, 0, 0, 0, 76, 139, 21, 246, 0, 0, 0, 15, 5, 72, 199,
        192, 3, 0, 0, 0, 76, 137, 255, 15, 5, 72, 137, 229, 72, 131, 228, 240, 72, 141, 61,
        226, 0, 0, 0, 72, 199, 198, 1, 0, 0, 0, 255, 21, 0, 1, 0, 0, 72, 137, 236, 65, 95, 65,
        94, 65, 93, 65, 92, 65, 91, 65, 90, 65, 89, 65, 88, 95, 94, 93, 90, 89, 91, 88, 255,
        37, 173, 0, 0, 0, 47, 112, 114, 111, 99, 47, 115, 101, 108, 102, 47, 109, 101, 109, 0
    ];
    assert(p2@ =~= stage2_code());
    push_all(&mut p2, code);
    push_u64_le(&mut p2, code.len() as u64);
    push_u64_le(&mut p2, ip);
    push_all(&mut p2, lib_path.as_bytes());
    p2.push(0);
    push_u64_le(&mut p2, dl);
    assert(p2@ =~= stage2(code@, ip, lib_path.spec_bytes(), dl));
    p2
}

} // verus!
