//! Searching process memory for a byte pattern, region by region and chunk
//! by chunk, and narrowing earlier results down.

use crate::data::vec_shrink_to_fit;
use crate::error::Error;
use crate::mem::{Chunks, MemExt, chunk_plan, lemma_chunk_plan_tiles};
use crate::region::InfoExt;
use vstd::multiset::Multiset;
use vstd::prelude::*;

verus! {

/// The number of bytes read per chunk; offsets inside a chunk fit in 16 bits.
pub const CHUNK_SIZE: usize = 63488;

/// The offsets `k, k + n, k + 2n, ...` (with `n` the pattern length) at which
/// `chunk` holds `value`, up to the last whole window.
pub open spec fn aligned_matches(chunk: Seq<u8>, value: Seq<u8>, k: int) -> Seq<int>
    decreases chunk.len() - k,
{
    if value.len() == 0 || k < 0 || k + value.len() > chunk.len() {
        seq![]
    } else if chunk.subrange(k, k + value.len()) == value {
        seq![k] + aligned_matches(chunk, value, k + value.len())
    } else {
        aligned_matches(chunk, value, k + value.len())
    }
}

/// `mem` holds `value` at offset `o`.
pub open spec fn holds_at(mem: Seq<u8>, o: int, value: Seq<u8>) -> bool {
    mem.subrange(o, o + value.len()) == value
}

/// The offsets left after visiting `offs[k - 1], offs[k - 2], ..., offs[0]`
/// in turn and replacing each one at which `mem` does not hold `value` by the
/// last offset (as a reverse loop of `swap_remove` calls does).
pub open spec fn sweep(mem: Seq<u8>, value: Seq<u8>, offs: Seq<u16>, k: int) -> Seq<u16>
    decreases k,
{
    if k <= 0 || k > offs.len() {
        offs
    } else {
        let next = if holds_at(mem, offs[k - 1] as int, value) {
            offs
        } else {
            offs.update(k - 1, offs.last()).drop_last()
        };
        sweep(mem, value, next, k - 1)
    }
}

/// Whether `mem` holds `value` at the offset `o`, as a predicate on offsets.
pub open spec fn holds_pred(mem: Seq<u8>, value: Seq<u8>) -> spec_fn(u16) -> bool {
    |o: u16| holds_at(mem, o as int, value)
}

proof fn lemma_empty_multiset(s: Seq<u16>)
    requires
        s.len() == 0,
    ensures
        s.to_multiset() =~= Multiset::<u16>::empty(),
{
    vstd::seq_lib::to_multiset_len(s);
    vstd::multiset::lemma_multiset_empty_len(s.to_multiset());
}

proof fn lemma_sweep_step(mem: Seq<u8>, value: Seq<u8>, offs: Seq<u16>, k: int)
    requires
        0 <= k <= offs.len(),
    ensures
        sweep(mem, value, offs, k).to_multiset() == offs.take(k).filter(
            holds_pred(mem, value),
        ).to_multiset().add(offs.skip(k).to_multiset()),
    decreases k,
{
    broadcast use vstd::multiset::group_multiset_axioms;
    broadcast use vstd::seq_lib::lemma_multiset_commutative;

    let p = holds_pred(mem, value);
    if k == 0 {
        assert(offs.skip(0) =~= offs);
        assert(offs.take(0) =~= Seq::<u16>::empty());
        assert(offs.take(0).filter(p) =~= Seq::<u16>::empty()) by {
            offs.take(0).lemma_filter_len(p);
        }
        lemma_empty_multiset(offs.take(0).filter(p));
        assert(sweep(mem, value, offs, 0).to_multiset() =~= Multiset::<u16>::empty().add(
            offs.to_multiset(),
        ));
    } else {
        let x = offs[k - 1];
        assert(offs.take(k) =~= offs.take(k - 1).push(x));
        offs.take(k - 1).lemma_filter_push(x, p);
        if holds_at(mem, x as int, value) {
            lemma_sweep_step(mem, value, offs, k - 1);
            assert(offs.skip(k - 1) =~= seq![x] + offs.skip(k));
            assert(seq![x].to_multiset() =~= Multiset::<u16>::empty().insert(x)) by {
                assert(seq![x] =~= Seq::<u16>::empty().push(x));
                vstd::seq_lib::to_multiset_build(Seq::<u16>::empty(), x);
                lemma_empty_multiset(Seq::<u16>::empty());
            }
            vstd::seq_lib::to_multiset_build(offs.take(k - 1).filter(p), x);
            assert(offs.take(k).filter(p) == offs.take(k - 1).filter(p).push(x));
            assert(sweep(mem, value, offs, k).to_multiset() =~= offs.take(k).filter(
                p,
            ).to_multiset().add(offs.skip(k).to_multiset()));
        } else {
            let next = offs.update(k - 1, offs.last()).drop_last();
            lemma_sweep_step(mem, value, next, k - 1);
            assert(next.take(k - 1) =~= offs.take(k - 1));
            assert(offs.take(k).filter(p) == offs.take(k - 1).filter(p));
            if k == offs.len() {
                assert(next.skip(k - 1) =~= Seq::<u16>::empty());
                assert(offs.skip(k) =~= Seq::<u16>::empty());
            } else {
                let mid = offs.subrange(k, offs.len() - 1);
                assert(next.skip(k - 1) =~= seq![offs.last()] + mid);
                assert(offs.skip(k) =~= mid + seq![offs.last()]);
                vstd::seq_lib::lemma_seq_union_to_multiset_commutative(seq![offs.last()], mid);
            }
            assert(sweep(mem, value, offs, k) == sweep(mem, value, next, k - 1));
            assert(sweep(mem, value, offs, k).to_multiset() =~= offs.take(k).filter(
                p,
            ).to_multiset().add(offs.skip(k).to_multiset()));
        }
    }
}

/// Rescanning a chunk keeps exactly the offsets at which the chunk still
/// holds the value: the survivors are, counted with repetition, the offsets
/// of before that pass the test (their order is not kept).
pub proof fn lemma_sweep_keeps_matches(mem: Seq<u8>, value: Seq<u8>, offs: Seq<u16>)
    ensures
        sweep(mem, value, offs, offs.len() as int).to_multiset() == offs.filter(
            holds_pred(mem, value),
        ).to_multiset(),
{
    broadcast use vstd::multiset::group_multiset_axioms;

    lemma_sweep_step(mem, value, offs, offs.len() as int);
    assert(offs.take(offs.len() as int) =~= offs);
    assert(offs.skip(offs.len() as int) =~= Seq::<u16>::empty());
    lemma_empty_multiset(Seq::<u16>::empty());
    assert(offs.filter(holds_pred(mem, value)).to_multiset().add(Multiset::<u16>::empty())
        =~= offs.filter(holds_pred(mem, value)).to_multiset());
}

/// A sweep removes nothing when every offset still holds the value.
pub proof fn lemma_sweep_keeps_all(mem: Seq<u8>, value: Seq<u8>, offs: Seq<u16>, k: int)
    requires
        0 <= k <= offs.len(),
        forall|i: int| 0 <= i < k ==> holds_at(mem, #[trigger] offs[i] as int, value),
    ensures
        sweep(mem, value, offs, k) == offs,
    decreases k,
{
    if k > 0 {
        lemma_sweep_keeps_all(mem, value, offs, k - 1);
    }
}

/// Each aligned match starts a window equal to the value.
pub proof fn lemma_aligned_matches_hold(chunk: Seq<u8>, value: Seq<u8>, k: int)
    ensures
        forall|i: int|
            0 <= i < aligned_matches(chunk, value, k).len() ==> holds_at(
                chunk,
                #[trigger] aligned_matches(chunk, value, k)[i],
                value,
            ),
    decreases chunk.len() - k,
{
    if !(value.len() == 0 || k < 0 || k + value.len() > chunk.len()) {
        lemma_aligned_matches_hold(chunk, value, k + value.len());
        let rest = aligned_matches(chunk, value, k + value.len());
        if chunk.subrange(k, k + value.len()) == value {
            assert forall|i: int| 0 <= i < aligned_matches(chunk, value, k).len() implies holds_at(
                chunk,
                #[trigger] aligned_matches(chunk, value, k)[i],
                value,
            ) by {
                if i > 0 {
                    assert(aligned_matches(chunk, value, k)[i] == rest[i - 1]);
                }
            }
        }
    }
}

/// Rescanning a chunk whose contents did not change keeps every offset that
/// scanning it found, in place.
pub proof fn lemma_rescan_unchanged_keeps_all(chunk: Seq<u8>, value: Seq<u8>, offs: Seq<u16>)
    requires
        offsets_view(offs) == aligned_matches(chunk, value, 0),
    ensures
        sweep(chunk, value, offs, offs.len() as int) == offs,
{
    lemma_aligned_matches_hold(chunk, value, 0);
    assert forall|i: int| 0 <= i < offs.len() implies holds_at(chunk, #[trigger] offs[i] as int, value) by {
        assert(offsets_view(offs)[i] == offs[i] as int);
        assert(aligned_matches(chunk, value, 0)[i] == offs[i] as int);
    }
    lemma_sweep_keeps_all(chunk, value, offs, offs.len() as int);
}

/// Offsets seen as integers.
pub open spec fn offsets_view(v: Seq<u16>) -> Seq<int> {
    v.map_values(|x: u16| x as int)
}

/// Whether `mem[k..k + value.len()]` equals `value`.
fn holds_at_exec(mem: &[u8], k: usize, value: &[u8]) -> (r: bool)
    requires
        k + value@.len() <= mem@.len(),
    ensures
        r == holds_at(mem@, k as int, value@),
{
    let n = value.len();
    let m = mem.len();
    let mut j: usize = 0;
    while j < n
        invariant
            n == value@.len(),
            m == mem@.len(),
            k + n <= mem@.len(),
            j <= n,
            forall|t: int| 0 <= t < j ==> mem@[k + t] == value@[t],
        decreases n - j,
    {
        if mem[k + j] != value[j] {
            assert(mem@.subrange(k as int, k + n)[j as int] != value@[j as int]);
            return false;
        }
        j = j + 1;
    }
    assert(mem@.subrange(k as int, k + n) =~= value@);
    true
}

/// The offsets of the windows of `chunk` taken every `value.len()` bytes
/// that equal `value`, in increasing order.
pub fn scan_chunk(chunk: &[u8], value: &[u8]) -> (r: Vec<u16>)
    requires
        value@.len() > 0,
        chunk@.len() <= 0x10000,
    ensures
        offsets_view(r@) == aligned_matches(chunk@, value@, 0),
{
    let n = value.len();
    let mut r: Vec<u16> = Vec::new();
    let mut k: usize = 0;
    while n <= chunk.len() && k <= chunk.len() - n
        invariant
            n == value@.len(),
            n > 0,
            chunk@.len() <= 0x10000,
            k <= chunk@.len(),
            offsets_view(r@) + aligned_matches(chunk@, value@, k as int) == aligned_matches(
                chunk@,
                value@,
                0,
            ),
        decreases chunk@.len() - k,
    {
        let ghost prev = r@;
        if holds_at_exec(chunk, k, value) {
            r.push(k as u16);
            assert(offsets_view(r@) =~= offsets_view(prev).push(k as int));
            assert(offsets_view(r@) + aligned_matches(chunk@, value@, k + n) =~= offsets_view(prev)
                + aligned_matches(chunk@, value@, k as int));
        }
        k = k + n;
    }
    assert(aligned_matches(chunk@, value@, k as int) =~= Seq::<int>::empty());
    assert(offsets_view(r@) =~= offsets_view(r@) + aligned_matches(chunk@, value@, k as int));
    r
}

/// Removes, walking from the last offset to the first, each offset at which
/// `mem` no longer holds `value`, moving the last offset into its place.
pub fn rescan_chunk(mem: &[u8], offsets: &mut Vec<u16>, value: &[u8])
    requires
        forall|i: int| 0 <= i < old(offsets)@.len() ==> #[trigger] old(offsets)@[i] + value@.len()
            <= mem@.len(),
    ensures
        final(offsets)@ == sweep(mem@, value@, old(offsets)@, old(offsets)@.len() as int),
{
    let ghost orig = offsets@;
    let mut k: usize = offsets.len();
    while k > 0
        invariant
            k <= offsets@.len(),
            forall|i: int| 0 <= i < offsets@.len() ==> #[trigger] offsets@[i] + value@.len()
                <= mem@.len(),
            sweep(mem@, value@, offsets@, k as int) == sweep(mem@, value@, orig, orig.len() as int),
        decreases k,
    {
        let o = offsets[k - 1] as usize;
        if !holds_at_exec(mem, o, value) {
            let ghost before = offsets@;
            offsets.swap_remove(k - 1);
            assert(offsets@ == before.update(k - 1, before.last()).drop_last());
        }
        k = k - 1;
    }
}

/// `cs` could be the contents of the chunks of `plan`: one sequence of bytes
/// per chunk, each as long as its chunk.
pub open spec fn fits_plan(cs: Seq<Seq<u8>>, plan: Seq<(int, int)>) -> bool {
    &&& cs.len() == plan.len()
    &&& forall|i: int| 0 <= i < cs.len() ==> (#[trigger] cs[i]).len() == plan[i].1
}

/// `local[i]` lists the aligned matches of `value` in `cs[i]`, for every chunk.
pub open spec fn found_in(local: Seq<Vec<u16>>, cs: Seq<Seq<u8>>, value: Seq<u8>) -> bool {
    &&& local.len() == cs.len()
    &&& forall|i: int|
        0 <= i < cs.len() ==> offsets_view((#[trigger] local[i])@) == aligned_matches(
            cs[i],
            value,
            0,
        )
}

/// Each `cs[i]` was held by the memory of `h` at the address of chunk `i`
/// of `plan`.
pub open spec fn held_by<T: MemExt>(h: &T, cs: Seq<Seq<u8>>, plan: Seq<(int, int)>) -> bool {
    forall|i: int| 0 <= i < cs.len() ==> h.holds(#[trigger] plan[i].0, cs[i])
}

/// `local` is what scanning `[start, end)` of `h` for `value` gives: for
/// each chunk of the plan, the aligned matches in bytes that the memory of
/// `h` held at that chunk's address.
pub open spec fn scanned<T: MemExt>(
    h: &T,
    local: Seq<Vec<u16>>,
    start: int,
    end: int,
    value: Seq<u8>,
) -> bool {
    exists|cs: Seq<Seq<u8>>|
        fits_plan(cs, scan_plan(start, end)) && held_by(h, cs, scan_plan(start, end)) && found_in(
            local,
            cs,
            value,
        )
}

/// A read of some chunk of the plan of `[start, end)` in `h` can fail.
pub open spec fn refused_in<T: MemExt>(h: &T, start: int, end: int) -> bool {
    exists|k: int|
        0 <= k < scan_plan(start, end).len() && h.refuses(
            #[trigger] scan_plan(start, end)[k].0,
            scan_plan(start, end)[k].1,
        )
}

/// The chunk plan by which a region `[start, end)` is scanned.
pub open spec fn scan_plan(start: int, end: int) -> Seq<(int, int)> {
    chunk_plan(start, end, CHUNK_SIZE as int)
}

/// Reads `[start, end)` chunk by chunk and lists, per chunk, the offsets of
/// the aligned windows that equal `value`. A failed read ends the scan with
/// its error. Every range is read at least once (an empty one for zero
/// bytes), so whether the scan succeeds rests on `MemExt::read` alone.
pub fn scan_region<T: MemExt>(handle: &T, start: usize, end: usize, value: &[u8]) -> (r: Result<
    Vec<Vec<u16>>,
    Error,
>)
    requires
        start <= end,
        value@.len() > 0,
    ensures
        r matches Ok(local) ==> scanned(handle, local@, start as int, end as int, value@),
        r is Err ==> refused_in(handle, start as int, end as int),
{
    proof {
        lemma_chunk_plan_tiles(start as int, end as int, CHUNK_SIZE as int);
    }
    let ghost plan = scan_plan(start as int, end as int);
    let mut chunks = Chunks::from(handle, start, end, CHUNK_SIZE);
    let mut out: Vec<Vec<u16>> = Vec::new();
    let ghost mut cs: Seq<Seq<u8>> = seq![];
    loop
        invariant
            value@.len() > 0,
            out@.len() == cs.len(),
            cs.len() <= plan.len(),
            chunks.pending() == plan.skip(cs.len() as int),
            chunks.spec_mem() == handle,
            plan == scan_plan(start as int, end as int),
            forall|k: int| 0 <= k < plan.len() ==> 0 <= #[trigger] plan[k].1 <= CHUNK_SIZE,
            forall|i: int| 0 <= i < cs.len() ==> (#[trigger] cs[i]).len() == plan[i].1,
            held_by(handle, cs, plan),
            found_in(out@, cs, value@),
        ensures
            out@.len() == cs.len(),
            cs.len() == plan.len(),
            forall|i: int| 0 <= i < cs.len() ==> (#[trigger] cs[i]).len() == plan[i].1,
            held_by(handle, cs, plan),
            found_in(out@, cs, value@),
        decreases chunks.pending().len(),
    {
        proof {
            if cs.len() < plan.len() {
                assert(plan.skip(cs.len() as int)[0] == plan[cs.len() as int]);
            }
        }
        match chunks.next() {
            None => {
                break;
            },
            Some(Err(e)) => {
                assert(handle.refuses(plan[cs.len() as int].0, plan[cs.len() as int].1));
                assert(refused_in(handle, start as int, end as int));
                return Err(e);
            },
            Some(Ok(chunk)) => {
                let found = scan_chunk(chunk.as_slice(), value);
                proof {
                    assert(plan.skip(cs.len() as int)[0] == plan[cs.len() as int]);
                    assert(plan.skip(cs.len() as int).drop_first() =~= plan.skip(cs.len() + 1 as int));
                }
                let ghost prev = out@;
                out.push(found);
                proof {
                    cs = cs.push(chunk@);
                    assert forall|i: int| 0 <= i < cs.len() implies offsets_view(
                        (#[trigger] out@[i])@,
                    ) == aligned_matches(cs[i], value@, 0) by {
                        if i < cs.len() - 1 {
                            assert(out@[i] == prev[i]);
                        }
                    }
                }
            },
        }
    }
    assert(fits_plan(cs, plan) && held_by(handle, cs, plan) && found_in(out@, cs, value@));
    Ok(out)
}

/// The offsets that remain of `old_local` after rescanning against `cs`:
/// those of each chunk `k < cs.len()` swept against `cs[k]`, the others
/// unchanged.
pub open spec fn swept_in(
    new_local: Seq<Vec<u16>>,
    old_local: Seq<Vec<u16>>,
    cs: Seq<Seq<u8>>,
    value: Seq<u8>,
) -> bool {
    &&& new_local.len() == old_local.len()
    &&& forall|k: int|
        0 <= k < old_local.len() ==> (#[trigger] new_local[k])@ == if k < cs.len() {
            sweep(cs[k], value, old_local[k]@, old_local[k]@.len() as int)
        } else {
            old_local[k]@
        }
}

/// `new_local` is what rescanning `[start, end)` of `h` for `value` makes of
/// `old_local`: each chunk paired with an offset list (as many as both have)
/// is swept against bytes that the memory of `h` held at its address.
pub open spec fn rescanned<T: MemExt>(
    h: &T,
    new_local: Seq<Vec<u16>>,
    old_local: Seq<Vec<u16>>,
    start: int,
    end: int,
    value: Seq<u8>,
) -> bool {
    let plan = scan_plan(start, end);
    exists|cs: Seq<Seq<u8>>|
        {
            &&& cs.len() <= plan.len()
            &&& cs.len() <= old_local.len()
            &&& (cs.len() == old_local.len() || cs.len() == plan.len())
            &&& forall|i: int| 0 <= i < cs.len() ==> (#[trigger] cs[i]).len() == plan[i].1
            &&& held_by(h, cs, plan)
            &&& swept_in(new_local, old_local, cs, value)
        }
}

/// `new_local` is what rescanning `[start, end)` of `h` for `value` makes of
/// `old_local` when the read of a paired chunk fails: the lists of the
/// chunks before it swept against bytes that the memory of `h` held at their
/// addresses, the others unchanged.
pub open spec fn partly_rescanned<T: MemExt>(
    h: &T,
    new_local: Seq<Vec<u16>>,
    old_local: Seq<Vec<u16>>,
    start: int,
    end: int,
    value: Seq<u8>,
) -> bool {
    let plan = scan_plan(start, end);
    exists|cs: Seq<Seq<u8>>|
        {
            &&& cs.len() < plan.len()
            &&& cs.len() <= old_local.len()
            &&& forall|i: int| 0 <= i < cs.len() ==> (#[trigger] cs[i]).len() == plan[i].1
            &&& held_by(h, cs, plan)
            &&& h.refuses(plan[cs.len() as int].0, plan[cs.len() as int].1)
            &&& swept_in(new_local, old_local, cs, value)
        }
}

/// Every recorded offset leaves room for `value` inside its chunk of `plan`.
pub open spec fn offsets_fit(local: Seq<Vec<u16>>, plan: Seq<(int, int)>, value_len: int) -> bool {
    forall|k: int, j: int|
        0 <= k < local.len() && k < plan.len() && 0 <= j < local[k]@.len() ==> #[trigger] local[k]@[j]
            + value_len <= plan[k].1
}

/// Reads `[start, end)` again, chunk by chunk, alongside the offsets found
/// earlier, and drops each offset at which the chunk no longer holds
/// `value`. Chunks are paired with offset lists in order, as far as both go;
/// when offset lists run out first, one more chunk is read and ignored. A
/// failed read of a paired chunk ends the rescan with its error.
pub fn rescan_region<T: MemExt>(
    handle: &T,
    start: usize,
    end: usize,
    value: &[u8],
    vec: &mut Vec<Vec<u16>>,
) -> (r: Result<(), Error>)
    requires
        start <= end,
        offsets_fit(old(vec)@, scan_plan(start as int, end as int), value@.len() as int),
    ensures
        final(vec)@.len() == old(vec)@.len(),
        r is Ok ==> rescanned(handle, final(vec)@, old(vec)@, start as int, end as int, value@),
        r is Err ==> partly_rescanned(
            handle,
            final(vec)@,
            old(vec)@,
            start as int,
            end as int,
            value@,
        ),
{
    let ghost plan = scan_plan(start as int, end as int);
    let ghost orig = vec@;
    proof {
        lemma_chunk_plan_tiles(start as int, end as int, CHUNK_SIZE as int);
    }
    let mut chunks = Chunks::from(handle, start, end, CHUNK_SIZE);
    let n = vec.len();
    let mut k1: usize = 0;
    let ghost mut cs: Seq<Seq<u8>> = seq![];
    loop
        invariant_except_break
            chunks.pending() == plan.skip(k1 as int),
        invariant
            chunks.spec_mem() == handle,
            held_by(handle, cs, plan),
            plan == scan_plan(start as int, end as int),
            orig == old(vec)@,
            n == orig.len(),
            vec@.len() == n,
            k1 <= n,
            cs.len() == k1,
            k1 <= plan.len(),
            offsets_fit(orig, plan, value@.len() as int),
            forall|i: int| 0 <= i < cs.len() ==> (#[trigger] cs[i]).len() == plan[i].1,
            forall|k: int|
                0 <= k < n ==> (#[trigger] vec@[k])@ == if k < cs.len() {
                    sweep(cs[k], value@, orig[k]@, orig[k]@.len() as int)
                } else {
                    orig[k]@
                },
        ensures
            vec@.len() == n,
            cs.len() <= plan.len(),
            cs.len() <= n,
            cs.len() == n || cs.len() == plan.len(),
            forall|i: int| 0 <= i < cs.len() ==> (#[trigger] cs[i]).len() == plan[i].1,
            held_by(handle, cs, plan),
            forall|k: int|
                0 <= k < n ==> (#[trigger] vec@[k])@ == if k < cs.len() {
                    sweep(cs[k], value@, orig[k]@, orig[k]@.len() as int)
                } else {
                    orig[k]@
                },
        decreases n - k1,
    {
        if k1 == n {
            let _ = chunks.next();
            break;
        }
        proof {
            if k1 < plan.len() {
                assert(plan.skip(k1 as int)[0] == plan[k1 as int]);
            }
        }
        match chunks.next() {
            None => {
                break;
            },
            Some(Err(e)) => {
                assert(swept_in(vec@, orig, cs, value@));
                assert(cs.len() < plan.len() && cs.len() <= orig.len());
                assert(handle.refuses(plan[cs.len() as int].0, plan[cs.len() as int].1));
                return Err(e);
            },
            Some(Ok(mem)) => {
                proof {
                    assert(plan.skip(k1 as int)[0] == plan[k1 as int]);
                    assert(plan.skip(k1 as int).drop_first() =~= plan.skip(k1 + 1 as int));
                    let ghost cur = vec@[k1 as int]@;
                    assert forall|i: int| 0 <= i < cur.len() implies #[trigger] cur[i]
                        + value@.len() <= mem@.len() by {
                        assert(vec@[k1 as int]@ == orig[k1 as int]@);
                        assert(orig[k1 as int]@[i] + value@.len() <= plan[k1 as int].1);
                    }
                }
                let ghost before = vec@;
                rescan_chunk(mem.as_slice(), &mut vec[k1], value);
                vec_shrink_to_fit(&mut vec[k1]);
                proof {
                    cs = cs.push(mem@);
                    assert forall|k: int| 0 <= k < n implies (#[trigger] vec@[k])@ == if k
                        < cs.len() {
                        sweep(cs[k], value@, orig[k]@, orig[k]@.len() as int)
                    } else {
                        orig[k]@
                    } by {
                        if k != k1 {
                            assert(vec@[k] == before[k]);
                        }
                    }
                }
                k1 = k1 + 1;
            },
        }
    }
    assert(swept_in(vec@, orig, cs, value@));
    assert(cs.len() <= plan.len() && cs.len() <= orig.len() && (cs.len() == orig.len() || cs.len()
        == plan.len()));
    Ok(())
}

/// The length of chunk `k` of the plan by which `[start, end)` is scanned,
/// or `None` when the plan has fewer chunks.
pub fn plan_chunk_len(start: usize, end: usize, k: usize) -> (r: Option<usize>)
    requires
        start <= end,
    ensures
        match r {
            Some(l) => k < scan_plan(start as int, end as int).len() && l == scan_plan(
                start as int,
                end as int,
            )[k as int].1,
            None => k >= scan_plan(start as int, end as int).len(),
        },
{
    let size = end - start;
    if CHUNK_SIZE < size {
        let num = size / CHUNK_SIZE;
        let last = size % CHUNK_SIZE;
        if k < num {
            Some(CHUNK_SIZE)
        } else if k == num && last != 0 {
            Some(last)
        } else {
            None
        }
    } else if k == 0 {
        Some(size)
    } else {
        None
    }
}

/// Whether every offset of `local` leaves room for `len` bytes inside its
/// chunk of the plan for `[start, end)`.
pub fn offsets_fit_exec(local: &Vec<Vec<u16>>, start: usize, end: usize, len: usize) -> (r: bool)
    requires
        start <= end,
    ensures
        r == offsets_fit(local@, scan_plan(start as int, end as int), len as int),
{
    let ghost plan = scan_plan(start as int, end as int);
    let mut k: usize = 0;
    while k < local.len()
        invariant
            k <= local@.len(),
            start <= end,
            plan == scan_plan(start as int, end as int),
            forall|k2: int, j: int|
                0 <= k2 < k && k2 < plan.len() && 0 <= j < local@[k2]@.len() ==> #[trigger] local@[k2]@[j]
                    + len <= plan[k2].1,
        decreases local@.len() - k,
    {
        match plan_chunk_len(start, end, k) {
            None => {
                assert forall|k2: int, j: int|
                    0 <= k2 < local@.len() && k2 < plan.len() && 0 <= j < local@[k2]@.len() implies #[trigger] local@[k2]@[j]
                        + len <= plan[k2].1 by {}
                return true;
            },
            Some(cl) => {
                let list = &local[k];
                let mut j: usize = 0;
                while j < list.len()
                    invariant
                        plan == scan_plan(start as int, end as int),
                        k < local@.len(),
                        *list == local@[k as int],
                        k < plan.len(),
                        cl == plan[k as int].1,
                        j <= list@.len(),
                        forall|j2: int| 0 <= j2 < j ==> #[trigger] list@[j2] + len <= cl,
                    decreases list@.len() - j,
                {
                    if len > cl || list[j] as usize > cl - len {
                        assert(!(local@[k as int]@[j as int] + len <= plan[k as int].1));
                        assert(!offsets_fit(local@, plan, len as int));
                        return false;
                    }
                    j = j + 1;
                }
            },
        }
        k = k + 1;
    }
    true
}

/// The offsets found in one region, one list per chunk.
#[derive(Debug)]
pub struct RegionChunkData<'a, R: InfoExt> {
    pub info: &'a R,
    pub local: Vec<Vec<u16>>,
}

/// Number of offsets in the first `n` chunk lists of `local`.
pub open spec fn region_count(local: Seq<Vec<u16>>, n: int) -> int
    decreases n,
{
    if n <= 0 || n > local.len() {
        0
    } else {
        region_count(local, n - 1) + local[n - 1]@.len()
    }
}

/// Number of offsets in the first `n` regions of `data`.
pub open spec fn scan_count<'a, R: InfoExt>(data: Seq<RegionChunkData<'a, R>>, n: int) -> int
    decreases n,
{
    if n <= 0 || n > data.len() {
        0
    } else {
        scan_count(data, n - 1) + region_count(data[n - 1].local@, data[n - 1].local@.len() as int)
    }
}

/// Partial counts never exceed the whole count.
pub proof fn lemma_region_count_mono(local: Seq<Vec<u16>>, m: int, n: int)
    requires
        0 <= m <= n <= local.len(),
    ensures
        0 <= region_count(local, m) <= region_count(local, n),
    decreases n,
{
    if m < n {
        lemma_region_count_mono(local, m, n - 1);
    } else if n > 0 {
        lemma_region_count_mono(local, n - 1, n - 1);
    }
}

/// Partial counts never exceed the whole count.
pub proof fn lemma_scan_count_mono<'a, R: InfoExt>(data: Seq<RegionChunkData<'a, R>>, m: int, n: int)
    requires
        0 <= m <= n <= data.len(),
    ensures
        0 <= scan_count(data, m) <= scan_count(data, n),
    decreases n,
{
    if n > 0 {
        lemma_region_count_mono(data[n - 1].local@, 0, data[n - 1].local@.len() as int);
    }
    if m < n {
        lemma_scan_count_mono(data, m, n - 1);
    } else if n > 0 {
        lemma_scan_count_mono(data, n - 1, n - 1);
    }
}

/// The absolute addresses of the offsets of the first `n` chunk lists of a
/// region starting at `start`: chunk `k` begins `k * CHUNK_SIZE` bytes in.
pub open spec fn region_addrs(local: Seq<Vec<u16>>, start: int, n: int) -> Seq<int>
    decreases n,
{
    if n <= 0 || n > local.len() {
        seq![]
    } else {
        region_addrs(local, start, n - 1) + local[n - 1]@.map_values(
            |o: u16| o + start + (n - 1) * CHUNK_SIZE,
        )
    }
}

/// The absolute addresses recorded for the first `n` regions of `data`, in
/// order.
pub open spec fn scan_addrs<'a, R: InfoExt>(data: Seq<RegionChunkData<'a, R>>, n: int) -> Seq<int>
    decreases n,
{
    if n <= 0 || n > data.len() {
        seq![]
    } else {
        scan_addrs(data, n - 1) + region_addrs(
            data[n - 1].local@,
            data[n - 1].info.spec_start(),
            data[n - 1].local@.len() as int,
        )
    }
}

/// A region lists one address per recorded offset.
pub proof fn lemma_region_addrs_len(local: Seq<Vec<u16>>, start: int, n: int)
    ensures
        region_addrs(local, start, n).len() == region_count(local, n),
    decreases n,
{
    if 0 < n <= local.len() {
        lemma_region_addrs_len(local, start, n - 1);
    }
}

/// The listing of a search holds exactly as many addresses as the search
/// counts: `list` and `len` agree.
pub proof fn lemma_list_len<'a, R: InfoExt>(data: Seq<RegionChunkData<'a, R>>, n: int)
    ensures
        scan_addrs(data, n).len() == scan_count(data, n),
    decreases n,
{
    if 0 < n <= data.len() {
        lemma_list_len(data, n - 1);
        lemma_region_addrs_len(
            data[n - 1].local@,
            data[n - 1].info.spec_start(),
            data[n - 1].local@.len() as int,
        );
    }
}

proof fn lemma_region_addrs_index(local: Seq<Vec<u16>>, start: int, n: int, k: int, j: int)
    requires
        0 <= k < n <= local.len(),
        0 <= j < local[k]@.len(),
    ensures
        region_count(local, k) + j < region_count(local, n),
        region_addrs(local, start, n)[region_count(local, k) + j] == local[k]@[j] + start + k
            * CHUNK_SIZE,
    decreases n,
{
    lemma_region_addrs_len(local, start, n - 1);
    let pre = region_addrs(local, start, n - 1);
    let tail = local[n - 1]@.map_values(|o: u16| o + start + (n - 1) * CHUNK_SIZE);
    assert(region_addrs(local, start, n) == pre + tail);
    let idx = region_count(local, k) + j;
    lemma_region_count_mono(local, 0, k);
    if k < n - 1 {
        lemma_region_addrs_index(local, start, n - 1, k, j);
        assert((pre + tail)[idx] == pre[idx]);
    } else {
        assert((pre + tail)[idx] == tail[j]);
    }
}

proof fn lemma_scan_addrs_index<'a, R: InfoExt>(
    data: Seq<RegionChunkData<'a, R>>,
    n: int,
    i: int,
    t: int,
)
    requires
        0 <= i < n <= data.len(),
        0 <= t < region_count(data[i].local@, data[i].local@.len() as int),
    ensures
        scan_count(data, i) + t < scan_count(data, n),
        scan_addrs(data, n)[scan_count(data, i) + t] == region_addrs(
            data[i].local@,
            data[i].info.spec_start(),
            data[i].local@.len() as int,
        )[t],
    decreases n,
{
    lemma_list_len(data, n - 1);
    let pre = scan_addrs(data, n - 1);
    let last = data[n - 1];
    let tail = region_addrs(last.local@, last.info.spec_start(), last.local@.len() as int);
    lemma_region_addrs_len(last.local@, last.info.spec_start(), last.local@.len() as int);
    assert(scan_addrs(data, n) == pre + tail);
    let idx = scan_count(data, i) + t;
    lemma_scan_count_mono(data, 0, i);
    if i < n - 1 {
        lemma_scan_addrs_index(data, n - 1, i, t);
        assert((pre + tail)[idx] == pre[idx]);
    } else {
        assert((pre + tail)[idx] == tail[t]);
    }
}

/// Chunk `k` of the plan by which a region is read begins `k * CHUNK_SIZE`
/// bytes into the region.
proof fn lemma_scan_plan_address(start: int, end: int, k: int)
    requires
        start <= end,
        0 <= k < scan_plan(start, end).len(),
    ensures
        scan_plan(start, end)[k].0 == start + k * CHUNK_SIZE,
{
    let len = end - start;
    if !(CHUNK_SIZE < len) {
        assert(k == 0);
    }
}

/// Every address that the listing gives for a search holds the value
/// searched for: the address listed for offset `o` of chunk `k` of a region
/// is the address of that chunk in the plan the search read by, plus `o`,
/// and the bytes the memory held at the chunk's address have the value at
/// `o`.
pub proof fn lemma_listed_addresses_hold_value<'a, H: MemExt, R: InfoExt>(
    h: &H,
    data: Seq<RegionChunkData<'a, R>>,
    value: Seq<u8>,
    i: int,
    k: int,
    j: int,
)
    requires
        forall|r: int|
            0 <= r < data.len() ==> {
                let d = #[trigger] data[r];
                &&& d.info.spec_start() <= d.info.spec_end()
                &&& scanned(h, d.local@, d.info.spec_start(), d.info.spec_end(), value)
            },
        0 <= i < data.len(),
        0 <= k < data[i].local@.len(),
        0 <= j < data[i].local@[k]@.len(),
    ensures
        ({
            let p = scan_plan(data[i].info.spec_start(), data[i].info.spec_end());
            let idx = scan_count(data, i) + region_count(data[i].local@, k) + j;
            &&& 0 <= idx < scan_addrs(data, data.len() as int).len()
            &&& k < p.len()
            &&& scan_addrs(data, data.len() as int)[idx] == p[k].0 + data[i].local@[k]@[j]
            &&& exists|b: Seq<u8>| h.holds(p[k].0, b) && holds_at(b, data[i].local@[k]@[j] as int, value)
        }),
{
    let d = data[i];
    let local = d.local@;
    let start = d.info.spec_start();
    let end = d.info.spec_end();
    let p = scan_plan(start, end);
    assert(scanned(h, local, start, end, value));
    let cs = choose|cs: Seq<Seq<u8>>| fits_plan(cs, p) && held_by(h, cs, p) && found_in(local, cs, value);
    assert(k < p.len());
    lemma_region_count_mono(local, 0, k);
    lemma_scan_count_mono(data, 0, i);
    lemma_region_addrs_index(local, start, local.len() as int, k, j);
    lemma_region_addrs_len(local, start, local.len() as int);
    lemma_scan_addrs_index(data, data.len() as int, i, region_count(local, k) + j);
    lemma_list_len(data, data.len() as int);
    lemma_scan_plan_address(start, end, k);
    assert(h.holds(p[k].0, cs[k]));
    lemma_aligned_matches_hold(cs[k], value, 0);
    assert(offsets_view(local[k]@) == aligned_matches(cs[k], value, 0));
    assert(offsets_view(local[k]@)[j] == local[k]@[j] as int);
    assert(holds_at(cs[k], local[k]@[j] as int, value));
}

/// Every recorded address fits in a `usize`.
pub open spec fn addrs_fit<'a, R: InfoExt>(data: Seq<RegionChunkData<'a, R>>) -> bool {
    forall|i: int, k: int, j: int|
        0 <= i < data.len() && 0 <= k < data[i].local@.len() && 0 <= j < data[i].local@[k]@.len()
            ==> #[trigger] data[i].local@[k]@[j] + data[i].info.spec_start() + k * CHUNK_SIZE
            <= usize::MAX
}

/// A search for a byte pattern over a list of regions of one memory.
pub struct Scan<'a, H: MemExt, R: InfoExt> {
    handle: &'a H,
    region: &'a [R],
    pub data: Vec<RegionChunkData<'a, R>>,
}

impl<'a, H: MemExt, R: InfoExt> Scan<'a, H, R> {
    /// The memory searched.
    pub closed spec fn spec_handle(&self) -> &'a H {
        self.handle
    }

    /// What was found, region by region.
    pub closed spec fn spec_data(&self) -> Seq<RegionChunkData<'a, R>> {
        self.data@
    }

    /// The regions searched.
    pub closed spec fn spec_region(&self) -> Seq<R> {
        self.region@
    }

    /// A search over `region` of `handle`, with nothing found yet.
    pub fn new(handle: &'a H, region: &'a [R]) -> (r: Result<Scan<'a, H, R>, Error>)
        ensures
            r matches Ok(s) && s.spec_handle() == handle && s.spec_region() == region@
                && s.spec_data().len() == 0,
    {
        Ok(Scan { handle, region, data: Vec::new() })
    }

    /// Scans every region for `value`, replacing what was found before with
    /// one entry per region. A failed read leaves the earlier results; with
    /// no region nothing is read and the search succeeds.
    pub fn find(&mut self, value: &[u8]) -> (r: Result<(), Error>)
        requires
            value@.len() > 0,
            forall|i: int|
                0 <= i < old(self).spec_region().len() ==> (#[trigger] old(
                    self,
                ).spec_region()[i]).spec_start() <= old(self).spec_region()[i].spec_end(),
        ensures
            final(self).spec_handle() == old(self).spec_handle(),
            final(self).spec_region() == old(self).spec_region(),
            old(self).spec_region().len() == 0 ==> r is Ok,
            r is Err ==> final(self).spec_data() == old(self).spec_data(),
            r is Err ==> exists|i: int|
                0 <= i < old(self).spec_region().len() && refused_in(
                    old(self).spec_handle(),
                    (#[trigger] old(self).spec_region()[i]).spec_start(),
                    old(self).spec_region()[i].spec_end(),
                ),
            r is Ok ==> final(self).spec_data().len() == old(self).spec_region().len(),
            r is Ok ==> forall|i: int|
                0 <= i < final(self).spec_data().len() ==> {
                    let d = #[trigger] final(self).spec_data()[i];
                    let reg = old(self).spec_region()[i];
                    &&& *d.info == reg
                    &&& scanned(old(self).spec_handle(), d.local@, reg.spec_start(), reg.spec_end(), value@)
                },
    {
        let regions: &'a [R] = self.region;
        assert(regions@ == old(self).spec_region());
        let mut v: Vec<RegionChunkData<'a, R>> = Vec::new();
        let mut i: usize = 0;
        while i < regions.len()
            invariant
                regions@ == self.region@,
                value@.len() > 0,
                i <= regions@.len(),
                v@.len() == i,
                forall|j: int|
                    0 <= j < regions@.len() ==> (#[trigger] regions@[j]).spec_start()
                        <= regions@[j].spec_end(),
                forall|j: int|
                    0 <= j < i ==> {
                        let d = #[trigger] v@[j];
                        &&& *d.info == regions@[j]
                        &&& scanned(
                            self.handle,
                            d.local@,
                            regions@[j].spec_start(),
                            regions@[j].spec_end(),
                            value@,
                        )
                    },
            decreases regions@.len() - i,
        {
            let region: &'a R = &regions[i];
            let local = match scan_region(self.handle, region.start(), region.end(), value) {
                Ok(local) => local,
                Err(e) => {
                    assert(refused_in(
                        self.handle,
                        regions@[i as int].spec_start(),
                        regions@[i as int].spec_end(),
                    ));
                    return Err(e);
                },
            };
            v.push(RegionChunkData { info: region, local });
            i = i + 1;
        }
        self.data = v;
        Ok(())
    }

    /// Rescans every region found before for `value`, keeping only the
    /// offsets that still hold it. A failed read stops the rescan there.
    pub fn refind(&mut self, value: &[u8]) -> (r: Result<(), Error>)
        requires
            forall|i: int|
                0 <= i < old(self).spec_data().len() ==> {
                    let d = #[trigger] old(self).spec_data()[i];
                    &&& d.info.spec_start() <= d.info.spec_end()
                    &&& offsets_fit(
                        d.local@,
                        scan_plan(d.info.spec_start(), d.info.spec_end()),
                        value@.len() as int,
                    )
                },
        ensures
            final(self).spec_handle() == old(self).spec_handle(),
            final(self).spec_region() == old(self).spec_region(),
            final(self).spec_data().len() == old(self).spec_data().len(),
            forall|i: int|
                0 <= i < final(self).spec_data().len() ==> (#[trigger] final(self).spec_data()[i]).info == old(
                    self,
                ).spec_data()[i].info,
            r is Ok ==> forall|i: int|
                0 <= i < final(self).spec_data().len() ==> {
                    let d = #[trigger] final(self).spec_data()[i];
                    let e = old(self).spec_data()[i];
                    rescanned(
                        old(self).spec_handle(),
                        d.local@,
                        e.local@,
                        e.info.spec_start(),
                        e.info.spec_end(),
                        value@,
                    )
                },
            r is Err ==> exists|f: int|
                #![trigger partly_rescanned(old(self).spec_handle(), final(self).spec_data()[f].local@, old(self).spec_data()[f].local@, old(self).spec_data()[f].info.spec_start(), old(self).spec_data()[f].info.spec_end(), value@)]
                {
                    &&& 0 <= f < old(self).spec_data().len()
                    &&& forall|i: int|
                        0 <= i < f ==> {
                            let d = #[trigger] final(self).spec_data()[i];
                            let e = old(self).spec_data()[i];
                            rescanned(
                                old(self).spec_handle(),
                                d.local@,
                                e.local@,
                                e.info.spec_start(),
                                e.info.spec_end(),
                                value@,
                            )
                        }
                    &&& partly_rescanned(
                        old(self).spec_handle(),
                        final(self).spec_data()[f].local@,
                        old(self).spec_data()[f].local@,
                        old(self).spec_data()[f].info.spec_start(),
                        old(self).spec_data()[f].info.spec_end(),
                        value@,
                    )
                    &&& forall|i: int|
                        f < i < old(self).spec_data().len() ==> (#[trigger] final(self).spec_data()[i])
                            == old(self).spec_data()[i]
                },
    {
        let n = self.data.len();
        let mut i: usize = 0;
        while i < n
            invariant
                n == self.spec_data().len(),
                n == old(self).spec_data().len(),
                i <= n,
                self.handle == old(self).handle,
                self.region == old(self).region,
                forall|j: int|
                    0 <= j < n ==> (#[trigger] self.spec_data()[j]).info == old(self).spec_data()[j].info,
                forall|j: int| i <= j < n ==> (#[trigger] self.spec_data()[j]) == old(self).spec_data()[j],
                forall|j: int|
                    0 <= j < old(self).spec_data().len() ==> {
                        let d = #[trigger] old(self).spec_data()[j];
                        &&& d.info.spec_start() <= d.info.spec_end()
                        &&& offsets_fit(
                            d.local@,
                            scan_plan(d.info.spec_start(), d.info.spec_end()),
                            value@.len() as int,
                        )
                    },
                forall|j: int|
                    0 <= j < i ==> {
                        let d = #[trigger] self.spec_data()[j];
                        let e = old(self).spec_data()[j];
                        rescanned(
                            self.handle,
                            d.local@,
                            e.local@,
                            e.info.spec_start(),
                            e.info.spec_end(),
                            value@,
                        )
                    },
            decreases n - i,
        {
            let start = self.data[i].info.start();
            let end = self.data[i].info.end();
            let ghost before = self.spec_data();
            let res = rescan_region(self.handle, start, end, value, &mut self.data[i].local);
            proof {
                assert forall|j: int| 0 <= j < n && j != i implies (#[trigger] self.spec_data()[j])
                    == before[j] by {}
            }
            if res.is_err() {
                assert(self.handle == old(self).spec_handle());
                assert(forall|j: int|
                    0 <= j < i ==> {
                        let d = #[trigger] self.spec_data()[j];
                        let e = old(self).spec_data()[j];
                        rescanned(
                            old(self).spec_handle(),
                            d.local@,
                            e.local@,
                            e.info.spec_start(),
                            e.info.spec_end(),
                            value@,
                        )
                    });
                assert(partly_rescanned(
                    self.handle,
                    self.spec_data()[i as int].local@,
                    old(self).spec_data()[i as int].local@,
                    old(self).spec_data()[i as int].info.spec_start(),
                    old(self).spec_data()[i as int].info.spec_end(),
                    value@,
                ));
                return res;
            }
            proof {
                assert forall|j: int| 0 <= j < n && j != i implies (#[trigger] self.spec_data()[j])
                    == before[j] by {}
            }
            i = i + 1;
        }
        Ok(())
    }

    /// Whether a rescan for a value of `len` bytes stays inside the chunks:
    /// every region has ordered bounds and every offset leaves room for
    /// `len` bytes in its chunk.
    pub fn refind_fits(&self, len: usize) -> (r: bool)
        ensures
            r == forall|i: int|
                0 <= i < self.spec_data().len() ==> {
                    let d = #[trigger] self.spec_data()[i];
                    &&& d.info.spec_start() <= d.info.spec_end()
                    &&& offsets_fit(
                        d.local@,
                        scan_plan(d.info.spec_start(), d.info.spec_end()),
                        len as int,
                    )
                },
    {
        let mut i: usize = 0;
        while i < self.data.len()
            invariant
                i <= self.data@.len(),
                forall|t: int|
                    0 <= t < i ==> {
                        let d = #[trigger] self.data@[t];
                        &&& d.info.spec_start() <= d.info.spec_end()
                        &&& offsets_fit(
                            d.local@,
                            scan_plan(d.info.spec_start(), d.info.spec_end()),
                            len as int,
                        )
                    },
            decreases self.data@.len() - i,
        {
            let start = self.data[i].info.start();
            let end = self.data[i].info.end();
            assert(self.spec_data()[i as int] == self.data@[i as int]);
            if start > end {
                return false;
            }
            if !offsets_fit_exec(&self.data[i].local, start, end, len) {
                return false;
            }
            i = i + 1;
        }
        true
    }

    /// Number of offsets recorded over all regions.
    pub fn len(&self) -> (r: usize)
        requires
            scan_count(self.spec_data(), self.spec_data().len() as int) <= usize::MAX,
        ensures
            r == scan_count(self.spec_data(), self.spec_data().len() as int),
    {
        let n = self.data.len();
        let mut total: usize = 0;
        let mut i: usize = 0;
        while i < n
            invariant
                n == self.spec_data().len(),
                i <= n,
                total == scan_count(self.spec_data(), i as int),
                scan_count(self.spec_data(), n as int) <= usize::MAX,
            decreases n - i,
        {
            let local = &self.data[i].local;
            let m = local.len();
            let mut sub: usize = 0;
            let mut k: usize = 0;
            proof {
                lemma_scan_count_mono(self.spec_data(), i + 1, n as int);
                lemma_region_count_mono(local@, 0, m as int);
            }
            while k < m
                invariant
                    m == local@.len(),
                    k <= m,
                    sub == region_count(local@, k as int),
                    total + region_count(local@, m as int) <= usize::MAX,
                    total == scan_count(self.spec_data(), i as int),
                decreases m - k,
            {
                proof {
                    lemma_region_count_mono(local@, k + 1, m as int);
                }
                sub = sub + local[k].len();
                k = k + 1;
            }
            total = total + sub;
            i = i + 1;
        }
        total
    }

    /// Whether no offset is recorded.
    pub fn is_empty(&self) -> (r: bool)
        requires
            scan_count(self.spec_data(), self.spec_data().len() as int) <= usize::MAX,
        ensures
            r == (scan_count(self.spec_data(), self.spec_data().len() as int) == 0),
    {
        self.len() == 0
    }

    /// The absolute addresses of all recorded offsets, region by region and
    /// chunk by chunk.
    pub fn list(&self) -> (r: Vec<usize>)
        requires
            addrs_fit(self.spec_data()),
        ensures
            r@.map_values(|a: usize| a as int) == scan_addrs(self.spec_data(), self.spec_data().len() as int),
    {
        let n = self.data.len();
        let mut out: Vec<usize> = Vec::new();
        let mut i: usize = 0;
        while i < n
            invariant
                n == self.spec_data().len(),
                i <= n,
                addrs_fit(self.spec_data()),
                out@.map_values(|a: usize| a as int) == scan_addrs(self.spec_data(), i as int),
            decreases n - i,
        {
            let d = &self.data[i];
            let start = d.info.start();
            let m = d.local.len();
            let mut k: usize = 0;
            let ghost base = out@.map_values(|a: usize| a as int);
            while k < m
                invariant
                    n == self.spec_data().len(),
                    i < n,
                    *d == self.spec_data()[i as int],
                    start == d.info.spec_start(),
                    m == d.local@.len(),
                    k <= m,
                    addrs_fit(self.spec_data()),
                    base == scan_addrs(self.spec_data(), i as int),
                    out@.map_values(|a: usize| a as int) == base + region_addrs(
                        d.local@,
                        start as int,
                        k as int,
                    ),
                decreases m - k,
            {
                let offs = &d.local[k];
                let c = offs.len();
                let mut j: usize = 0;
                let ghost pre = out@.map_values(|a: usize| a as int);
                while j < c
                    invariant
                        n == self.spec_data().len(),
                        i < n,
                        *d == self.spec_data()[i as int],
                        start == d.info.spec_start(),
                        m == d.local@.len(),
                        k < m,
                        *offs == d.local@[k as int],
                        c == offs@.len(),
                        j <= c,
                        addrs_fit(self.spec_data()),
                        out@.map_values(|a: usize| a as int) == pre + offs@.take(j as int).map_values(
                            |o: u16| o + start + k * CHUNK_SIZE,
                        ),
                    decreases c - j,
                {
                    proof {
                        assert(self.spec_data()[i as int].local@[k as int]@[j as int] + self.spec_data()[i as int].info.spec_start()
                            + k * CHUNK_SIZE <= usize::MAX);
                    }
                    let a = offs[j] as usize + start + k * CHUNK_SIZE;
                    let ghost prev = out@;
                    out.push(a);
                    proof {
                        assert(offs@.take(j + 1 as int) =~= offs@.take(j as int).push(offs@[j as int]));
                        assert(out@.map_values(|a: usize| a as int) =~= prev.map_values(|a: usize| a as int).push(a as int));
                        assert(offs@.take(j + 1 as int).map_values(|o: u16| o + start + k * CHUNK_SIZE)
                            =~= offs@.take(j as int).map_values(|o: u16| o + start + k * CHUNK_SIZE).push(a as int));
                    }
                    j = j + 1;
                }
                proof {
                    assert(offs@.take(c as int) =~= offs@);
                    assert(base + region_addrs(d.local@, start as int, k + 1 as int) =~= base + region_addrs(d.local@, start as int, k as int) + offs@.map_values(|o: u16| o + start + k * CHUNK_SIZE));
                }
                k = k + 1;
            }
            i = i + 1;
        }
        out
    }
}

} // verus!
