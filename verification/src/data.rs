//! A list of addresses stored in the narrowest element type that holds it:
//! either plainly, or as 16- or 32-bit offsets from a base address.

use vstd::prelude::*;

verus! {

/// A list of addresses. The `Orig` layout holds them as they are; the offset
/// layouts hold `base + offset`; `Small` and `Big` hold addresses that fit in
/// 16 or 32 bits.
#[derive(Debug)]
#[allow(inconsistent_fields)]
pub enum VecMinValue {
    Orig { vec: Vec<usize> },
    SmallOffset { base: usize, offsets: Vec<u16> },
    BigOffset { base: usize, offsets: Vec<u32> },
    Small { vec: Vec<u16> },
    Big { vec: Vec<u32> },
}

/// The elements of `s` whose flag in `keep` is set, in order.
pub open spec fn select(s: Seq<int>, keep: Seq<bool>) -> Seq<int>
    decreases s.len(),
{
    if s.len() == 0 || keep.len() == 0 {
        seq![]
    } else if keep.last() {
        select(s.drop_last(), keep.drop_last()).push(s.last())
    } else {
        select(s.drop_last(), keep.drop_last())
    }
}

proof fn lemma_select_push(s: Seq<int>, keep: Seq<bool>)
    requires
        s.len() == keep.len(),
        s.len() > 0,
    ensures
        select(s, keep) == if keep.last() {
            select(s.drop_last(), keep.drop_last()).push(s.last())
        } else {
            select(s.drop_last(), keep.drop_last())
        },
{
}

/// The address `x` can be stored in the layout chosen for a list from `low`
/// to `high`: as an offset from `low` of 16 or 32 bits, as a 16- or 32-bit
/// value, or plainly.
pub open spec fn fits_layout(low: int, high: int, x: int) -> bool {
    if high - low <= u16_max() && high >= u16_max() {
        low <= x <= low + u16_max()
    } else if high <= u16_max() {
        x <= u16_max()
    } else if high - low <= u32_max() && high >= u32_max() {
        low <= x <= low + u32_max()
    } else if high <= u32_max() {
        x <= u32_max()
    } else {
        true
    }
}

/// The smallest address that does not fit in 16 bits, less one.
pub open spec fn u16_max() -> int {
    0xffff
}

/// The smallest address that does not fit in 32 bits, less one.
pub open spec fn u32_max() -> int {
    0xffff_ffff
}

impl View for VecMinValue {
    type V = Seq<int>;

    /// The addresses, in order.
    open spec fn view(&self) -> Seq<int> {
        match self {
            VecMinValue::Orig { vec } => vec@.map_values(|x: usize| x as int),
            VecMinValue::SmallOffset { base, offsets } => offsets@.map_values(
                |x: u16| *base as int + x as int,
            ),
            VecMinValue::BigOffset { base, offsets } => offsets@.map_values(
                |x: u32| *base as int + x as int,
            ),
            VecMinValue::Small { vec } => vec@.map_values(|x: u16| x as int),
            VecMinValue::Big { vec } => vec@.map_values(|x: u32| x as int),
        }
    }
}

impl VecMinValue {
    /// The layout of the list and its base address, if it has one.
    pub open spec fn layout(&self) -> (int, int) {
        match self {
            VecMinValue::Orig { .. } => (0, 0),
            VecMinValue::SmallOffset { base, .. } => (1, *base as int),
            VecMinValue::BigOffset { base, .. } => (2, *base as int),
            VecMinValue::Small { .. } => (3, 0),
            VecMinValue::Big { .. } => (4, 0),
        }
    }

    /// Every stored address fits in a `usize`.
    pub open spec fn wf(&self) -> bool {
        forall|i: int| 0 <= i < self@.len() ==> #[trigger] self@[i] <= usize::MAX
    }

    /// The condition under which `compact` succeeds: an `Orig` list of two
    /// or more addresses has its last address no lower than its first, and
    /// every address can be stored in the layout that its first and last
    /// choose.
    pub open spec fn compactable(&self) -> bool {
        self matches VecMinValue::Orig { vec } ==> (vec@.len() >= 2 ==> {
            &&& vec@[0] <= vec@.last()
            &&& forall|i: int|
                0 <= i < vec@.len() ==> fits_layout(vec@[0] as int, vec@.last() as int, #[trigger] vec@[i] as int)
        })
    }

    /// Re-stores an `Orig` list of two or more addresses in the narrowest
    /// layout: 16-bit offsets if its span fits in 16 bits and its last address
    /// does not, 16-bit values if its last address fits, then the same with
    /// 32 bits, and plainly otherwise. Other lists are left as they are.
    pub fn compact(&mut self)
        requires
            old(self).compactable(),
        ensures
            final(self)@ == old(self)@,
            (*old(self)) is Orig ==> final(self).wf(),
            match *old(self) {
                VecMinValue::Orig { vec } => if vec@.len() >= 2 {
                    let low = vec@[0] as int;
                    let high = vec@.last() as int;
                    if high - low <= u16_max() && high >= u16_max() {
                        (*final(self)) matches VecMinValue::SmallOffset { base, .. } && base == low
                    } else if high <= u16_max() {
                        (*final(self)) is Small
                    } else if high - low <= u32_max() && high >= u32_max() {
                        (*final(self)) matches VecMinValue::BigOffset { base, .. } && base == low
                    } else if high <= u32_max() {
                        (*final(self)) is Big
                    } else {
                        (*final(self)) is Orig
                    }
                } else {
                    *final(self) == *old(self)
                },
                _ => *final(self) == *old(self),
            },
    {
        let replacement = match &*self {
            VecMinValue::Orig { vec } => {
                if vec.len() >= 2 {
                    compact_vec(vec)
                } else {
                    None
                }
            },
            _ => None,
        };
        match replacement {
            Some(n) => {
                *self = n;
            },
            None => {},
        }
    }

    /// Number of addresses.
    pub fn len(&self) -> (r: usize)
        ensures
            r == self@.len(),
    {
        match self {
            VecMinValue::Orig { vec } => vec.len(),
            VecMinValue::SmallOffset { offsets, .. } => offsets.len(),
            VecMinValue::BigOffset { offsets, .. } => offsets.len(),
            VecMinValue::Small { vec } => vec.len(),
            VecMinValue::Big { vec } => vec.len(),
        }
    }

    /// Removes the address at `index`, keeping the order of the others.
    pub fn remove(&mut self, index: usize)
        requires
            index < old(self)@.len(),
        ensures
            final(self)@ == old(self)@.remove(index as int),
            final(self).layout() == old(self).layout(),
    {
        match self {
            VecMinValue::Orig { vec } => {
                let ghost v0 = vec@;
                vec.remove(index);
                assert(vec@.map_values(|x: usize| x as int) =~= v0.map_values(|x: usize| x as int).remove(index as int));
            },
            VecMinValue::SmallOffset { base, offsets } => {
                let ghost v0 = offsets@;
                let ghost b = *base as int;
                offsets.remove(index);
                assert(offsets@.map_values(|x: u16| b + x as int) =~= v0.map_values(|x: u16| b + x as int).remove(index as int));
            },
            VecMinValue::BigOffset { base, offsets } => {
                let ghost v0 = offsets@;
                let ghost b = *base as int;
                offsets.remove(index);
                assert(offsets@.map_values(|x: u32| b + x as int) =~= v0.map_values(|x: u32| b + x as int).remove(index as int));
            },
            VecMinValue::Small { vec } => {
                let ghost v0 = vec@;
                vec.remove(index);
                assert(vec@.map_values(|x: u16| x as int) =~= v0.map_values(|x: u16| x as int).remove(index as int));
            },
            VecMinValue::Big { vec } => {
                let ghost v0 = vec@;
                vec.remove(index);
                assert(vec@.map_values(|x: u32| x as int) =~= v0.map_values(|x: u32| x as int).remove(index as int));
            },
        }
    }

    /// Removes the address at `index`, moving the last address into its place.
    pub fn swap_remove(&mut self, index: usize)
        requires
            index < old(self)@.len(),
        ensures
            final(self)@ == old(self)@.update(index as int, old(self)@.last()).drop_last(),
            final(self).layout() == old(self).layout(),
    {
        match self {
            VecMinValue::Orig { vec } => {
                let ghost v0 = vec@;
                vec.swap_remove(index);
                assert(vec@.map_values(|x: usize| x as int) =~= v0.map_values(|x: usize| x as int).update(index as int, v0.map_values(|x: usize| x as int).last()).drop_last());
            },
            VecMinValue::SmallOffset { base, offsets } => {
                let ghost v0 = offsets@;
                let ghost b = *base as int;
                offsets.swap_remove(index);
                assert(offsets@.map_values(|x: u16| b + x as int) =~= v0.map_values(|x: u16| b + x as int).update(index as int, v0.map_values(|x: u16| b + x as int).last()).drop_last());
            },
            VecMinValue::BigOffset { base, offsets } => {
                let ghost v0 = offsets@;
                let ghost b = *base as int;
                offsets.swap_remove(index);
                assert(offsets@.map_values(|x: u32| b + x as int) =~= v0.map_values(|x: u32| b + x as int).update(index as int, v0.map_values(|x: u32| b + x as int).last()).drop_last());
            },
            VecMinValue::Small { vec } => {
                let ghost v0 = vec@;
                vec.swap_remove(index);
                assert(vec@.map_values(|x: u16| x as int) =~= v0.map_values(|x: u16| x as int).update(index as int, v0.map_values(|x: u16| x as int).last()).drop_last());
            },
            VecMinValue::Big { vec } => {
                let ghost v0 = vec@;
                vec.swap_remove(index);
                assert(vec@.map_values(|x: u32| x as int) =~= v0.map_values(|x: u32| x as int).update(index as int, v0.map_values(|x: u32| x as int).last()).drop_last());
            },
        }
    }

    /// The address at `index`, if there is one.
    pub fn get(&self, index: usize) -> (r: Option<usize>)
        requires
            self.wf(),
        ensures
            index < self@.len() ==> r == Some(self@[index as int] as usize),
            index >= self@.len() ==> r is None,
    {
        if index >= self.len() {
            return None;
        }
        assert(self@[index as int] <= usize::MAX);
        match self {
            VecMinValue::Orig { vec } => Some(vec[index]),
            VecMinValue::SmallOffset { base, offsets } => Some(offsets[index] as usize + *base),
            VecMinValue::BigOffset { base, offsets } => Some(offsets[index] as usize + *base),
            VecMinValue::Small { vec } => Some(vec[index] as usize),
            VecMinValue::Big { vec } => Some(vec[index] as usize),
        }
    }

    /// Whether the list holds no address.
    pub fn is_empty(&self) -> (r: bool)
        ensures
            r == (self@.len() == 0),
    {
        self.len() == 0
    }

    /// Releases spare capacity; the addresses stay the same.
    pub fn shrink_to_fit(&mut self)
        ensures
            final(self)@ == old(self)@,
            final(self).layout() == old(self).layout(),
    {
        match self {
            VecMinValue::Orig { vec } => vec_shrink_to_fit(vec),
            VecMinValue::SmallOffset { offsets, .. } => vec_shrink_to_fit(offsets),
            VecMinValue::BigOffset { offsets, .. } => vec_shrink_to_fit(offsets),
            VecMinValue::Small { vec } => vec_shrink_to_fit(vec),
            VecMinValue::Big { vec } => vec_shrink_to_fit(vec),
        }
    }

    /// Keeps the addresses `a` for which `f(&a)` holds, in order; the layout
    /// and base stay the same.
    pub fn retain<F: Fn(&usize) -> bool>(&mut self, f: F)
        requires
            old(self).wf(),
            forall|x: usize| f.requires((&x,)),
        ensures
            final(self).layout() == old(self).layout(),
            exists|keep: Seq<bool>|
                {
                    &&& keep.len() == old(self)@.len()
                    &&& (forall|i: int|
                        0 <= i < old(self)@.len() ==> f.ensures(
                            (&(old(self)@[i] as usize),),
                            #[trigger] keep[i],
                        ))
                    &&& final(self)@ == select(old(self)@, keep)
                },
    {
        let ghost old_view = self@;
        match self {
            VecMinValue::Orig { vec } => {
                let ghost v0 = vec@;
                let (out, keep) = retain_usize(vec, 0, &f);
                assert(v0.map_values(|x: usize| 0int + x as int) =~= v0.map_values(|x: usize| x as int));
                assert(out@.map_values(|x: usize| 0int + x as int) =~= out@.map_values(|x: usize| x as int));
                *vec = out;
                assert(forall|i: int| 0 <= i < old_view.len() ==> (0 + v0[i]) as usize == old_view[i] as usize);
            },
            VecMinValue::SmallOffset { base, offsets } => {
                assert forall|i: int| 0 <= i < offsets@.len() implies *base + offsets@[i] <= usize::MAX by {
                    assert(old_view[i] == *base + offsets@[i]);
                }
                let (out, keep) = retain_u16(offsets, *base, &f);
                *offsets = out;
            },
            VecMinValue::BigOffset { base, offsets } => {
                assert forall|i: int| 0 <= i < offsets@.len() implies *base + offsets@[i] <= usize::MAX by {
                    assert(old_view[i] == *base + offsets@[i]);
                }
                let (out, keep) = retain_u32(offsets, *base, &f);
                *offsets = out;
            },
            VecMinValue::Small { vec } => {
                let ghost v0 = vec@;
                let (out, keep) = retain_u16(vec, 0, &f);
                assert(v0.map_values(|x: u16| 0int + x as int) =~= v0.map_values(|x: u16| x as int));
                assert(out@.map_values(|x: u16| 0int + x as int) =~= out@.map_values(|x: u16| x as int));
                *vec = out;
            },
            VecMinValue::Big { vec } => {
                let ghost v0 = vec@;
                let (out, keep) = retain_u32(vec, 0, &f);
                assert(v0.map_values(|x: u32| 0int + x as int) =~= v0.map_values(|x: u32| x as int));
                assert(out@.map_values(|x: u32| 0int + x as int) =~= out@.map_values(|x: u32| x as int));
                *vec = out;
            },
        }
    }

    /// The addresses, in order.
    pub fn iter(&self) -> (r: Vec<usize>)
        requires
            self.wf(),
        ensures
            r@.map_values(|x: usize| x as int) == self@,
    {
        let n = self.len();
        let mut out: Vec<usize> = Vec::new();
        let mut i: usize = 0;
        while i < n
            invariant
                n == self@.len(),
                i <= n,
                self.wf(),
                out@.map_values(|x: usize| x as int) == self@.take(i as int),
            decreases n - i,
        {
            let a = match self.get(i) {
                Some(a) => a,
                None => 0,
            };
            let ghost prev = out@;
            out.push(a);
            assert(out@ =~= prev.push(a));
            assert(out@.map_values(|x: usize| x as int) =~= prev.map_values(|x: usize| x as int).push(a as int));
            assert(self@.take(i + 1) =~= self@.take(i as int).push(self@[i as int]));
            i = i + 1;
        }
        assert(self@.take(n as int) =~= self@);
        out
    }
}

impl Default for VecMinValue {
    fn default() -> (r: Self)
        ensures
            r@.len() == 0,
            r is Orig,
    {
        VecMinValue::Orig { vec: Vec::new() }
    }
}

/// Releases the spare capacity of `v`; its elements are unchanged
/// (`Vec::shrink_to_fit`).
#[verifier::external_body]
pub(crate) fn vec_shrink_to_fit<T>(v: &mut Vec<T>)
    ensures
        final(v)@ == old(v)@,
{
    v.shrink_to_fit()
}

/// The narrowest layout for a list of two or more addresses that fit the
/// layout its first and last choose, or `None` when the plain layout is the
/// narrowest.
fn compact_vec(vec: &Vec<usize>) -> (r: Option<VecMinValue>)
    requires
        vec@.len() >= 2,
        vec@[0] <= vec@.last(),
        forall|i: int|
            0 <= i < vec@.len() ==> fits_layout(vec@[0] as int, vec@.last() as int, #[trigger] vec@[i] as int),
    ensures
        match r {
            Some(n) => n@ == vec@.map_values(|x: usize| x as int) && n.wf(),
            None => true,
        },
        ({
            let low = vec@[0] as int;
            let high = vec@.last() as int;
            if high - low <= u16_max() && high >= u16_max() {
                r matches Some(VecMinValue::SmallOffset { base, .. }) && base == low
            } else if high <= u16_max() {
                r matches Some(VecMinValue::Small { .. })
            } else if high - low <= u32_max() && high >= u32_max() {
                r matches Some(VecMinValue::BigOffset { base, .. }) && base == low
            } else if high <= u32_max() {
                r matches Some(VecMinValue::Big { .. })
            } else {
                r is None
            }
        }),
{
    let low = vec[0];
    let high = vec[vec.len() - 1];
    let size = high - low;
    if size <= 0xffff && high >= 0xffff {
        let mut offsets: Vec<u16> = Vec::new();
        let mut i: usize = 0;
        while i < vec.len()
            invariant
                i <= vec@.len(),
                low == vec@[0],
                high == vec@.last(),
                high - low <= 0xffff,
                high >= 0xffff,
                low <= high,
                forall|j: int|
                    0 <= j < vec@.len() ==> fits_layout(vec@[0] as int, vec@.last() as int, #[trigger] vec@[j] as int),
                offsets@.map_values(|x: u16| low as int + x as int) == vec@.map_values(|x: usize| x as int).take(i as int),
            decreases vec@.len() - i,
        {
            let loc = vec[i];
            let ghost prev = offsets@;
            assert(fits_layout(vec@[0] as int, vec@.last() as int, vec@[i as int] as int));
            offsets.push((loc - low) as u16);
            assert(offsets@ =~= prev.push((loc - low) as u16));
            assert(offsets@.map_values(|x: u16| low as int + x as int) =~= prev.map_values(|x: u16| low as int + x as int).push(loc as int));
            assert(vec@.map_values(|x: usize| x as int).take(i + 1) =~= vec@.map_values(|x: usize| x as int).take(i as int).push(loc as int));
            i = i + 1;
        }
        assert(vec@.map_values(|x: usize| x as int).take(i as int) =~= vec@.map_values(|x: usize| x as int));
        return Some(VecMinValue::SmallOffset { base: low, offsets });
    }
    if high <= 0xffff {
        let mut out: Vec<u16> = Vec::new();
        let mut i: usize = 0;
        while i < vec.len()
            invariant
                i <= vec@.len(),
                high == vec@.last(),
                low == vec@[0],
                low <= high,
                high <= 0xffff,
                !(high - low <= 0xffff && high >= 0xffff),
                forall|j: int|
                    0 <= j < vec@.len() ==> fits_layout(vec@[0] as int, vec@.last() as int, #[trigger] vec@[j] as int),
                out@.map_values(|x: u16| x as int) == vec@.map_values(|x: usize| x as int).take(i as int),
            decreases vec@.len() - i,
        {
            let v = vec[i];
            let ghost prev = out@;
            assert(fits_layout(vec@[0] as int, vec@.last() as int, vec@[i as int] as int));
            out.push(v as u16);
            assert(out@ =~= prev.push(v as u16));
            assert(out@.map_values(|x: u16| x as int) =~= prev.map_values(|x: u16| x as int).push(v as int));
            assert(vec@.map_values(|x: usize| x as int).take(i + 1) =~= vec@.map_values(|x: usize| x as int).take(i as int).push(v as int));
            i = i + 1;
        }
        assert(vec@.map_values(|x: usize| x as int).take(i as int) =~= vec@.map_values(|x: usize| x as int));
        return Some(VecMinValue::Small { vec: out });
    }
    if size <= 0xffff_ffff && high >= 0xffff_ffff {
        let mut offsets: Vec<u32> = Vec::new();
        let mut i: usize = 0;
        while i < vec.len()
            invariant
                i <= vec@.len(),
                low == vec@[0],
                high == vec@.last(),
                high - low <= 0xffff_ffff,
                high >= 0xffff_ffff,
                low <= high,
                !(high - low <= 0xffff && high >= 0xffff),
                !(high <= 0xffff),
                forall|j: int|
                    0 <= j < vec@.len() ==> fits_layout(vec@[0] as int, vec@.last() as int, #[trigger] vec@[j] as int),
                offsets@.map_values(|x: u32| low as int + x as int) == vec@.map_values(|x: usize| x as int).take(i as int),
            decreases vec@.len() - i,
        {
            let loc = vec[i];
            let ghost prev = offsets@;
            assert(fits_layout(vec@[0] as int, vec@.last() as int, vec@[i as int] as int));
            offsets.push((loc - low) as u32);
            assert(offsets@ =~= prev.push((loc - low) as u32));
            assert(offsets@.map_values(|x: u32| low as int + x as int) =~= prev.map_values(|x: u32| low as int + x as int).push(loc as int));
            assert(vec@.map_values(|x: usize| x as int).take(i + 1) =~= vec@.map_values(|x: usize| x as int).take(i as int).push(loc as int));
            i = i + 1;
        }
        assert(vec@.map_values(|x: usize| x as int).take(i as int) =~= vec@.map_values(|x: usize| x as int));
        return Some(VecMinValue::BigOffset { base: low, offsets });
    }
    if high <= 0xffff_ffff {
        let mut out: Vec<u32> = Vec::new();
        let mut i: usize = 0;
        while i < vec.len()
            invariant
                i <= vec@.len(),
                high == vec@.last(),
                low == vec@[0],
                low <= high,
                high <= 0xffff_ffff,
                !(high - low <= 0xffff && high >= 0xffff),
                !(high <= 0xffff),
                !(high - low <= 0xffff_ffff && high >= 0xffff_ffff),
                forall|j: int|
                    0 <= j < vec@.len() ==> fits_layout(vec@[0] as int, vec@.last() as int, #[trigger] vec@[j] as int),
                out@.map_values(|x: u32| x as int) == vec@.map_values(|x: usize| x as int).take(i as int),
            decreases vec@.len() - i,
        {
            let v = vec[i];
            let ghost prev = out@;
            assert(fits_layout(vec@[0] as int, vec@.last() as int, vec@[i as int] as int));
            out.push(v as u32);
            assert(out@ =~= prev.push(v as u32));
            assert(out@.map_values(|x: u32| x as int) =~= prev.map_values(|x: u32| x as int).push(v as int));
            assert(vec@.map_values(|x: usize| x as int).take(i + 1) =~= vec@.map_values(|x: usize| x as int).take(i as int).push(v as int));
            i = i + 1;
        }
        assert(vec@.map_values(|x: usize| x as int).take(i as int) =~= vec@.map_values(|x: usize| x as int));
        return Some(VecMinValue::Big { vec: out });
    }
    None
}

/// The elements `x` of `v` for which `f(&(base + x))` holds, in order.
fn retain_usize<F: Fn(&usize) -> bool>(v: &Vec<usize>, base: usize, f: &F) -> (r: (Vec<usize>, Ghost<Seq<bool>>))
    requires
        forall|x: usize| f.requires((&x,)),
        forall|i: int| 0 <= i < v@.len() ==> base + v@[i] <= usize::MAX,
    ensures
        r.1@.len() == v@.len(),
        forall|i: int| 0 <= i < v@.len() ==> f.ensures((&((base + v@[i]) as usize),), #[trigger] r.1@[i]),
        r.0@.map_values(|x: usize| base as int + x as int) == select(v@.map_values(|x: usize| base as int + x as int), r.1@),
{
    let mut out: Vec<usize> = Vec::new();
    let ghost mut keep: Seq<bool> = seq![];
    let mut i: usize = 0;
    while i < v.len()
        invariant
            i <= v@.len(),
            keep.len() == i,
            forall|x: usize| f.requires((&x,)),
            forall|j: int| 0 <= j < v@.len() ==> base + v@[j] <= usize::MAX,
            forall|j: int| 0 <= j < i ==> f.ensures((&((base + v@[j]) as usize),), #[trigger] keep[j]),
            out@.map_values(|x: usize| base as int + x as int) == select(
                v@.map_values(|x: usize| base as int + x as int).take(i as int),
                keep,
            ),
        decreases v@.len() - i,
    {
        let e = v[i];
        let value: usize = e as usize + base;
        let k = f(&value);
        let ghost src = v@.map_values(|x: usize| base as int + x as int);
        let ghost prev = out@;
        if k {
            out.push(e);
        }
        proof {
            let nk = keep.push(k);
            assert(src.take(i + 1).drop_last() =~= src.take(i as int));
            assert(nk.drop_last() =~= keep);
            lemma_select_push(src.take(i + 1), nk);
            if k {
                assert(out@.map_values(|x: usize| base as int + x as int) =~= prev.map_values(
                    |x: usize| base as int + x as int,
                ).push(base as int + e as int));
            } else {
                assert(out@.map_values(|x: usize| base as int + x as int) =~= prev.map_values(
                    |x: usize| base as int + x as int,
                ));
            }
            keep = nk;
        }
        i = i + 1;
    }
    assert(v@.map_values(|x: usize| base as int + x as int).take(i as int) =~= v@.map_values(
        |x: usize| base as int + x as int,
    ));
    (out, Ghost(keep))
}

/// The elements `x` of `v` for which `f(&(base + x))` holds, in order.
fn retain_u16<F: Fn(&usize) -> bool>(v: &Vec<u16>, base: usize, f: &F) -> (r: (Vec<u16>, Ghost<Seq<bool>>))
    requires
        forall|x: usize| f.requires((&x,)),
        forall|i: int| 0 <= i < v@.len() ==> base + v@[i] <= usize::MAX,
    ensures
        r.1@.len() == v@.len(),
        forall|i: int| 0 <= i < v@.len() ==> f.ensures((&((base + v@[i]) as usize),), #[trigger] r.1@[i]),
        r.0@.map_values(|x: u16| base as int + x as int) == select(v@.map_values(|x: u16| base as int + x as int), r.1@),
{
    let mut out: Vec<u16> = Vec::new();
    let ghost mut keep: Seq<bool> = seq![];
    let mut i: usize = 0;
    while i < v.len()
        invariant
            i <= v@.len(),
            keep.len() == i,
            forall|x: usize| f.requires((&x,)),
            forall|j: int| 0 <= j < v@.len() ==> base + v@[j] <= usize::MAX,
            forall|j: int| 0 <= j < i ==> f.ensures((&((base + v@[j]) as usize),), #[trigger] keep[j]),
            out@.map_values(|x: u16| base as int + x as int) == select(
                v@.map_values(|x: u16| base as int + x as int).take(i as int),
                keep,
            ),
        decreases v@.len() - i,
    {
        let e = v[i];
        let value: usize = e as usize + base;
        let k = f(&value);
        let ghost src = v@.map_values(|x: u16| base as int + x as int);
        let ghost prev = out@;
        if k {
            out.push(e);
        }
        proof {
            let nk = keep.push(k);
            assert(src.take(i + 1).drop_last() =~= src.take(i as int));
            assert(nk.drop_last() =~= keep);
            lemma_select_push(src.take(i + 1), nk);
            if k {
                assert(out@.map_values(|x: u16| base as int + x as int) =~= prev.map_values(
                    |x: u16| base as int + x as int,
                ).push(base as int + e as int));
            } else {
                assert(out@.map_values(|x: u16| base as int + x as int) =~= prev.map_values(
                    |x: u16| base as int + x as int,
                ));
            }
            keep = nk;
        }
        i = i + 1;
    }
    assert(v@.map_values(|x: u16| base as int + x as int).take(i as int) =~= v@.map_values(
        |x: u16| base as int + x as int,
    ));
    (out, Ghost(keep))
}

/// The elements `x` of `v` for which `f(&(base + x))` holds, in order.
fn retain_u32<F: Fn(&usize) -> bool>(v: &Vec<u32>, base: usize, f: &F) -> (r: (Vec<u32>, Ghost<Seq<bool>>))
    requires
        forall|x: usize| f.requires((&x,)),
        forall|i: int| 0 <= i < v@.len() ==> base + v@[i] <= usize::MAX,
    ensures
        r.1@.len() == v@.len(),
        forall|i: int| 0 <= i < v@.len() ==> f.ensures((&((base + v@[i]) as usize),), #[trigger] r.1@[i]),
        r.0@.map_values(|x: u32| base as int + x as int) == select(v@.map_values(|x: u32| base as int + x as int), r.1@),
{
    let mut out: Vec<u32> = Vec::new();
    let ghost mut keep: Seq<bool> = seq![];
    let mut i: usize = 0;
    while i < v.len()
        invariant
            i <= v@.len(),
            keep.len() == i,
            forall|x: usize| f.requires((&x,)),
            forall|j: int| 0 <= j < v@.len() ==> base + v@[j] <= usize::MAX,
            forall|j: int| 0 <= j < i ==> f.ensures((&((base + v@[j]) as usize),), #[trigger] keep[j]),
            out@.map_values(|x: u32| base as int + x as int) == select(
                v@.map_values(|x: u32| base as int + x as int).take(i as int),
                keep,
            ),
        decreases v@.len() - i,
    {
        let e = v[i];
        let value: usize = e as usize + base;
        let k = f(&value);
        let ghost src = v@.map_values(|x: u32| base as int + x as int);
        let ghost prev = out@;
        if k {
            out.push(e);
        }
        proof {
            let nk = keep.push(k);
            assert(src.take(i + 1).drop_last() =~= src.take(i as int));
            assert(nk.drop_last() =~= keep);
            lemma_select_push(src.take(i + 1), nk);
            if k {
                assert(out@.map_values(|x: u32| base as int + x as int) =~= prev.map_values(
                    |x: u32| base as int + x as int,
                ).push(base as int + e as int));
            } else {
                assert(out@.map_values(|x: u32| base as int + x as int) =~= prev.map_values(
                    |x: u32| base as int + x as int,
                ));
            }
            keep = nk;
        }
        i = i + 1;
    }
    assert(v@.map_values(|x: u32| base as int + x as int).take(i as int) =~= v@.map_values(
        |x: u32| base as int + x as int,
    ));
    (out, Ghost(keep))
}

} // verus!
