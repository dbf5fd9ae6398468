//! The difference of two sorted lists, computed lazily in one merge pass.

use vstd::prelude::*;

verus! {

/// `s` is in increasing order (repetitions allowed).
pub open spec fn sorted(s: Seq<usize>) -> bool {
    forall|i: int, j: int| 0 <= i <= j < s.len() ==> s[i] <= s[j]
}

/// Whether `x` is absent from `b`, as a predicate.
pub open spec fn absent_from(b: Seq<usize>) -> spec_fn(usize) -> bool {
    |x: usize| !b.contains(x)
}

/// One step of the merge from positions `i` in `a` and `j` in `b`: the next
/// element of `a` to yield and the positions after it. An element of `a`
/// equal to the current element of `b` is skipped, one greater than it makes
/// `b` advance, one smaller than it (or any, once `b` is used up) is yielded.
pub open spec fn diff_step(a: Seq<usize>, i: int, b: Seq<usize>, j: int) -> (Option<usize>, int, int)
    decreases a.len() - i, b.len() - j,
{
    if i < 0 || i >= a.len() || j < 0 {
        (None, i, j)
    } else if j >= b.len() || a[i] < b[j] {
        (Some(a[i]), i + 1, j)
    } else if a[i] == b[j] {
        diff_step(a, i + 1, b, j)
    } else {
        diff_step(a, i, b, j + 1)
    }
}

/// Everything in `b` before position `j` is below every element of `a` from
/// position `i` on.
pub open spec fn passed(a: Seq<usize>, i: int, b: Seq<usize>, j: int) -> bool {
    forall|k: int, m: int| 0 <= k < j && i <= m < a.len() ==> #[trigger] b[k] < #[trigger] a[m]
}

/// On sorted lists, a merge step yields exactly the elements of `a` between
/// the two positions that are absent from `b`, and keeps `passed`.
pub proof fn lemma_diff_step(a: Seq<usize>, i: int, b: Seq<usize>, j: int)
    requires
        sorted(a),
        sorted(b),
        0 <= i <= a.len(),
        0 <= j <= b.len(),
        passed(a, i, b, j),
    ensures
        ({
            let (r, i2, j2) = diff_step(a, i, b, j);
            &&& i <= i2 <= a.len()
            &&& j <= j2 <= b.len()
            &&& passed(a, i2, b, j2)
            &&& r is None ==> i2 == a.len()
            &&& r is Some ==> i < i2
            &&& a.subrange(i, i2).filter(absent_from(b)) == match r {
                Some(x) => seq![x],
                None => Seq::<usize>::empty(),
            }
        }),
    decreases a.len() - i, b.len() - j,
{
    broadcast use vstd::seq_lib::group_filter_ensures;

    let p = absent_from(b);
    if i >= a.len() {
        assert(a.subrange(i, i) =~= Seq::<usize>::empty());
        assert(Seq::<usize>::empty().filter(p) =~= Seq::<usize>::empty()) by {
            Seq::<usize>::empty().lemma_filter_len(p);
        }
    } else if j >= b.len() || a[i] < b[j] {
        assert(!b.contains(a[i])) by {
            if b.contains(a[i]) {
                let k = choose|k: int| 0 <= k < b.len() && b[k] == a[i];
                if k < j {
                    assert(b[k] < a[i]);
                } else {
                    assert(b[j] <= b[k]);
                }
            }
        }
        assert(a.subrange(i, i + 1) =~= Seq::<usize>::empty().push(a[i]));
        Seq::<usize>::empty().lemma_filter_push(a[i], p);
        assert(Seq::<usize>::empty().filter(p) =~= Seq::<usize>::empty()) by {
            Seq::<usize>::empty().lemma_filter_len(p);
        }
        assert(seq![a[i]] =~= Seq::<usize>::empty().push(a[i]));
    } else if a[i] == b[j] {
        lemma_diff_step(a, i + 1, b, j);
        let (r, i2, j2) = diff_step(a, i + 1, b, j);
        assert(b.contains(a[i])) by {
            assert(b[j] == a[i]);
        }
        assert(a.subrange(i, i2) =~= seq![a[i]] + a.subrange(i + 1, i2));
        Seq::filter_distributes_over_add(seq![a[i]], a.subrange(i + 1, i2), p);
        assert(seq![a[i]] =~= Seq::<usize>::empty().push(a[i]));
        Seq::<usize>::empty().lemma_filter_push(a[i], p);
        assert(Seq::<usize>::empty().filter(p) =~= Seq::<usize>::empty()) by {
            Seq::<usize>::empty().lemma_filter_len(p);
        }
        assert(seq![a[i]].filter(p) + a.subrange(i + 1, i2).filter(p) =~= a.subrange(
            i + 1,
            i2,
        ).filter(p));
    } else {
        assert(passed(a, i, b, j + 1)) by {
            assert forall|k: int, m: int| 0 <= k < j + 1 && i <= m < a.len() implies #[trigger] b[k]
                < #[trigger] a[m] by {
                if k == j {
                    assert(a[i] <= a[m]);
                }
            }
        }
        lemma_diff_step(a, i, b, j + 1);
    }
}

/// The elements of one list that do not occur in another, taken in the
/// order of the first list by a single merge pass; both lists are meant to
/// be sorted.
pub struct SortedDiff {
    it1: Vec<usize>,
    pos1: usize,
    it2: Vec<usize>,
    pos2: usize,
}

impl SortedDiff {
    #[verifier::type_invariant]
    closed spec fn inv(&self) -> bool {
        &&& self.pos1 <= self.it1@.len()
        &&& self.pos2 <= self.it2@.len()
    }

    /// The two lists and the positions reached in each.
    pub closed spec fn state(&self) -> (Seq<usize>, int, Seq<usize>, int) {
        (self.it1@, self.pos1 as int, self.it2@, self.pos2 as int)
    }

    /// The next element of the first list that the merge yields, if any.
    pub fn next(&mut self) -> (r: Option<usize>)
        ensures
            ({
                let (a, i, b, j) = old(self).state();
                let (x, i2, j2) = diff_step(a, i, b, j);
                &&& r == x
                &&& final(self).state() == (a, i2, b, j2)
            }),
    {
        proof {
            use_type_invariant(&*self);
        }
        let ghost (a, i0, b, j0) = self.state();
        let n1 = self.it1.len();
        let n2 = self.it2.len();
        while self.pos1 < n1
            invariant
                old(self).state() == (a, i0, b, j0),
                n1 == a.len(),
                n2 == b.len(),
                self.it1@ == a,
                self.it2@ == b,
                self.pos1 <= n1,
                self.pos2 <= n2,
                diff_step(a, i0, b, j0) == diff_step(a, self.pos1 as int, b, self.pos2 as int),
            decreases n1 - self.pos1,
        {
            let e1 = self.it1[self.pos1];
            let ghost i = self.pos1 as int;
            self.pos1 = self.pos1 + 1;
            loop
                invariant
                    old(self).state() == (a, i0, b, j0),
                    n1 == a.len(),
                    n2 == b.len(),
                    self.it1@ == a,
                    self.it2@ == b,
                    0 <= i < n1,
                    self.pos1 == i + 1,
                    e1 == a[i],
                    self.pos2 <= n2,
                    diff_step(a, i0, b, j0) == diff_step(a, i, b, self.pos2 as int),
                ensures
                    self.it1@ == a,
                    self.it2@ == b,
                    self.pos1 <= n1,
                    self.pos2 <= n2,
                    diff_step(a, i0, b, j0) == diff_step(a, self.pos1 as int, b, self.pos2 as int),
                decreases n2 - self.pos2,
            {
                if self.pos2 >= n2 {
                    return Some(e1);
                }
                let e2 = self.it2[self.pos2];
                if e1 < e2 {
                    return Some(e1);
                } else if e1 == e2 {
                    break;
                } else {
                    self.pos2 = self.pos2 + 1;
                }
            }
        }
        None
    }
}

/// The lazy difference of `it1` and `it2`: what `it1` holds and `it2` does
/// not, both lists being sorted.
pub fn sorted_difference(it1: Vec<usize>, it2: Vec<usize>) -> (r: SortedDiff)
    ensures
        r.state() == (it1@, 0int, it2@, 0int),
{
    SortedDiff { it1, pos1: 0, it2, pos2: 0 }
}

/// Sorts `v` in increasing order, keeping the same elements with the same
/// counts (`slice::sort_unstable`).
#[verifier::external_body]
fn sort_unstable_usize(v: &mut Vec<usize>)
    ensures
        sorted(final(v)@),
        final(v)@.to_multiset() == old(v)@.to_multiset(),
{
    v.sort_unstable()
}

/// The elements of `i2` that do not occur in `i1`, in increasing order
/// (with the repetitions `i2` has).
pub fn x1(i1: Vec<usize>, i2: Vec<usize>) -> (r: Vec<usize>)
    ensures
        exists|s: Seq<usize>|
            sorted(s) && s.to_multiset() == i2@.to_multiset() && r@ == s.filter(
                absent_from(i1@),
            ),
{
    broadcast use vstd::seq_lib::group_to_multiset_ensures;

    let mut i1 = i1;
    let mut i2 = i2;
    let ghost orig1 = i1@;
    sort_unstable_usize(&mut i1);
    sort_unstable_usize(&mut i2);
    let ghost a = i2@;
    let ghost b = i1@;
    let mut diff = sorted_difference(i2, i1);
    let mut out: Vec<usize> = Vec::new();
    loop
        invariant
            sorted(a),
            sorted(b),
            diff.state().0 == a,
            diff.state().2 == b,
            0 <= diff.state().1 <= a.len(),
            0 <= diff.state().3 <= b.len(),
            passed(a, diff.state().1, b, diff.state().3),
            out@ == a.subrange(0, diff.state().1).filter(absent_from(b)),
        ensures
            out@ == a.filter(absent_from(b)),
        decreases a.len() - diff.state().1,
    {
        let ghost (_, i, _, j) = diff.state();
        proof {
            lemma_diff_step(a, i, b, j);
        }
        let ghost prev = out@;
        match diff.next() {
            None => {
                proof {
                    assert(a.subrange(0, a.len() as int) =~= a);
                    assert(a.subrange(0, i) + a.subrange(i, a.len() as int) =~= a);
                    Seq::filter_distributes_over_add(
                        a.subrange(0, i),
                        a.subrange(i, a.len() as int),
                        absent_from(b),
                    );
                    assert(out@ =~= a.filter(absent_from(b)));
                }
                break;
            },
            Some(x) => {
                out.push(x);
                proof {
                    let i2 = diff.state().1;
                    assert(a.subrange(0, i2) =~= a.subrange(0, i) + a.subrange(i, i2));
                    Seq::filter_distributes_over_add(a.subrange(0, i), a.subrange(i, i2), absent_from(b));
                    assert(out@ =~= prev + seq![x]);
                }
            },
        }
    }
    proof {
        assert(absent_from(b) == absent_from(orig1)) by {
            assert forall|x: usize| #[trigger] absent_from(b)(x) == absent_from(orig1)(x) by {
                assert(b.to_multiset().count(x) == orig1.to_multiset().count(x));
            }
        }
    }
    out
}

} // verus!
