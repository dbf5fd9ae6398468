//! The decisions of the process picker window: how processes are listed,
//! which entries a filter keeps, and when a selection can be confirmed.

use crate::text::{chars_of, push_char, str_eq};
use vstd::prelude::*;

verus! {

/// The events the window reacts to.
#[derive(Debug, Clone, Copy, PartialEq, Eq, Structural)]
pub enum Message {
    /// Reload the process list.
    Update,
    /// The highlighted entry changed.
    Select,
    /// The selection was confirmed.
    Okkk,
    /// The filter text changed.
    Filter,
}

/// The lower-case form of `s`, as `str::to_lowercase` gives it.
pub uninterp spec fn lowercase(s: Seq<char>) -> Seq<char>;

/// `str::to_lowercase`: the lower-case form of `s`, named `lowercase`.
#[verifier::external_body]
fn to_lower(s: &str) -> (r: String)
    ensures
        r@ == lowercase(s@),
{
    s.to_lowercase()
}

/// The list entry of a process: its name, an arrow, its id.
pub open spec fn entry(name: Seq<char>, pid: Seq<char>) -> Seq<char> {
    name + seq![' ', '-', '>', ' '] + pid
}

/// Appends the characters of `t` to `s`.
fn push_str(s: &mut String, t: &str)
    ensures
        final(s)@ == old(s)@ + t@,
{
    let chars = chars_of(t);
    let mut i: usize = 0;
    while i < chars.len()
        invariant
            i <= chars@.len(),
            chars@ == t@,
            s@ == old(s)@ + t@.take(i as int),
        decreases chars@.len() - i,
    {
        push_char(s, chars[i]);
        assert(t@.take(i + 1 as int) =~= t@.take(i as int).push(t@[i as int]));
        i = i + 1;
    }
    assert(t@.take(chars@.len() as int) =~= t@);
}

/// The list entry of the process `name` with id `pid`.
pub fn process_entry(name: &str, pid: &str) -> (r: String)
    ensures
        r@ == entry(name@, pid@),
{
    let mut s = String::new();
    push_str(&mut s, name);
    push_str(&mut s, " -> ");
    proof {
        reveal_strlit(" -> ");
    }
    push_str(&mut s, pid);
    assert(s@ =~= entry(name@, pid@));
    s
}

/// Whether `s` begins with `p`.
pub open spec fn starts_with(s: Seq<char>, p: Seq<char>) -> bool {
    p.len() <= s.len() && s.take(p.len() as int) == p
}

/// Whether the entry is kept by the filter text: in lower case, the entry
/// begins with the filter.
pub open spec fn kept_by(item: Seq<char>, filter: Seq<char>) -> bool {
    starts_with(lowercase(item), lowercase(filter))
}

/// Whether `s` begins with `p`.
fn begins_with(s: &str, p: &str) -> (r: bool)
    ensures
        r == starts_with(s@, p@),
{
    let a = chars_of(s);
    let b = chars_of(p);
    if b.len() > a.len() {
        return false;
    }
    let mut i: usize = 0;
    while i < b.len()
        invariant
            a@ == s@,
            b@ == p@,
            b@.len() <= a@.len(),
            i <= b@.len(),
            forall|k: int| 0 <= k < i ==> a@[k] == b@[k],
        decreases b@.len() - i,
    {
        if a[i] != b[i] {
            assert(s@.take(p@.len() as int)[i as int] != p@[i as int]);
            return false;
        }
        i = i + 1;
    }
    assert(s@.take(p@.len() as int) =~= p@);
    true
}

/// The views of a list of strings.
pub open spec fn entries_view(v: Seq<String>) -> Seq<Seq<char>> {
    v.map_values(|s: String| s@)
}

/// The positions of the entries of `items` that begin with `prefix`, in
/// order.
pub fn keep_prefixed(items: &Vec<String>, prefix: &str) -> (r: Vec<usize>)
    ensures
        forall|k: int| 0 <= k < r@.len() ==> #[trigger] r@[k] < items@.len(),
        forall|k: int, j: int| 0 <= k < j < r@.len() ==> r@[k] < r@[j],
        forall|i: int|
            0 <= i < items@.len() ==> (starts_with(items@[i]@, prefix@) <==> r@.contains(i as usize)),
{
    let mut out: Vec<usize> = Vec::new();
    let mut i: usize = 0;
    while i < items.len()
        invariant
            i <= items@.len(),
            forall|k: int| 0 <= k < out@.len() ==> #[trigger] out@[k] < i,
            forall|k: int, j: int| 0 <= k < j < out@.len() ==> out@[k] < out@[j],
            forall|t: int| 0 <= t < i ==> (starts_with(items@[t]@, prefix@) <==> out@.contains(t as usize)),
        decreases items@.len() - i,
    {
        let ghost prev = out@;
        if begins_with(items[i].as_str(), prefix) {
            out.push(i);
            proof {
                assert(out@[prev.len() as int] == i);
                assert forall|t: int| 0 <= t < i implies (starts_with(items@[t]@, prefix@) <==> out@.contains(t as usize)) by {
                    if prev.contains(t as usize) {
                        let k = choose|k: int| 0 <= k < prev.len() && prev[k] == t as usize;
                        assert(out@[k] == t as usize);
                    }
                    if out@.contains(t as usize) {
                        let k = choose|k: int| 0 <= k < out@.len() && out@[k] == t as usize;
                        assert(k < prev.len());
                        assert(prev[k] == t as usize);
                    }
                }
            }
        } else {
            proof {
                assert forall|k: int| 0 <= k < out@.len() implies #[trigger] out@[k] != i by {}
            }
        }
        i = i + 1;
    }
    out
}

/// The positions of the entries the filter text keeps, in order.
pub fn filter_entries(items: &Vec<String>, filter: &str) -> (r: Vec<usize>)
    ensures
        forall|k: int| 0 <= k < r@.len() ==> #[trigger] r@[k] < items@.len(),
        forall|k: int, j: int| 0 <= k < j < r@.len() ==> r@[k] < r@[j],
        forall|i: int|
            0 <= i < items@.len() ==> (kept_by(items@[i]@, filter@) <==> r@.contains(i as usize)),
{
    let low = to_lower(filter);
    let mut lowered: Vec<String> = Vec::new();
    let mut i: usize = 0;
    while i < items.len()
        invariant
            i <= items@.len(),
            lowered@.len() == i,
            forall|k: int| 0 <= k < i ==> (#[trigger] lowered@[k])@ == lowercase(items@[k]@),
        decreases items@.len() - i,
    {
        let ghost prev = lowered@;
        lowered.push(to_lower(items[i].as_str()));
        proof {
            assert forall|k: int| 0 <= k < i + 1 implies (#[trigger] lowered@[k])@ == lowercase(items@[k]@) by {
                if k < i {
                    assert(lowered@[k] == prev[k]);
                }
            }
        }
        i = i + 1;
    }
    let r = keep_prefixed(&lowered, low.as_str());
    assert forall|i: int| 0 <= i < items@.len() implies (kept_by(items@[i]@, filter@) <==> r@.contains(i as usize)) by {
        assert((lowered@[i])@ == lowercase(items@[i]@));
    }
    r
}

/// The position of the first entry equal to `selected`.
pub fn position_of(items: &Vec<String>, selected: &str) -> (r: Option<usize>)
    ensures
        match r {
            Some(i) => i < items@.len() && items@[i as int]@ == selected@ && forall|k: int|
                0 <= k < i ==> items@[k]@ != selected@,
            None => forall|k: int| 0 <= k < items@.len() ==> items@[k]@ != selected@,
        },
{
    let mut i: usize = 0;
    while i < items.len()
        invariant
            i <= items@.len(),
            forall|k: int| 0 <= k < i ==> items@[k]@ != selected@,
        decreases items@.len() - i,
    {
        if str_eq(items[i].as_str(), selected) {
            return Some(i);
        }
        i = i + 1;
    }
    None
}

/// Whether confirming is possible: an entry is highlighted (the list's
/// selection index is not zero).
pub fn select_enabled(value: i32) -> (r: bool)
    ensures
        r == (value != 0),
{
    value != 0
}

} // verus!
