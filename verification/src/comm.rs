//! Recognising a process by the name in `/proc/<pid>/comm`.

use crate::scanner::{rskip_ws, trimmed};
use crate::text::{
    chars_of, is_whitespace, parse_i32, parse_i32_spec, skip_ws, split_seq, split_str, str_eq,
    strs_view,
};
use vstd::prelude::*;
use vstd::string::StrSliceExecFns;

verus! {

/// `s` without leading and trailing whitespace, as `str::trim` returns it.
pub fn trim(s: &str) -> (r: &str)
    ensures
        r@ == trimmed(s@),
{
    let chars = chars_of(s);
    let n = chars.len();
    let mut a: usize = 0;
    while a < n && is_whitespace(chars[a])
        invariant
            chars@ == s@,
            n == chars@.len(),
            a <= n,
            skip_ws(s@, a as int) == skip_ws(s@, 0),
        decreases n - a,
    {
        a = a + 1;
    }
    let mut b: usize = n;
    while b > a && is_whitespace(chars[b - 1])
        invariant
            chars@ == s@,
            n == chars@.len(),
            a <= b <= n,
            skip_ws(s@, 0) == a,
            rskip_ws(s@, b as int) == rskip_ws(s@, n as int) || (b == a && rskip_ws(
                s@,
                n as int,
            ) <= a),
        decreases b,
    {
        proof {
            crate::scanner::lemma_rskip_ws_range(s@, b - 1);
        }
        b = b - 1;
    }
    proof {
        crate::scanner::lemma_rskip_ws_range(s@, n as int);
        crate::scanner::lemma_rskip_ws_range(s@, b as int);
    }
    let r = s.substring_char(a, b);
    assert(r@ =~= trimmed(s@));
    r
}

/// Whether the contents of a `comm` file name the process `name`: equal
/// once trimmed.
pub fn comm_matches(contents: &str, name: &str) -> (r: bool)
    ensures
        r == (trimmed(contents@) == name@),
{
    str_eq(trim(contents), name)
}

/// The process id in a path `/proc/<pid>/comm`: the third piece between
/// slashes, read as a decimal number; `None` when there is no such piece or
/// it is not a number.
pub fn pid_in_comm_path(path: &str) -> (r: Option<i32>)
    ensures
        split_seq(path@, '/').len() < 3 ==> r is None,
        split_seq(path@, '/').len() >= 3 ==> match parse_i32_spec(split_seq(path@, '/')[2]) {
            Ok(v) => r == Some(v as i32),
            Err(_) => r is None,
        },
{
    let parts = split_str(path, '/');
    if parts.len() < 3 {
        return None;
    }
    assert(strs_view(parts@)[2] == parts@[2]@);
    match parse_i32(parts[2]) {
        Ok(v) => Some(v),
        Err(_) => None,
    }
}

/// The views of `(path, contents)` pairs read from `/proc/*/comm`; the
/// contents are absent where the file could not be opened.
pub open spec fn comm_views(v: Seq<(String, Option<String>)>) -> Seq<(Seq<char>, Option<Seq<char>>)> {
    v.map_values(
        |e: (String, Option<String>)|
            (
                e.0@,
                match e.1 {
                    Some(c) => Some(c@),
                    None => None,
                },
            ),
    )
}

/// Whether the entry names the process `name`.
pub open spec fn names(e: (Seq<char>, Option<Seq<char>>), name: Seq<char>) -> bool {
    e.1 matches Some(c) && trimmed(c) == name
}

/// The id read from the path of an entry.
pub open spec fn entry_pid(e: (Seq<char>, Option<Seq<char>>)) -> i32 {
    (parse_i32_spec(split_seq(e.0, '/')[2])->Ok_0) as i32
}

/// Whether the id of the entry can be read from its path.
pub open spec fn pid_readable(e: (Seq<char>, Option<Seq<char>>)) -> bool {
    split_seq(e.0, '/').len() >= 3 && parse_i32_spec(split_seq(e.0, '/')[2]) is Ok
}

/// The id of the last of the first `n` entries that names `name`.
pub open spec fn last_named(entries: Seq<(Seq<char>, Option<Seq<char>>)>, name: Seq<char>, n: int) -> Option<i32>
    decreases n,
{
    if n <= 0 || n > entries.len() {
        None
    } else if names(entries[n - 1], name) {
        Some(entry_pid(entries[n - 1]))
    } else {
        last_named(entries, name, n - 1)
    }
}

/// The id of the last process whose `comm` contents name `name`, given the
/// `(path, contents)` pairs of the processes in listing order.
pub fn pid_by_name(comms: &Vec<(String, Option<String>)>, name: &str) -> (r: Option<i32>)
    requires
        forall|i: int|
            0 <= i < comms@.len() && names(comm_views(comms@)[i], name@) ==> pid_readable(
                #[trigger] comm_views(comms@)[i],
            ),
    ensures
        r == last_named(comm_views(comms@), name@, comms@.len() as int),
{
    let ghost v = comm_views(comms@);
    let mut pid: Option<i32> = None;
    let mut i: usize = 0;
    while i < comms.len()
        invariant
            i <= comms@.len(),
            v == comm_views(comms@),
            forall|t: int| 0 <= t < comms@.len() && names(v[t], name@) ==> pid_readable(#[trigger] v[t]),
            pid == last_named(v, name@, i as int),
        decreases comms@.len() - i,
    {
        assert(v[i as int] == (comms@[i as int].0@, match comms@[i as int].1 {
            Some(c) => Some(c@),
            None => None,
        }));
        match &comms[i].1 {
            Some(c) => {
                if comm_matches(c.as_str(), name) {
                    assert(names(v[i as int], name@));
                    assert(pid_readable(v[i as int]));
                    pid = pid_in_comm_path(comms[i].0.as_str());
                }
            },
            None => {},
        }
        i = i + 1;
    }
    pid
}

} // verus!
