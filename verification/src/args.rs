//! A small command-line option reader: options are looked up by one or two
//! names and removed from the argument list once consumed.

use crate::text::str_eq;
use vstd::prelude::*;

verus! {

/// Why reading the command line failed.
#[derive(Debug, PartialEq, Eq, Structural)]
pub enum Error {
    /// No argument follows the program name.
    NoneArgument,
    /// An argument is not valid UTF-8.
    NonUtf8Argument,
    /// An option that takes a value is the last argument.
    OptionWithoutAValue,
    /// The value of an option could not be parsed.
    OptionValueParsingFailed,
}

/// The arguments still to be read, program name excluded.
pub struct Args(Vec<String>);

impl View for Args {
    type V = Seq<Seq<char>>;

    closed spec fn view(&self) -> Seq<Seq<char>> {
        self.0@.map_values(|s: String| s@)
    }
}

/// The one or two names of an option; an empty name stands for none.
pub struct Keys([&'static str; 2]);

impl View for Keys {
    type V = Seq<Seq<char>>;

    closed spec fn view(&self) -> Seq<Seq<char>> {
        self.0@.map_values(|s: &'static str| s@)
    }
}

impl From<[&'static str; 2]> for Keys {
    fn from(v: [&'static str; 2]) -> (r: Keys) {
        Keys(v)
    }
}

impl vstd::std_specs::convert::FromSpecImpl<[&'static str; 2]> for Keys {
    open spec fn obeys_from_spec() -> bool {
        true
    }

    closed spec fn from_spec(v: [&'static str; 2]) -> Keys {
        Keys(v)
    }
}

impl From<&'static str> for Keys {
    fn from(v: &'static str) -> (r: Keys) {
        Keys([v, ""])
    }
}

impl vstd::std_specs::convert::FromSpecImpl<&'static str> for Keys {
    open spec fn obeys_from_spec() -> bool {
        true
    }

    closed spec fn from_spec(v: &'static str) -> Keys {
        Keys([v, ""])
    }
}

/// The first position at or after `from` at which `args` holds `key`.
pub open spec fn first_at(args: Seq<Seq<char>>, key: Seq<char>, from: int) -> Option<int>
    decreases args.len() - from,
{
    if from < 0 || from >= args.len() {
        None
    } else if args[from] == key {
        Some(from)
    } else {
        first_at(args, key, from + 1)
    }
}

/// Where the option named by `keys` stands in `args`: the position of the
/// first name (in the order of `keys`, empty names skipped) that occurs,
/// and which name it is.
pub open spec fn key_position(args: Seq<Seq<char>>, keys: Seq<Seq<char>>) -> Option<(int, int)> {
    if keys[0].len() > 0 && first_at(args, keys[0], 0) is Some {
        Some((first_at(args, keys[0], 0)->0, 0))
    } else if keys[1].len() > 0 && first_at(args, keys[1], 0) is Some {
        Some((first_at(args, keys[1], 0)->0, 1))
    } else {
        None
    }
}

proof fn lemma_first_at_range(args: Seq<Seq<char>>, key: Seq<char>, from: int)
    ensures
        first_at(args, key, from) matches Some(i) ==> from <= i < args.len() && args[i] == key,
    decreases args.len() - from,
{
    if 0 <= from < args.len() && args[from] != key {
        lemma_first_at_range(args, key, from + 1);
    }
}

/// The view of command-line arguments given as optional strings.
pub open spec fn os_views(os_args: Seq<Option<String>>) -> Seq<Seq<char>> {
    os_args.map_values(|a: Option<String>| a->0@)
}

/// `f` can turn a string with the characters `text` into `v`.
pub open spec fn parses_to<T, F: Fn(&str) -> Result<T, String>>(f: F, text: Seq<char>, v: T) -> bool {
    exists|s: &str| s@ == text && f.ensures((s,), Ok::<T, String>(v))
}

/// `f` can fail on a string with the characters `text`.
pub open spec fn fails_on<T, F: Fn(&str) -> Result<T, String>>(f: F, text: Seq<char>) -> bool {
    exists|s: &str, e: String| s@ == text && f.ensures((s,), Err::<T, String>(e))
}

impl Args {
    /// The arguments of a command line, each `None` where it was not valid
    /// UTF-8; the first one, the program name, is dropped.
    pub fn new(os_args: Vec<Option<String>>) -> (r: Result<Args, Error>)
        ensures
            (exists|i: int| 0 <= i < os_args@.len() && os_args@[i] is None) ==> r == Err::<
                Args,
                Error,
            >(Error::NonUtf8Argument),
            (forall|i: int| 0 <= i < os_args@.len() ==> os_args@[i] is Some) ==> {
                if os_args@.len() <= 1 {
                    r == Err::<Args, Error>(Error::NoneArgument)
                } else {
                    r matches Ok(a) && a@ == os_views(os_args@).skip(1)
                }
            },
    {
        let mut args: Vec<String> = Vec::new();
        let ghost orig = os_args@;
        let n = os_args.len();
        let mut i: usize = 0;
        while i < n
            invariant
                n == orig.len(),
                i <= n,
                os_args@ == orig,
                forall|k: int| 0 <= k < i ==> orig[k] is Some,
                i == 0 ==> args@.len() == 0,
                i > 0 ==> args@.map_values(|s: String| s@) == os_views(orig).subrange(1, i as int),
            decreases n - i,
        {
            match &os_args[i] {
                Some(s) => {
                    if i != 0 {
                        let ghost prev = args@;
                        args.push(s.clone());
                        proof {
                            assert(args@.map_values(|s: String| s@) =~= prev.map_values(
                                |s: String| s@,
                            ).push(orig[i as int]->0@));
                            assert(os_views(orig).subrange(1, i + 1 as int) =~= os_views(
                                orig,
                            ).subrange(1, i as int).push(orig[i as int]->0@));
                        }
                    } else {
                        proof {
                            assert(args@.map_values(|s: String| s@) =~= os_views(orig).subrange(
                                1,
                                1,
                            ));
                        }
                    }
                },
                None => {
                    proof {
                        assert forall|k: int| 0 <= k < orig.len() && #[trigger] orig[k] is None implies k >= i by {}
                    }
                    return Err(Error::NonUtf8Argument);
                },
            }
            i = i + 1;
        }
        if args.len() == 0 {
            return Err(Error::NoneArgument);
        }
        proof {
            assert(os_views(orig).skip(1) =~= os_views(orig).subrange(1, n as int));
        }
        let r = Args(args);
        assert(r@ =~= os_views(orig).skip(1));
        Ok(r)
    }

    /// The position of the first argument equal to `key`.
    fn position_of(&self, key: &str) -> (r: Option<usize>)
        ensures
            r matches Some(i) ==> first_at(self@, key@, 0) == Some(i as int),
            r is None ==> first_at(self@, key@, 0) is None,
    {
        let n = self.0.len();
        let mut i: usize = 0;
        while i < n
            invariant
                n == self@.len(),
                i <= n,
                first_at(self@, key@, 0) == first_at(self@, key@, i as int),
            decreases n - i,
        {
            if str_eq(self.0[i].as_str(), key) {
                assert(self@[i as int] == key@);
                return Some(i);
            }
            i = i + 1;
        }
        None
    }

    /// Finds the option named by `keys`: its position and the name found.
    pub fn index_of(&self, keys: Keys) -> (r: Option<(usize, &'static str)>)
        ensures
            match key_position(self@, keys@) {
                None => r is None,
                Some((i, k)) => r matches Some((ri, rk)) && ri == i && rk@ == keys@[k],
            },
    {
        let k0: &'static str = keys.0[0];
        let k1: &'static str = keys.0[1];
        assert(keys@[0] == k0@ && keys@[1] == k1@);
        if !k0.is_empty() {
            if let Some(i) = self.position_of(k0) {
                return Some((i, k0));
            }
        }
        if !k1.is_empty() {
            if let Some(i) = self.position_of(k1) {
                return Some((i, k1));
            }
        }
        None
    }

    /// Whether the flag named by `keys` is present; a flag found is removed.
    pub fn contains(&mut self, keys: Keys) -> (r: bool)
        ensures
            match key_position(old(self)@, keys@) {
                None => !r && final(self)@ == old(self)@,
                Some((i, _)) => r && final(self)@ == old(self)@.remove(i),
            },
    {
        if let Some((idx, _)) = self.index_of(keys) {
            proof {
                let (i, k) = key_position(old(self)@, keys@)->0;
                lemma_first_at_range(old(self)@, keys@[k], 0);
            }
            let ghost before = self.0@;
            self.0.remove(idx);
            proof {
                assert(self@ =~= old(self)@.remove(idx as int));
            }
            return true;
        }
        false
    }

    /// Reads the option named by `keys` and parses the argument after it
    /// with `f`. When the option is absent nothing changes and `Ok(None)`
    /// comes back; when it is the last argument, `OptionWithoutAValue`;
    /// when `f` fails, `OptionValueParsingFailed` and nothing changes;
    /// otherwise the option and its value are removed and the parsed value
    /// comes back.
    pub fn new_impl<T, F: Fn(&str) -> Result<T, String>>(&mut self, keys: Keys, f: F) -> (r: Result<
        Option<T>,
        Error,
    >)
        requires
            forall|s: &str| f.requires((s,)),
        ensures
            match key_position(old(self)@, keys@) {
                None => r matches Ok(None) && final(self)@ == old(self)@,
                Some((i, _)) => if i + 1 >= old(self)@.len() {
                    r == Err::<Option<T>, Error>(Error::OptionWithoutAValue) && final(self)@ == old(self)@
                } else {
                    match r {
                        Ok(Some(v)) => parses_to(f, old(self)@[i + 1], v) && final(self)@ == old(self)@.remove(i).remove(i),
                        Ok(None) => false,
                        Err(e) => e == Error::OptionValueParsingFailed && fails_on(f, old(self)@[i + 1]) && final(self)@ == old(self)@,
                    }
                },
            },
    {
        if let Some((idx, _)) = self.index_of(keys) {
            proof {
                let (i, k) = key_position(old(self)@, keys@)->0;
                lemma_first_at_range(old(self)@, keys@[k], 0);
            }
            let len = self.0.len();
            assert(self@.len() == len);
            if idx + 1 >= len {
                return Err(Error::OptionWithoutAValue);
            }
            let value: &str = self.0[idx + 1].as_str();
            assert(value@ == old(self)@[idx + 1]);
            let parsed = f(value);
            match parsed {
                Ok(v) => {
                    self.0.remove(idx);
                    self.0.remove(idx);
                    proof {
                        assert(self@ =~= old(self)@.remove(idx as int).remove(idx as int));
                    }
                    Ok(Some(v))
                },
                Err(_) => Err(Error::OptionValueParsingFailed),
            }
        } else {
            Ok(None)
        }
    }
}

} // verus!
