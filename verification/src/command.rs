//! The command lines of the interactive tools: splitting a typed line into
//! words and reading a command, with its numbers, from the words.

use crate::text::{
    IntErrorKind, chars_of, parse_i32, parse_i32_spec, parse_uint, parse_usize_dec, push_char,
    split_whitespace, str_eq, strs_view, words,
};
use crate::elf::util::le32;
use crate::utils::{hexstr_to_usize, strip_0x};
use crate::error::Error;
use vstd::prelude::*;

verus! {

/// The characters of `s` other than line feeds.
pub open spec fn without_newlines(s: Seq<char>) -> Seq<char> {
    s.filter(|c: char| c != '\n')
}

/// The views of a list of strings.
pub open spec fn strings_view(v: Seq<String>) -> Seq<Seq<char>> {
    v.map_values(|s: String| s@)
}

/// The words of a typed line: its line feeds removed, then split at
/// whitespace.
pub fn prompt_words(line: &str) -> (r: Vec<String>)
    ensures
        strings_view(r@) == words(without_newlines(line@)),
{
    let chars = chars_of(line);
    let mut kept = String::new();
    let mut i: usize = 0;
    while i < chars.len()
        invariant
            i <= chars@.len(),
            chars@ == line@,
            kept@ == without_newlines(line@.take(i as int)),
        decreases chars@.len() - i,
    {
        proof {
            assert(line@.take(i + 1 as int) =~= line@.take(i as int).push(line@[i as int]));
            line@.take(i as int).lemma_filter_push(line@[i as int], |c: char| c != '\n');
        }
        if chars[i] != '\n' {
            push_char(&mut kept, chars[i]);
        }
        i = i + 1;
    }
    assert(line@.take(chars@.len() as int) =~= line@);
    let parts = split_whitespace(kept.as_str());
    let mut out: Vec<String> = Vec::new();
    let mut k: usize = 0;
    while k < parts.len()
        invariant
            k <= parts@.len(),
            strings_view(out@) == strs_view(parts@).take(k as int),
        decreases parts@.len() - k,
    {
        let ghost prev = out@;
        out.push(parts[k].to_owned());
        assert(strings_view(out@) =~= strings_view(prev).push(parts@[k as int]@));
        assert(strs_view(parts@).take(k + 1 as int) =~= strs_view(parts@).take(k as int).push(
            parts@[k as int]@,
        ));
        k = k + 1;
    }
    assert(strs_view(parts@).take(parts@.len() as int) =~= strs_view(parts@));
    out
}

/// The four little-endian bytes of `x` (`i32::to_le_bytes`; the same as
/// `to_ne_bytes` on little-endian machines).
pub open spec fn i32_le(x: i32) -> Seq<u8> {
    let u = x as u32;
    seq![(u & 0xff) as u8, ((u >> 8) & 0xff) as u8, ((u >> 16) & 0xff) as u8, ((u >> 24) & 0xff) as u8]
}

/// Reading the four bytes back as a little-endian word gives the bits of
/// `x`.
pub proof fn lemma_i32_le_roundtrip(x: i32)
    ensures
        le32(i32_le(x), 0) == x as u32,
{
    let u = x as u32;
    let b = i32_le(x);
    let b0 = (u & 0xff) as u8;
    let b1 = ((u >> 8) & 0xff) as u8;
    let b2 = ((u >> 16) & 0xff) as u8;
    let b3 = ((u >> 24) & 0xff) as u8;
    assert(b[0] == b0 && b[1] == b1 && b[2] == b2 && b[3] == b3);
    assert(u == b0 as u32 + 256 * b1 as u32 + 65536 * (b2 as u32 + 256 * b3 as u32)) by (bit_vector)
        requires
            b0 == (u & 0xff) as u8,
            b1 == ((u >> 8) & 0xff) as u8,
            b2 == ((u >> 16) & 0xff) as u8,
            b3 == ((u >> 24) & 0xff) as u8,
    ;
}

/// The four little-endian bytes of `x`.
pub fn i32_to_le_bytes(x: i32) -> (r: Vec<u8>)
    ensures
        r@ == i32_le(x),
{
    let u = x as u32;
    let mut v: Vec<u8> = Vec::new();
    v.push((u & 0xff) as u8);
    v.push(((u >> 8) & 0xff) as u8);
    v.push(((u >> 16) & 0xff) as u8);
    v.push(((u >> 24) & 0xff) as u8);
    assert(v@ =~= i32_le(x));
    v
}

/// Why a command line cannot be carried out.
#[derive(Debug, Clone, Copy, PartialEq, Eq, Structural)]
pub enum CommandError {
    /// An argument is missing or unreadable where the tool gives up at once.
    Malformed,
    /// A number is unreadable where the tool reports the parse error.
    BadNumber(IntErrorKind),
}

/// The address written as hexadecimal in `w`, every `0x` removed.
pub open spec fn hex_addr(w: Seq<char>) -> Result<int, IntErrorKind> {
    parse_uint(strip_0x(w), true, usize::MAX as int)
}

/// Reads a hexadecimal address.
fn hex_word(w: &str) -> (r: Result<usize, IntErrorKind>)
    ensures
        match r {
            Ok(v) => hex_addr(w@) == Ok::<int, IntErrorKind>(v as int),
            Err(k) => hex_addr(w@) == Err::<int, IntErrorKind>(k),
        },
{
    match hexstr_to_usize(w) {
        Ok(v) => Ok(v),
        Err(Error::ParseIntError(k)) => Err(k),
        Err(_) => Err(IntErrorKind::InvalidDigit),
    }
}

/// The commands of the value scanner's prompt.
#[derive(Debug, Clone, Copy, PartialEq, Eq, Structural)]
pub enum MemscanCommand {
    /// An empty line.
    Empty,
    /// A command given too few arguments.
    MissingArgs,
    /// Search for a 32-bit integer.
    FindInt(i32),
    /// Search for the bytes of the third word.
    FindStr,
    /// Read `size` bytes at `addr`.
    Get { addr: usize, size: usize },
    /// Write a 32-bit integer at `addr`.
    SetValue { addr: usize, value: i32 },
    /// Keep the hits now below the value searched for.
    Less,
    /// Keep the hits that grew.
    More,
    /// Keep the hits that did not change.
    Same,
    /// Change page permissions.
    Perm,
    /// Start over.
    Reset,
    /// Keep writing a 32-bit integer at `addr`.
    Lock { addr: usize, value: i32 },
    /// Show the hits.
    List,
    /// Leave.
    Exit,
    /// Show help.
    Help,
    /// Anything else: nothing happens.
    Ignore,
}

/// A 32-bit integer argument that must be readable.
pub open spec fn int_arg(w: Seq<char>) -> Result<i32, CommandError> {
    match parse_i32_spec(w) {
        Ok(v) => Ok(v as i32),
        Err(_) => Err(CommandError::Malformed),
    }
}

/// An address argument that must be readable.
pub open spec fn addr_arg(w: Seq<char>) -> Result<usize, CommandError> {
    match hex_addr(w) {
        Ok(v) => Ok(v as usize),
        Err(_) => Err(CommandError::Malformed),
    }
}

/// The command the value scanner reads from `w`.
pub open spec fn memscan_command(w: Seq<Seq<char>>) -> Result<MemscanCommand, CommandError> {
    if w.len() == 0 {
        Ok(MemscanCommand::Empty)
    } else if w[0] == "find"@ {
        if w.len() < 2 {
            Ok(MemscanCommand::MissingArgs)
        } else if w[1] == "int"@ {
            if w.len() < 3 {
                Err(CommandError::Malformed)
            } else {
                match int_arg(w[2]) {
                    Ok(v) => Ok(MemscanCommand::FindInt(v)),
                    Err(e) => Err(e),
                }
            }
        } else if w[1] == "str"@ {
            if w.len() < 3 {
                Err(CommandError::Malformed)
            } else {
                Ok(MemscanCommand::FindStr)
            }
        } else {
            Ok(MemscanCommand::Ignore)
        }
    } else if w[0] == "get"@ {
        if w.len() < 3 {
            Ok(MemscanCommand::MissingArgs)
        } else {
            match addr_arg(w[1]) {
                Err(e) => Err(e),
                Ok(addr) => match parse_uint(w[2], false, usize::MAX as int) {
                    Ok(n) => Ok(MemscanCommand::Get { addr, size: n as usize }),
                    Err(k) => Err(CommandError::BadNumber(k)),
                },
            }
        }
    } else if w[0] == "set"@ {
        if w.len() < 3 {
            Ok(MemscanCommand::MissingArgs)
        } else {
            match addr_arg(w[1]) {
                Err(e) => Err(e),
                Ok(addr) => match int_arg(w[2]) {
                    Ok(value) => Ok(MemscanCommand::SetValue { addr, value }),
                    Err(e) => Err(e),
                },
            }
        }
    } else if w[0] == "<"@ {
        Ok(MemscanCommand::Less)
    } else if w[0] == ">"@ {
        Ok(MemscanCommand::More)
    } else if w[0] == "="@ {
        Ok(MemscanCommand::Same)
    } else if w[0] == "p"@ {
        Ok(MemscanCommand::Perm)
    } else if w[0] == "reset"@ {
        Ok(MemscanCommand::Reset)
    } else if w[0] == "lock"@ {
        if w.len() < 2 {
            Err(CommandError::Malformed)
        } else {
            match addr_arg(w[1]) {
                Err(e) => Err(e),
                Ok(addr) => if w.len() < 3 {
                    Err(CommandError::Malformed)
                } else {
                    match int_arg(w[2]) {
                        Ok(value) => Ok(MemscanCommand::Lock { addr, value }),
                        Err(e) => Err(e),
                    }
                },
            }
        }
    } else if w[0] == "list"@ {
        Ok(MemscanCommand::List)
    } else if w[0] == "exit"@ || w[0] == "quit"@ {
        Ok(MemscanCommand::Exit)
    } else if w[0] == "help"@ {
        Ok(MemscanCommand::Help)
    } else {
        Ok(MemscanCommand::Ignore)
    }
}

/// A 32-bit integer argument.
fn int_word(w: &str) -> (r: Result<i32, CommandError>)
    ensures
        r == int_arg(w@),
{
    match parse_i32(w) {
        Ok(v) => Ok(v),
        Err(_) => Err(CommandError::Malformed),
    }
}

/// An address argument.
fn addr_word(w: &str) -> (r: Result<usize, CommandError>)
    ensures
        r == addr_arg(w@),
{
    match hex_word(w) {
        Ok(v) => Ok(v),
        Err(_) => Err(CommandError::Malformed),
    }
}

/// Reads a command of the value scanner's prompt from the words of a line.
pub fn parse_memscan_command(w: &Vec<String>) -> (r: Result<MemscanCommand, CommandError>)
    ensures
        r == memscan_command(strings_view(w@)),
{
    let ghost v = strings_view(w@);
    if w.len() == 0 {
        return Ok(MemscanCommand::Empty);
    }
    assert(v[0] == w@[0]@);
    let c = w[0].as_str();
    if str_eq(c, "find") {
        if w.len() < 2 {
            return Ok(MemscanCommand::MissingArgs);
        }
        assert(v[1] == w@[1]@);
        if str_eq(w[1].as_str(), "int") {
            if w.len() < 3 {
                return Err(CommandError::Malformed);
            }
            assert(v[2] == w@[2]@);
            return match int_word(w[2].as_str()) {
                Ok(v) => Ok(MemscanCommand::FindInt(v)),
                Err(e) => Err(e),
            };
        } else if str_eq(w[1].as_str(), "str") {
            if w.len() < 3 {
                return Err(CommandError::Malformed);
            }
            return Ok(MemscanCommand::FindStr);
        }
        return Ok(MemscanCommand::Ignore);
    }
    if str_eq(c, "get") {
        if w.len() < 3 {
            return Ok(MemscanCommand::MissingArgs);
        }
        assert(v[1] == w@[1]@ && v[2] == w@[2]@);
        let addr = addr_word(w[1].as_str())?;
        return match parse_usize_dec(w[2].as_str()) {
            Ok(n) => Ok(MemscanCommand::Get { addr, size: n }),
            Err(k) => Err(CommandError::BadNumber(k)),
        };
    }
    if str_eq(c, "set") {
        if w.len() < 3 {
            return Ok(MemscanCommand::MissingArgs);
        }
        assert(v[1] == w@[1]@ && v[2] == w@[2]@);
        let addr = addr_word(w[1].as_str())?;
        let value = int_word(w[2].as_str())?;
        return Ok(MemscanCommand::SetValue { addr, value });
    }
    if str_eq(c, "<") {
        return Ok(MemscanCommand::Less);
    }
    if str_eq(c, ">") {
        return Ok(MemscanCommand::More);
    }
    if str_eq(c, "=") {
        return Ok(MemscanCommand::Same);
    }
    if str_eq(c, "p") {
        return Ok(MemscanCommand::Perm);
    }
    if str_eq(c, "reset") {
        return Ok(MemscanCommand::Reset);
    }
    if str_eq(c, "lock") {
        if w.len() < 2 {
            return Err(CommandError::Malformed);
        }
        assert(v[1] == w@[1]@);
        let addr = addr_word(w[1].as_str())?;
        if w.len() < 3 {
            return Err(CommandError::Malformed);
        }
        assert(v[2] == w@[2]@);
        let value = int_word(w[2].as_str())?;
        return Ok(MemscanCommand::Lock { addr, value });
    }
    if str_eq(c, "list") {
        return Ok(MemscanCommand::List);
    }
    if str_eq(c, "exit") || str_eq(c, "quit") {
        return Ok(MemscanCommand::Exit);
    }
    if str_eq(c, "help") {
        return Ok(MemscanCommand::Help);
    }
    Ok(MemscanCommand::Ignore)
}

/// The commands of the injector's prompt.
#[derive(Debug, Clone, Copy, PartialEq, Eq, Structural)]
pub enum ScanCommand {
    /// An empty line.
    Empty,
    /// Search for a 32-bit integer.
    Find(i32),
    /// Write a 32-bit integer at `addr`.
    Write { addr: usize, value: i32 },
    /// Read `size` bytes at `addr`.
    Read { addr: usize, size: usize },
    /// Show the hits.
    Print,
    /// Load the library whose path is the second word.
    Inject,
    /// Keep writing a 32-bit integer at `addr`.
    Lock { addr: usize, value: i32 },
    /// Anything else: nothing happens.
    Ignore,
}

/// A 32-bit integer argument whose parse error is reported.
pub open spec fn reported_int(w: Seq<char>) -> Result<i32, CommandError> {
    match parse_i32_spec(w) {
        Ok(v) => Ok(v as i32),
        Err(k) => Err(CommandError::BadNumber(k)),
    }
}

/// An address argument whose parse error is reported.
pub open spec fn reported_addr(w: Seq<char>) -> Result<usize, CommandError> {
    match hex_addr(w) {
        Ok(v) => Ok(v as usize),
        Err(k) => Err(CommandError::BadNumber(k)),
    }
}

/// The command the injector reads from `w`.
pub open spec fn scan_command(w: Seq<Seq<char>>) -> Result<ScanCommand, CommandError> {
    if w.len() == 0 {
        Ok(ScanCommand::Empty)
    } else if w[0] == "find"@ || w[0] == "f"@ {
        if w.len() < 2 {
            Err(CommandError::Malformed)
        } else {
            match reported_int(w[1]) {
                Ok(v) => Ok(ScanCommand::Find(v)),
                Err(e) => Err(e),
            }
        }
    } else if w[0] == "write"@ || w[0] == "w"@ || w[0] == "lock"@ {
        if w.len() < 2 {
            Err(CommandError::Malformed)
        } else {
            match reported_addr(w[1]) {
                Err(e) => Err(e),
                Ok(addr) => if w.len() < 3 {
                    Err(CommandError::Malformed)
                } else {
                    match reported_int(w[2]) {
                        Err(e) => Err(e),
                        Ok(value) => if w[0] == "lock"@ {
                            Ok(ScanCommand::Lock { addr, value })
                        } else {
                            Ok(ScanCommand::Write { addr, value })
                        },
                    }
                },
            }
        }
    } else if w[0] == "read"@ || w[0] == "r"@ {
        if w.len() < 2 {
            Err(CommandError::Malformed)
        } else {
            match reported_addr(w[1]) {
                Err(e) => Err(e),
                Ok(addr) => if w.len() < 3 {
                    Err(CommandError::Malformed)
                } else {
                    match parse_uint(w[2], false, usize::MAX as int) {
                        Ok(n) => Ok(ScanCommand::Read { addr, size: n as usize }),
                        Err(k) => Err(CommandError::BadNumber(k)),
                    }
                },
            }
        }
    } else if w[0] == "print"@ || w[0] == "p"@ {
        Ok(ScanCommand::Print)
    } else if w[0] == "inject"@ || w[0] == "inj"@ {
        if w.len() < 2 {
            Err(CommandError::Malformed)
        } else {
            Ok(ScanCommand::Inject)
        }
    } else {
        Ok(ScanCommand::Ignore)
    }
}

/// A 32-bit integer argument, its parse error reported.
fn reported_int_word(w: &str) -> (r: Result<i32, CommandError>)
    ensures
        r == reported_int(w@),
{
    match parse_i32(w) {
        Ok(v) => Ok(v),
        Err(k) => Err(CommandError::BadNumber(k)),
    }
}

/// An address argument, its parse error reported.
fn reported_addr_word(w: &str) -> (r: Result<usize, CommandError>)
    ensures
        r == reported_addr(w@),
{
    match hex_word(w) {
        Ok(v) => Ok(v),
        Err(k) => Err(CommandError::BadNumber(k)),
    }
}

/// Reads a command of the injector's prompt from the words of a line.
pub fn parse_scan_command(w: &Vec<String>) -> (r: Result<ScanCommand, CommandError>)
    ensures
        r == scan_command(strings_view(w@)),
{
    let ghost v = strings_view(w@);
    if w.len() == 0 {
        return Ok(ScanCommand::Empty);
    }
    assert(v[0] == w@[0]@);
    let c = w[0].as_str();
    if str_eq(c, "find") || str_eq(c, "f") {
        if w.len() < 2 {
            return Err(CommandError::Malformed);
        }
        assert(v[1] == w@[1]@);
        let value = reported_int_word(w[1].as_str())?;
        return Ok(ScanCommand::Find(value));
    }
    let lock = str_eq(c, "lock");
    if str_eq(c, "write") || str_eq(c, "w") || lock {
        if w.len() < 2 {
            return Err(CommandError::Malformed);
        }
        assert(v[1] == w@[1]@);
        let addr = reported_addr_word(w[1].as_str())?;
        if w.len() < 3 {
            return Err(CommandError::Malformed);
        }
        assert(v[2] == w@[2]@);
        let value = reported_int_word(w[2].as_str())?;
        if lock {
            return Ok(ScanCommand::Lock { addr, value });
        }
        return Ok(ScanCommand::Write { addr, value });
    }
    if str_eq(c, "read") || str_eq(c, "r") {
        if w.len() < 2 {
            return Err(CommandError::Malformed);
        }
        assert(v[1] == w@[1]@);
        let addr = reported_addr_word(w[1].as_str())?;
        if w.len() < 3 {
            return Err(CommandError::Malformed);
        }
        assert(v[2] == w@[2]@);
        return match parse_usize_dec(w[2].as_str()) {
            Ok(n) => Ok(ScanCommand::Read { addr, size: n }),
            Err(k) => Err(CommandError::BadNumber(k)),
        };
    }
    if str_eq(c, "print") || str_eq(c, "p") {
        return Ok(ScanCommand::Print);
    }
    if str_eq(c, "inject") || str_eq(c, "inj") {
        if w.len() < 2 {
            return Err(CommandError::Malformed);
        }
        return Ok(ScanCommand::Inject);
    }
    Ok(ScanCommand::Ignore)
}

/// The commands of the search prompt.
#[derive(Debug, Clone, Copy, PartialEq, Eq, Structural)]
pub enum PromptCommand {
    /// An empty line.
    Empty,
    /// Search every region for a 32-bit integer.
    Find(i32),
    /// Narrow the hits down to a 32-bit integer.
    Refind(i32),
    /// List the hits.
    Print,
    /// Count the hits.
    Len,
    /// Write a 32-bit integer at `addr`.
    Write { addr: usize, value: i32 },
    /// Read the 32-bit integer at `addr`.
    Read { addr: usize },
    /// Leave.
    Quit,
    /// Anything else: nothing happens.
    Ignore,
}

/// The command the search prompt reads from `w`.
pub open spec fn prompt_command(w: Seq<Seq<char>>) -> Result<PromptCommand, CommandError> {
    if w.len() == 0 {
        Ok(PromptCommand::Empty)
    } else if w[0] == "find"@ || w[0] == "re"@ {
        if w.len() < 2 {
            Err(CommandError::Malformed)
        } else {
            match int_arg(w[1]) {
                Err(e) => Err(e),
                Ok(v) => if w[0] == "find"@ {
                    Ok(PromptCommand::Find(v))
                } else {
                    Ok(PromptCommand::Refind(v))
                },
            }
        }
    } else if w[0] == "p"@ {
        Ok(PromptCommand::Print)
    } else if w[0] == "len"@ {
        Ok(PromptCommand::Len)
    } else if w[0] == "w"@ {
        if w.len() < 2 {
            Err(CommandError::Malformed)
        } else {
            match addr_arg(w[1]) {
                Err(e) => Err(e),
                Ok(addr) => if w.len() < 3 {
                    Err(CommandError::Malformed)
                } else {
                    match int_arg(w[2]) {
                        Ok(value) => Ok(PromptCommand::Write { addr, value }),
                        Err(e) => Err(e),
                    }
                },
            }
        }
    } else if w[0] == "r"@ {
        if w.len() < 2 {
            Err(CommandError::Malformed)
        } else {
            match addr_arg(w[1]) {
                Ok(addr) => Ok(PromptCommand::Read { addr }),
                Err(e) => Err(e),
            }
        }
    } else if w[0] == "q"@ {
        Ok(PromptCommand::Quit)
    } else {
        Ok(PromptCommand::Ignore)
    }
}

/// Reads a command of the search prompt from the words of a line.
pub fn parse_prompt_command(w: &Vec<String>) -> (r: Result<PromptCommand, CommandError>)
    ensures
        r == prompt_command(strings_view(w@)),
{
    let ghost v = strings_view(w@);
    if w.len() == 0 {
        return Ok(PromptCommand::Empty);
    }
    assert(v[0] == w@[0]@);
    let c = w[0].as_str();
    let find = str_eq(c, "find");
    if find || str_eq(c, "re") {
        if w.len() < 2 {
            return Err(CommandError::Malformed);
        }
        assert(v[1] == w@[1]@);
        let value = int_word(w[1].as_str())?;
        if find {
            return Ok(PromptCommand::Find(value));
        }
        return Ok(PromptCommand::Refind(value));
    }
    if str_eq(c, "p") {
        return Ok(PromptCommand::Print);
    }
    if str_eq(c, "len") {
        return Ok(PromptCommand::Len);
    }
    if str_eq(c, "w") {
        if w.len() < 2 {
            return Err(CommandError::Malformed);
        }
        assert(v[1] == w@[1]@);
        let addr = addr_word(w[1].as_str())?;
        if w.len() < 3 {
            return Err(CommandError::Malformed);
        }
        assert(v[2] == w@[2]@);
        let value = int_word(w[2].as_str())?;
        return Ok(PromptCommand::Write { addr, value });
    }
    if str_eq(c, "r") {
        if w.len() < 2 {
            return Err(CommandError::Malformed);
        }
        assert(v[1] == w@[1]@);
        let addr = addr_word(w[1].as_str())?;
        return Ok(PromptCommand::Read { addr });
    }
    if str_eq(c, "q") {
        return Ok(PromptCommand::Quit);
    }
    Ok(PromptCommand::Ignore)
}

/// The word that selects each command of the value scanner that takes no
/// argument.
pub open spec fn memscan_word(c: MemscanCommand) -> Option<Seq<char>> {
    match c {
        MemscanCommand::Less => Some("<"@),
        MemscanCommand::More => Some(">"@),
        MemscanCommand::Same => Some("="@),
        MemscanCommand::Perm => Some("p"@),
        MemscanCommand::Reset => Some("reset"@),
        MemscanCommand::List => Some("list"@),
        MemscanCommand::Exit => Some("exit"@),
        MemscanCommand::Help => Some("help"@),
        _ => None,
    }
}

/// The words the value scanner knows as the first word of a line.
pub open spec fn memscan_known(w: Seq<char>) -> bool {
    w == "find"@ || w == "get"@ || w == "set"@ || w == "<"@ || w == ">"@ || w == "="@ || w == "p"@
        || w == "reset"@ || w == "lock"@ || w == "list"@ || w == "exit"@ || w == "quit"@ || w
        == "help"@
}

/// Each command of the value scanner that takes no argument is selected by
/// its own word, whatever follows it: `<` keeps the smaller values, `>` the
/// grown ones, `=` the unchanged ones, `p` changes permissions, and so on;
/// `quit` leaves as `exit` does. A line whose first word is none of the
/// scanner's words is ignored.
pub proof fn lemma_memscan_words(c: MemscanCommand, first: Seq<char>, rest: Seq<Seq<char>>)
    ensures
        memscan_word(c) matches Some(w) ==> memscan_command(seq![w] + rest) == Ok::<
            MemscanCommand,
            CommandError,
        >(c),
        memscan_command(seq!["quit"@] + rest) == Ok::<MemscanCommand, CommandError>(
            MemscanCommand::Exit,
        ),
        !memscan_known(first) ==> memscan_command(seq![first] + rest) == Ok::<
            MemscanCommand,
            CommandError,
        >(MemscanCommand::Ignore),
{
    reveal_strlit("find");
    reveal_strlit("get");
    reveal_strlit("set");
    reveal_strlit("<");
    reveal_strlit(">");
    reveal_strlit("=");
    reveal_strlit("p");
    reveal_strlit("reset");
    reveal_strlit("lock");
    reveal_strlit("list");
    reveal_strlit("exit");
    reveal_strlit("quit");
    reveal_strlit("help");
    assert("find"@[0] != "lock"@[0]);
    assert("find"@[0] != "list"@[0]);
    assert("find"@[0] != "exit"@[0]);
    assert("find"@[0] != "quit"@[0]);
    assert("find"@[0] != "help"@[0]);
    assert("get"@[0] != "set"@[0]);
    assert("<"@[0] != ">"@[0]);
    assert("<"@[0] != "="@[0]);
    assert("<"@[0] != "p"@[0]);
    assert(">"@[0] != "="@[0]);
    assert(">"@[0] != "p"@[0]);
    assert("="@[0] != "p"@[0]);
    assert("lock"@[1] != "list"@[1]);
    assert("lock"@[0] != "exit"@[0]);
    assert("lock"@[0] != "quit"@[0]);
    assert("lock"@[0] != "help"@[0]);
    assert("list"@[0] != "exit"@[0]);
    assert("list"@[0] != "quit"@[0]);
    assert("list"@[0] != "help"@[0]);
    assert("exit"@[0] != "quit"@[0]);
    assert("exit"@[0] != "help"@[0]);
    assert("quit"@[0] != "help"@[0]);
    if let Some(w) = memscan_word(c) {
        assert((seq![w] + rest)[0] == w);
    }
    assert((seq!["quit"@] + rest)[0] == "quit"@);
    assert((seq![first] + rest)[0] == first);
}

/// The word that selects each command of the search prompt that takes no
/// argument.
pub open spec fn prompt_word(c: PromptCommand) -> Option<Seq<char>> {
    match c {
        PromptCommand::Print => Some("p"@),
        PromptCommand::Len => Some("len"@),
        PromptCommand::Quit => Some("q"@),
        _ => None,
    }
}

/// The words the search prompt knows as the first word of a line.
pub open spec fn prompt_known(w: Seq<char>) -> bool {
    w == "find"@ || w == "re"@ || w == "p"@ || w == "len"@ || w == "w"@ || w == "r"@ || w == "q"@
}

/// Each command of the search prompt that takes no argument is selected by
/// its own word, whatever follows it: `p` lists the hits, `len` counts
/// them, `q` leaves. `find` and `re` followed by a number search for it and
/// narrow the hits to it. A line whose first word is none of the prompt's
/// words is ignored.
pub proof fn lemma_prompt_words(c: PromptCommand, first: Seq<char>, x: Seq<char>, rest: Seq<Seq<char>>)
    ensures
        prompt_word(c) matches Some(w) ==> prompt_command(seq![w] + rest) == Ok::<
            PromptCommand,
            CommandError,
        >(c),
        parse_i32_spec(x) matches Ok(v) ==> prompt_command(seq!["find"@, x] + rest) == Ok::<
            PromptCommand,
            CommandError,
        >(PromptCommand::Find(v as i32)) && prompt_command(seq!["re"@, x] + rest) == Ok::<
            PromptCommand,
            CommandError,
        >(PromptCommand::Refind(v as i32)),
        !prompt_known(first) ==> prompt_command(seq![first] + rest) == Ok::<
            PromptCommand,
            CommandError,
        >(PromptCommand::Ignore),
{
    reveal_strlit("find");
    reveal_strlit("re");
    reveal_strlit("p");
    reveal_strlit("len");
    reveal_strlit("w");
    reveal_strlit("r");
    reveal_strlit("q");
    assert("p"@[0] != "w"@[0]);
    assert("p"@[0] != "r"@[0]);
    assert("p"@[0] != "q"@[0]);
    assert("w"@[0] != "r"@[0]);
    assert("w"@[0] != "q"@[0]);
    assert("r"@[0] != "q"@[0]);
    if let Some(w) = prompt_word(c) {
        assert((seq![w] + rest)[0] == w);
    }
    assert((seq!["find"@, x] + rest)[0] == "find"@);
    assert((seq!["find"@, x] + rest)[1] == x);
    assert((seq!["re"@, x] + rest)[0] == "re"@);
    assert((seq!["re"@, x] + rest)[1] == x);
    assert((seq![first] + rest)[0] == first);
}

/// The words the injector's prompt knows as the first word of a line.
pub open spec fn scan_known(w: Seq<char>) -> bool {
    w == "find"@ || w == "f"@ || w == "write"@ || w == "w"@ || w == "lock"@ || w == "read"@ || w
        == "r"@ || w == "print"@ || w == "p"@ || w == "inject"@ || w == "inj"@
}

/// The injector's prompt: `print` and `p` show the hits whatever follows;
/// `find` and `f` followed by a number search for it; a line whose first
/// word is none of the prompt's words is ignored.
pub proof fn lemma_scan_words(first: Seq<char>, x: Seq<char>, rest: Seq<Seq<char>>)
    ensures
        scan_command(seq!["print"@] + rest) == Ok::<ScanCommand, CommandError>(ScanCommand::Print),
        scan_command(seq!["p"@] + rest) == Ok::<ScanCommand, CommandError>(ScanCommand::Print),
        parse_i32_spec(x) matches Ok(v) ==> scan_command(seq!["find"@, x] + rest) == Ok::<
            ScanCommand,
            CommandError,
        >(ScanCommand::Find(v as i32)) && scan_command(seq!["f"@, x] + rest) == Ok::<
            ScanCommand,
            CommandError,
        >(ScanCommand::Find(v as i32)),
        !scan_known(first) ==> scan_command(seq![first] + rest) == Ok::<ScanCommand, CommandError>(
            ScanCommand::Ignore,
        ),
{
    reveal_strlit("find");
    reveal_strlit("f");
    reveal_strlit("write");
    reveal_strlit("w");
    reveal_strlit("lock");
    reveal_strlit("read");
    reveal_strlit("r");
    reveal_strlit("print");
    reveal_strlit("p");
    reveal_strlit("inject");
    reveal_strlit("inj");
    assert("find"@[0] != "lock"@[0]);
    assert("find"@[0] != "read"@[0]);
    assert("f"@[0] != "w"@[0]);
    assert("f"@[0] != "r"@[0]);
    assert("f"@[0] != "p"@[0]);
    assert("write"@[0] != "print"@[0]);
    assert("w"@[0] != "r"@[0]);
    assert("w"@[0] != "p"@[0]);
    assert("lock"@[0] != "read"@[0]);
    assert("r"@[0] != "p"@[0]);
    assert((seq!["print"@] + rest)[0] == "print"@);
    assert((seq!["p"@] + rest)[0] == "p"@);
    assert((seq!["find"@, x] + rest)[0] == "find"@);
    assert((seq!["find"@, x] + rest)[1] == x);
    assert((seq!["f"@, x] + rest)[0] == "f"@);
    assert((seq!["f"@, x] + rest)[1] == x);
    assert((seq![first] + rest)[0] == first);
}

} // verus!
