//! Small pieces of the interactive scanner: the terminal size record, the
//! memory pinning hooks and the command-line reader's state.

use vstd::prelude::*;

verus! {

/// The size of a terminal window, as the terminal reports it.
#[derive(Debug, Default, Clone, Copy)]
pub struct WinSize {
    pub ws_row: u16,
    pub ws_col: u16,
    pub ws_xpixel: u16,
    pub ws_ypixel: u16,
}

/// Pins the scanner's own pages in memory (nothing to do yet).
pub fn lock() {
}

/// Releases pinned pages (nothing to do yet).
pub fn unlock() {
}

/// The commands the reader knows.
#[derive(Debug, Clone, Copy, PartialEq, Eq, Structural)]
pub enum Cmd {
    FIND,
    SET,
}

/// A command-line reader: the command in progress and the prompt shown.
pub struct ReadLine {
    pub cmd: Cmd,
    pub prompt: String,
}

impl ReadLine {
    /// A reader showing the prompt `c`, ready for a search.
    pub fn new(c: String) -> (r: ReadLine)
        ensures
            r.cmd == Cmd::FIND,
            r.prompt@ == c@,
    {
        ReadLine { cmd: Cmd::FIND, prompt: c }
    }
}

} // verus!
