//! A one-line text progress bar.

use crate::text::push_char;
use vstd::prelude::*;

verus! {

/// The size of a terminal window, as the terminal reports it.
#[derive(Debug, Default, Clone, Copy)]
pub struct WinSize {
    pub ws_row: u16,
    pub ws_col: u16,
    pub ws_xpixel: u16,
    pub ws_ypixel: u16,
}

/// A progress bar over `count` steps, `length` cells wide.
pub struct ProgressBar {
    progress: usize,
    count: usize,
    pub length: usize,
    pub start_char: char,
    pub end_char: char,
    pub progress_char: char,
    pub tip_char: char,
    pub empty_char: char,
}

/// The character of the decimal digit `d`.
pub open spec fn digit_char(d: int) -> char {
    if d == 0 {
        '0'
    } else if d == 1 {
        '1'
    } else if d == 2 {
        '2'
    } else if d == 3 {
        '3'
    } else if d == 4 {
        '4'
    } else if d == 5 {
        '5'
    } else if d == 6 {
        '6'
    } else if d == 7 {
        '7'
    } else if d == 8 {
        '8'
    } else {
        '9'
    }
}

/// The decimal numeral of `n`, without leading zeros.
pub open spec fn decimal(n: nat) -> Seq<char>
    decreases n,
{
    if n < 10 {
        seq![digit_char(n as int)]
    } else {
        decimal(n / 10).push(digit_char((n % 10) as int))
    }
}

/// The cells of a bar `length` wide with `filled` steps done: the progress
/// character before `filled`, the tip at `filled`, the empty character after.
pub open spec fn cells(length: nat, filled: int, done: char, tip: char, empty: char) -> Seq<char> {
    Seq::new(length, |i: int| if i < filled { done } else if i == filled { tip } else { empty })
}

/// The character of the digit `d`.
fn digit(d: usize) -> (c: char)
    requires
        d < 10,
    ensures
        c == digit_char(d as int),
{
    match d {
        0 => '0',
        1 => '1',
        2 => '2',
        3 => '3',
        4 => '4',
        5 => '5',
        6 => '6',
        7 => '7',
        8 => '8',
        _ => '9',
    }
}

/// Appends the decimal numeral of `n` to `s`.
pub fn push_decimal(s: &mut String, n: usize)
    ensures
        final(s)@ == old(s)@ + decimal(n as nat),
    decreases n,
{
    if n >= 10 {
        push_decimal(s, n / 10);
    }
    push_char(s, digit(n % 10));
    assert(s@ =~= old(s)@ + decimal(n as nat));
}

impl ProgressBar {
    /// Steps done so far.
    pub closed spec fn spec_progress(&self) -> nat {
        self.progress as nat
    }

    /// Steps in all.
    pub closed spec fn spec_count(&self) -> nat {
        self.count as nat
    }

    /// Width of the bar in cells.
    pub closed spec fn spec_length(&self) -> nat {
        self.length as nat
    }

    /// The start, end, progress, tip and empty characters.
    pub closed spec fn spec_glyphs(&self) -> (char, char, char, char, char) {
        (self.start_char, self.end_char, self.progress_char, self.tip_char, self.empty_char)
    }

    /// A bar over `count` steps, twenty columns narrower than a terminal of
    /// `term.ws_col` columns, drawn as `[===>---]`.
    pub fn new(count: usize, term: WinSize) -> (r: ProgressBar)
        requires
            term.ws_col >= 20,
        ensures
            r.spec_progress() == 0,
            r.spec_count() == count,
            r.spec_length() == term.ws_col - 20,
            r.spec_glyphs() == ('[', ']', '=', '>', '-'),
    {
        ProgressBar {
            progress: 0,
            count: count,
            length: term.ws_col as usize - 20,
            start_char: '[',
            end_char: ']',
            progress_char: '=',
            tip_char: '>',
            empty_char: '-',
        }
    }

    /// The line drawn after `progress` of `count` steps.
    pub open spec fn render(&self, progress: nat, count: nat) -> Seq<char> {
        let (start, end, done, tip, empty) = self.spec_glyphs();
        let length = self.spec_length();
        seq![start] + cells(length, (progress * length) as int / count as int, done, tip, empty)
            + seq![end, ' '] + decimal(progress) + seq!['/'] + decimal(count) + seq![' ']
    }

    /// Counts one more step and returns the line to draw for it.
    pub fn inc(&mut self) -> (r: String)
        requires
            old(self).spec_count() > 0,
            old(self).spec_progress() < usize::MAX,
            (old(self).spec_progress() + 1) * old(self).spec_length() <= usize::MAX,
        ensures
            final(self).spec_progress() == old(self).spec_progress() + 1,
            final(self).spec_count() == old(self).spec_count(),
            final(self).spec_length() == old(self).spec_length(),
            final(self).spec_glyphs() == old(self).spec_glyphs(),
            r@ == final(self).render(final(self).spec_progress(), final(self).spec_count()),
    {
        self.progress = self.progress + 1;
        let num_progress = (self.progress * self.length) / self.count;
        let mut output = String::new();
        push_char(&mut output, self.start_char);
        let ghost base = output@;
        let ghost want = cells(
            self.length as nat,
            num_progress as int,
            self.progress_char,
            self.tip_char,
            self.empty_char,
        );
        let mut i: usize = 0;
        while i < self.length
            invariant
                i <= self.length,
                base == seq![self.start_char],
                want == cells(
                    self.length as nat,
                    num_progress as int,
                    self.progress_char,
                    self.tip_char,
                    self.empty_char,
                ),
                output@ == base + want.take(i as int),
            decreases self.length - i,
        {
            let c = if i < num_progress {
                self.progress_char
            } else if i == num_progress {
                self.tip_char
            } else {
                self.empty_char
            };
            push_char(&mut output, c);
            assert(want.take(i + 1 as int) =~= want.take(i as int).push(c));
            i = i + 1;
        }
        assert(want.take(self.length as int) =~= want);
        push_char(&mut output, self.end_char);
        push_char(&mut output, ' ');
        push_decimal(&mut output, self.progress);
        push_char(&mut output, '/');
        push_decimal(&mut output, self.count);
        push_char(&mut output, ' ');
        assert(output@ =~= self.render(self.progress as nat, self.count as nat));
        output
    }
}

} // verus!
