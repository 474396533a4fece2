//! The diagnostic that both stages report: a message and a line.

use vstd::prelude::*;
use vstd::string::StringExecFns;

verus! {

/// `String::push` appends one character to the end of the string.
pub assume_specification[ String::push ](s: &mut String, c: char)
    ensures
        final(s)@ == old(s)@.push(c),
;

/// A diagnostic as contracts speak of it: the message text and a line number
/// that counts from one.
pub struct Diagnostic {
    pub message: Seq<char>,
    pub line: int,
}

/// The first defect found in a document.
#[derive(Debug, Clone, PartialEq, Eq)]
pub struct JSONError {
    message: String,
    line: i64,
}

impl View for JSONError {
    type V = Diagnostic;

    closed spec fn view(&self) -> Diagnostic {
        Diagnostic { message: self.message@, line: self.line as int }
    }
}

/// The character that writes the decimal digit `d`.
pub open spec fn digit_char(d: nat) -> char
    recommends
        d < 10,
{
    if d == 0 {
        '0'
    } else if d == 1 {
        '1'
    } else if d == 2 {
        '2'
    } else if d == 3 {
        '3'
    } else if d == 4 {
        '4'
    } else if d == 5 {
        '5'
    } else if d == 6 {
        '6'
    } else if d == 7 {
        '7'
    } else if d == 8 {
        '8'
    } else {
        '9'
    }
}

/// The decimal numeral of `n`, without leading zeros.
pub open spec fn decimal(n: nat) -> Seq<char>
    decreases n,
{
    if n < 10 {
        seq![digit_char(n)]
    } else {
        decimal(n / 10).push(digit_char(n % 10))
    }
}

/// The decimal numeral of `n`, with a minus sign where `n` is negative.
pub open spec fn signed_decimal(n: int) -> Seq<char> {
    if n < 0 {
        seq!['-'] + decimal((-n) as nat)
    } else {
        decimal(n as nat)
    }
}

/// The text shown for a diagnostic: the message, then `: at line `, then the
/// line number.
pub open spec fn rendered(d: Diagnostic) -> Seq<char> {
    d.message + ": at line "@ + signed_decimal(d.line)
}

/// The line that follows `line`. The counter stops at the largest value that
/// the line field can hold.
pub open spec fn next_line(line: int) -> int {
    if line < i64::MAX {
        line + 1
    } else {
        line
    }
}

/// The executable form of [`next_line`].
pub fn following_line(line: i64) -> (next: i64)
    ensures
        next == next_line(line as int),
{
    if line < i64::MAX {
        line + 1
    } else {
        line
    }
}

fn digit(d: u64) -> (c: char)
    requires
        d < 10,
    ensures
        c == digit_char(d as nat),
{
    if d == 0 {
        '0'
    } else if d == 1 {
        '1'
    } else if d == 2 {
        '2'
    } else if d == 3 {
        '3'
    } else if d == 4 {
        '4'
    } else if d == 5 {
        '5'
    } else if d == 6 {
        '6'
    } else if d == 7 {
        '7'
    } else if d == 8 {
        '8'
    } else {
        '9'
    }
}

fn push_decimal(out: &mut String, n: u64)
    ensures
        final(out)@ == old(out)@ + decimal(n as nat),
    decreases n,
{
    if n >= 10 {
        push_decimal(out, n / 10);
    }
    out.push(digit(n % 10));
}

impl JSONError {
    pub fn new(message: String, line: i64) -> (e: JSONError)
        ensures
            e@ == (Diagnostic { message: message@, line: line as int }),
    {
        JSONError { message, line }
    }

    /// The text of the diagnostic, as [`rendered`] defines it.
    pub fn to_string(&self) -> (s: String)
        ensures
            s@ == rendered(self@),
    {
        let mut s = self.message.clone();
        s.append(": at line ");
        if self.line < 0 {
            s.push('-');
            let magnitude: u64 = if self.line == i64::MIN {
                9223372036854775808u64
            } else {
                (-self.line) as u64
            };
            push_decimal(&mut s, magnitude);
        } else {
            push_decimal(&mut s, self.line as u64);
        }
        s
    }
}

} // verus!
