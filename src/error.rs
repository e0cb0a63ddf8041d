//! What can go wrong when a configuration is read, parsed or written.

use vstd::prelude::*;

verus! {

/// `std::io::Error`, carried through unchanged and never looked into.
#[verifier::external_type_specification]
#[verifier::external_body]
pub struct ExIoError(std::io::Error);

#[derive(Debug)]
pub enum NginxParserError {
    /// Reading or writing a file failed; holds the system's error.
    IoError(std::io::Error),
    /// The text does not follow the grammar. `offset` counts characters from
    /// the start of the text; `line` and `column` count from 1.
    ParseError { offset: usize, line: usize, column: usize },
    /// A directive could not be built from the parse.
    InvalidDirective(String),
}

/// The line (from 1) on which the character at `off` stands.
pub open spec fn line_at(s: Seq<char>, off: int) -> nat
    decreases off,
{
    if off <= 0 {
        1
    } else if s[off - 1] == '\n' {
        line_at(s, off - 1) + 1
    } else {
        line_at(s, off - 1)
    }
}

/// The column (from 1) at which the character at `off` stands.
pub open spec fn column_at(s: Seq<char>, off: int) -> nat
    decreases off,
{
    if off <= 0 {
        1
    } else if s[off - 1] == '\n' {
        1
    } else {
        column_at(s, off - 1) + 1
    }
}

/// The parse error for the character at `off` of `s`.
pub fn parse_error_at(s: &Vec<char>, off: usize) -> (r: NginxParserError)
    requires
        off <= s.len(),
        off < usize::MAX,
    ensures
        match r {
            NginxParserError::ParseError { offset, line, column } => offset == off && line
                == line_at(s@, off as int) && column == column_at(s@, off as int),
            _ => false,
        },
{
    let mut line: usize = 1;
    let mut column: usize = 1;
    let mut k: usize = 0;
    while k < off
        invariant
            k <= off <= s.len(),
            off < usize::MAX,
            line == line_at(s@, k as int),
            column == column_at(s@, k as int),
            line <= k + 1,
            column <= k + 1,
        decreases off - k,
    {
        if s[k] == '\n' {
            line = line + 1;
            column = 1;
        } else {
            column = column + 1;
        }
        k = k + 1;
    }
    NginxParserError::ParseError { offset: off, line, column }
}

} // verus!
