//! Errors in tnv source or in building a network, with their positions.

use vstd::prelude::*;

use crate::text::{int_text, nat_text, push_chars, push_nat, string_copy, string_of};

verus! {

/// A position in tnv source text, 1-based.
#[derive(Clone, Copy, Debug, PartialEq, Eq, Structural)]
pub struct Pos {
    pub line: usize,
    pub col: usize,
}

impl Default for Pos {
    fn default() -> (p: Pos)
        ensures
            p.line == 0 && p.col == 0,
    {
        Pos { line: 0, col: 0 }
    }
}

/// `line:col`.
pub open spec fn pos_text(p: Pos) -> Seq<char> {
    nat_text(p.line as nat) + seq![':'] + nat_text(p.col as nat)
}

impl Pos {
    /// The position as text, `line:col`.
    pub fn to_text(&self) -> (s: String)
        ensures
            s@ == pos_text(*self),
    {
        let mut out: Vec<char> = Vec::new();
        push_nat(&mut out, self.line as u64);
        out.push(':');
        push_nat(&mut out, self.col as u64);
        string_of(out.as_slice())
    }
}

/// An error in tnv source, or in building a network.
#[derive(Clone, Debug, PartialEq)]
pub struct Error {
    /// Where the error was found; `None` for errors raised through the API.
    pub pos: Option<Pos>,
    pub message: String,
}

/// `line:col: message`, or the message alone.
pub open spec fn error_text(pos: Option<Pos>, message: Seq<char>) -> Seq<char> {
    match pos {
        Some(p) => pos_text(p) + seq![':', ' '] + message,
        None => message,
    }
}

impl Error {
    pub fn at(pos: Pos, message: String) -> (e: Self)
        ensures
            e.pos == Some(pos),
            e.message@ == message@,
    {
        Error { pos: Some(pos), message }
    }

    pub fn new(message: String) -> (e: Self)
        ensures
            e.pos.is_none(),
            e.message@ == message@,
    {
        Error { pos: None, message }
    }

    /// Attach a position unless the error already has one.
    pub fn or_at(self, pos: Pos) -> (e: Self)
        ensures
            e.pos == (match self.pos {
                Some(p) => Some(p),
                None => Some(pos),
            }),
            e.message@ == self.message@,
    {
        let mut e = self;
        if e.pos.is_none() {
            e.pos = Some(pos);
        }
        e
    }

    /// The error as text, `line:col: message` when it has a position.
    pub fn to_text(&self) -> (s: String)
        ensures
            s@ == error_text(self.pos, self.message@),
    {
        match self.pos {
            Some(p) => {
                let mut out: Vec<char> = Vec::new();
                push_nat(&mut out, p.line as u64);
                out.push(':');
                push_nat(&mut out, p.col as u64);
                out.push(':');
                out.push(' ');
                let m = crate::text::chars_of(self.message.as_str());
                push_chars(&mut out, m.as_slice());
                string_of(out.as_slice())
            },
            None => string_copy(&self.message),
        }
    }
}

/// An error with a message made of characters, at a position.
pub fn error_at(pos: Pos, message: &[char]) -> (e: Error)
    ensures
        e.pos == Some(pos),
        e.message@ == message@,
{
    Error::at(pos, string_of(message))
}

/// An error with a message made of characters, without a position.
pub fn error_new(message: &[char]) -> (e: Error)
    ensures
        e.pos.is_none(),
        e.message@ == message@,
{
    Error::new(string_of(message))
}

} // verus!
