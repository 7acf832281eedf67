//! exhash — a verified line-addressed text editor.
//!
//! Every command addresses lines by a *verified address*: a 1-based line
//! number paired with a 16-bit content hash. A script is refused whenever an
//! addressed line's current hash disagrees with the hash written in the
//! address, so edits cannot silently land on a line that changed since the
//! address was computed.

use vstd::prelude::*;

pub mod chars;
pub mod lnhash;
pub mod engine;
pub mod laws;
pub mod model;
pub mod parse;
pub mod pattern;

pub use engine::{edit_text, EditResult};
pub use lnhash::{format_lnhash, line_hash_u16, parse_lnhash, parse_lnhash_prefix, LnHash};
pub use parse::{
    parse_commands_from_args, parse_commands_from_script, parse_commands_from_strs, Command,
    Subcommand, Subst,
};

verus! {

/// Whether a byte buffer holds a NUL byte.
pub open spec fn has_nul(bytes: Seq<u8>) -> bool {
    exists|i: int| 0 <= i < bytes.len() && bytes[i] == 0
}

/// A file is treated as binary, and refused by callers, when it contains
/// a NUL byte.
pub fn is_binary(bytes: &[u8]) -> (r: bool)
    ensures
        r == has_nul(bytes@),
{
    let mut i: usize = 0;
    while i < bytes.len()
        invariant
            i <= bytes@.len(),
            forall|k: int| 0 <= k < i ==> bytes@[k] != 0,
        decreases bytes@.len() - i,
    {
        if bytes[i] == 0 {
            return true;
        }
        i = i + 1;
    }
    false
}

/// Library error type: a single error kind carrying a human-readable message.
#[derive(Debug, Clone)]
pub struct EditError {
    msg: String,
}

impl EditError {
    /// The message carried by this error, as a sequence of characters.
    pub closed spec fn text(&self) -> Seq<char> {
        self.msg@
    }

    /// Build an error carrying `msg`.
    pub fn new(msg: String) -> (e: EditError)
        ensures
            e.text() == msg@,
    {
        EditError { msg }
    }

    /// Build an error from a string literal.
    pub fn from_text(msg: &str) -> (e: EditError)
        ensures
            e.text() == msg@,
    {
        EditError { msg: String::from_str(msg) }
    }

    /// Human-friendly error message.
    pub fn message(&self) -> (m: &str)
        ensures
            m@ == self.text(),
    {
        self.msg.as_str()
    }
}

} // verus!
