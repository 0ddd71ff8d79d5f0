//! The failure taxonomy shared by every fallible operation of the library.

use vstd::prelude::*;

verus! {

/// What can go wrong while parsing records, parsing commands, or performing
/// a command against the store.
#[derive(Clone, Copy, Debug, PartialEq, Eq, Structural)]
pub enum Errors {
    /// An underlying input/output failure; raised only by the surrounding
    /// program, never by the library itself.
    Io,
    /// A numeric field failed integer parsing.
    Parse,
    /// A numeric or date value failed domain validation.
    InvalidValue,
    /// Wrong field count, or a missing required command argument.
    InvalidFormat,
    /// An unrecognized command verb.
    NotFound,
}

/// The diagnostic text for each error kind.
pub open spec fn message_text(e: Errors) -> Seq<char> {
    match e {
        Errors::Io => "IO error occured"@,
        Errors::Parse => "Parse error occured"@,
        Errors::InvalidValue => "Invalid value"@,
        Errors::InvalidFormat => "Invalid format"@,
        Errors::NotFound => "Command not found"@,
    }
}

impl Errors {
    /// A human-readable diagnostic for this error.
    pub fn message(&self) -> (r: String)
        ensures
            r@ == message_text(*self),
    {
        match *self {
            Errors::Io => "IO error occured".to_owned(),
            Errors::Parse => "Parse error occured".to_owned(),
            Errors::InvalidValue => "Invalid value".to_owned(),
            Errors::InvalidFormat => "Invalid format".to_owned(),
            Errors::NotFound => "Command not found".to_owned(),
        }
    }
}

} // verus!
