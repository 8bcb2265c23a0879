//! Unit files: the INI-like text that describes a systemd unit.
//!
//! The crate parses such text into a [`SystemdUnit`], an ordered document of
//! sections and key-value entries, lets the document be read and changed, and
//! writes it back as text. It also holds the codec between the literal form
//! of a value and the string it means ([`quote_value`], [`unquote_value`]),
//! and two tokenizers that split a value into words ([`SplitStrv`],
//! [`SplitWord`]).

pub mod cursor;
pub mod multimap;
pub mod parser;
pub mod quoted;
pub mod roundtrip;
pub mod split;
pub mod text;
pub mod unit;
pub mod value;
pub mod wordlist;

use vstd::prelude::*;
use vstd::string::*;

pub use crate::parser::{ParseError, Parser};
pub use crate::quoted::{quote_value, quote_words, unquote_value};
pub use crate::split::{SplitStrv, SplitWord};
pub use crate::unit::SystemdUnit;
pub use crate::value::{parse_bool, EntryValue};

verus! {

/// What can go wrong: a word that is no boolean, a literal with a
/// malformed escape, a text that is no unit file.
#[derive(Debug)]
#[non_exhaustive]
pub enum Error {
    ParseBool,
    Unquoting(String),
    Unit(ParseError),
}

/// Two errors are equal when they are of one kind and say the same.
impl PartialEq for Error {
    fn eq(&self, other: &Self) -> (r: bool) {
        match (self, other) {
            (Error::ParseBool, Error::ParseBool) => true,
            (Error::Unquoting(a), Error::Unquoting(b)) => *a == *b,
            (Error::Unit(a), Error::Unit(b)) => *a == *b,
            _ => false,
        }
    }
}

impl vstd::std_specs::cmp::PartialEqSpecImpl for Error {
    open spec fn obeys_eq_spec() -> bool {
        true
    }

    open spec fn eq_spec(&self, other: &Self) -> bool {
        match (self, other) {
            (Error::ParseBool, Error::ParseBool) => true,
            (Error::Unquoting(a), Error::Unquoting(b)) => a@ == b@,
            (Error::Unit(a), Error::Unit(b)) => vstd::std_specs::cmp::PartialEqSpec::eq_spec(a, b),
            _ => false,
        }
    }
}

impl Error {
    /// The error as a sentence.
    pub open spec fn text(&self) -> Seq<char> {
        match self {
            Error::ParseBool => {
                "value must be one of `1`, `yes`, `true`, `on`, `0`, `no`, `false`, `off`"@
            },
            Error::Unquoting(msg) => "failed unquoting value: "@ + msg@,
            Error::Unit(e) => "failed to parse unit file: "@ + e.text(),
        }
    }

    /// The error as a sentence.
    pub fn to_string(&self) -> (s: String)
        ensures
            s@ == self.text(),
    {
        match self {
            Error::ParseBool => String::from_str(
                "value must be one of `1`, `yes`, `true`, `on`, `0`, `no`, `false`, `off`",
            ),
            Error::Unquoting(msg) => {
                let mut s = String::from_str("failed unquoting value: ");
                s.append(msg.as_str());
                s
            },
            Error::Unit(e) => {
                let mut s = String::from_str("failed to parse unit file: ");
                s.append(e.to_string().as_str());
                s
            },
        }
    }
}

impl From<ParseError> for Error {
    fn from(e: ParseError) -> (r: Self) {
        Error::Unit(e)
    }
}

impl vstd::std_specs::convert::FromSpecImpl<ParseError> for Error {
    open spec fn obeys_from_spec() -> bool {
        true
    }

    open spec fn from_spec(e: ParseError) -> Self {
        Error::Unit(e)
    }
}

} // verus!
