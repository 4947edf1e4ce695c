//! The options for writing a pack and its index.

use std::str::FromStr;
use vstd::prelude::*;

verus! {

/// What to do with the entries of a pack while they are read.
#[derive(PartialEq, Eq, Debug, Clone, Copy, Structural)]
pub enum IterationMode {
    /// Take the entries as they are.
    AsIs,
    /// Check each entry and fail at the first that is broken.
    Verify,
    /// Keep what can be read and leave out what is broken.
    Restore,
}

/// How to write a pack and its index.
pub struct Context {
    /// The number of threads to use at most, if there is a limit.
    pub thread_limit: Option<usize>,
    /// What to do with the entries while they are read.
    pub iteration_mode: IterationMode,
}

/// The lower-case letter for an upper-case ASCII letter; any other character itself.
pub open spec fn ascii_lowercase_of(c: char) -> char {
    if 'A' <= c && c <= 'Z' {
        ((c as u32 + 32) as u8) as char
    } else {
        c
    }
}

/// The text with each upper-case ASCII letter replaced by its lower-case letter.
pub open spec fn ascii_lowercase(text: Seq<char>) -> Seq<char> {
    Seq::new(text.len(), |i: int| ascii_lowercase_of(text[i]))
}

/// The text in ASCII lower case.
///
/// Calls `str::to_ascii_lowercase`. Trusted: the result has the characters of the
/// text, with 'A' to 'Z' replaced by 'a' to 'z' and all others unchanged.
#[verifier::external_body]
fn to_ascii_lowercase(text: &str) -> (lowered: String)
    ensures
        lowered@ == ascii_lowercase(text@),
{
    text.to_ascii_lowercase()
}

impl IterationMode {
    /// The name of the mode.
    pub open spec fn name(self) -> Seq<char> {
        match self {
            IterationMode::AsIs => "as-is"@,
            IterationMode::Verify => "verify"@,
            IterationMode::Restore => "restore"@,
        }
    }

    /// The names of all modes.
    pub fn variants() -> (names: &'static [&'static str])
        ensures
            names@.len() == 3,
            names@[0]@ == IterationMode::AsIs.name(),
            names@[1]@ == IterationMode::Verify.name(),
            names@[2]@ == IterationMode::Restore.name(),
    {
        &["as-is", "verify", "restore"]
    }

    /// The mode whose name is `name`, whatever the case of its letters.
    pub fn from_name(name: &str) -> (parsed: Result<IterationMode, String>)
        ensures
            match parsed {
                Ok(mode) => ascii_lowercase(name@) == mode.name(),
                Err(message) => message@ == "invalid value"@ && forall|mode: IterationMode|
                    ascii_lowercase(name@) != #[trigger] mode.name(),
            },
    {
        let lowered = to_ascii_lowercase(name);
        proof {
            reveal_strlit("as-is");
            reveal_strlit("verify");
            reveal_strlit("restore");
        }
        if lowered == "as-is".to_owned() {
            Ok(IterationMode::AsIs)
        } else if lowered == "verify".to_owned() {
            Ok(IterationMode::Verify)
        } else if lowered == "restore".to_owned() {
            Ok(IterationMode::Restore)
        } else {
            assert forall|mode: IterationMode| ascii_lowercase(name@) != #[trigger] mode.name() by {
                match mode {
                    IterationMode::AsIs => {},
                    IterationMode::Verify => {},
                    IterationMode::Restore => {},
                }
            }
            Err("invalid value".to_owned())
        }
    }
}

impl Default for IterationMode {
    /// The mode that checks each entry.
    fn default() -> (mode: IterationMode)
        ensures
            mode == IterationMode::Verify,
    {
        IterationMode::Verify
    }
}

impl FromStr for IterationMode {
    type Err = String;

    /// The mode whose name is `s`, whatever the case of its letters; any other
    /// text is an invalid value.
    fn from_str(s: &str) -> (parsed: Result<IterationMode, String>)
        ensures
            match parsed {
                Ok(mode) => ascii_lowercase(s@) == mode.name(),
                Err(message) => message@ == "invalid value"@ && forall|mode: IterationMode|
                    ascii_lowercase(s@) != #[trigger] mode.name(),
            },
    {
        IterationMode::from_name(s)
    }
}

} // verus!
