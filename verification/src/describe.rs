//! The name that describes a commit: the nearest name, the distance to it and the
//! abbreviated id of the commit.

use vstd::prelude::*;
use vstd::utf8::encode_utf8;
use crate::bytes::{decimal_digits, push_bytes, push_decimal};

verus! {

/// The lower-case hexadecimal digit for a value below 16, as an ASCII byte.
pub open spec fn hex_digit(nibble: int) -> u8 {
    if nibble < 10 {
        (48 + nibble) as u8
    } else {
        (87 + nibble) as u8
    }
}

/// The bytes in lower-case hexadecimal digits, two for each byte, the higher half
/// of a byte first.
pub open spec fn hex_of(bytes: Seq<u8>) -> Seq<u8> {
    Seq::new(
        2 * bytes.len(),
        |i: int|
            if i % 2 == 0 {
                hex_digit(bytes[i / 2] as int / 16)
            } else {
                hex_digit(bytes[i / 2] as int % 16)
            },
    )
}

/// The first `len` hexadecimal digits of `id`, or all 40 where `len` is larger.
pub open spec fn abbreviated(id: Seq<u8>, len: usize) -> Seq<u8> {
    hex_of(id).take(if len < 40 { len as int } else { 40 })
}

/// The first `len` hexadecimal digits of `id`.
///
/// Calls `gix_hash::oid::to_hex_with_len` on the id made by `gix_hash::ObjectId::from`
/// and takes the text that its `Display` writes. Trusted: that text holds the
/// bytes of the id as lower-case hexadecimal digits, cut to `len` digits where
/// `len` is below 40.
#[verifier::external_body]
fn to_hex_with_len(id: &[u8; 20], len: usize) -> (hex: Vec<u8>)
    ensures
        hex@ == abbreviated(id@, len),
{
    gix_hash::ObjectId::from(*id).to_hex_with_len(len).to_string().into_bytes()
}

/// How a commit is described.
#[derive(Clone, Debug, PartialEq, Eq)]
pub struct Outcome {
    /// The name that is nearest to the commit.
    pub name: Vec<u8>,
    /// The id of the commit.
    pub id: [u8; 20],
    /// The number of hexadecimal digits of the id to show.
    pub hex_len: usize,
    /// The number of commits between the name and the commit.
    pub depth: usize,
    /// Whether to show the distance and the id even where the name is that of the
    /// commit itself.
    pub long: bool,
    /// What to add where the working tree has changes.
    pub dirty_suffix: Option<String>,
}

/// The mathematical value of an [`Outcome`].
pub struct OutcomeView {
    pub name: Seq<u8>,
    pub id: Seq<u8>,
    pub hex_len: usize,
    pub depth: usize,
    pub long: bool,
    pub dirty_suffix: Option<Seq<u8>>,
}

impl View for Outcome {
    type V = OutcomeView;

    open spec fn view(&self) -> OutcomeView {
        OutcomeView {
            name: self.name@,
            id: self.id@,
            hex_len: self.hex_len,
            depth: self.depth,
            long: self.long,
            dirty_suffix: match self.dirty_suffix {
                Some(suffix) => Some(encode_utf8(suffix@)),
                None => None,
            },
        }
    }
}

impl OutcomeView {
    /// The description without what is added for a changed working tree: the name
    /// alone where it is the name of the commit itself and no more is asked for, else
    /// the name, the distance and `g` with the abbreviated id, with `-` between them.
    pub open spec fn stem(self) -> Seq<u8> {
        if !self.long && self.depth == 0 {
            self.name
        } else {
            (self.name.push(45) + decimal_digits(self.depth as nat)).push(45).push(103)
                + abbreviated(self.id, self.hex_len)
        }
    }

    /// The description: the stem, and `-` with the suffix where there is one.
    pub open spec fn text(self) -> Seq<u8> {
        match self.dirty_suffix {
            Some(suffix) => self.stem().push(45) + suffix,
            None => self.stem(),
        }
    }
}

impl Outcome {
    /// The description of the commit `id` that bears `name` itself.
    pub fn exact(name: Vec<u8>, id: [u8; 20], hex_len: usize) -> (outcome: Outcome)
        ensures
            outcome@ == (OutcomeView {
                name: name@,
                id: id@,
                hex_len,
                depth: 0,
                long: false,
                dirty_suffix: None,
            }),
    {
        Outcome { name, id, hex_len, depth: 0, long: false, dirty_suffix: None }
    }

    /// Whether the name is that of the commit itself.
    pub fn is_exact_match(&self) -> (exact: bool)
        ensures
            exact == (self@.depth == 0),
    {
        self.depth == 0
    }

    /// Asks for the distance and the id to be shown in any case.
    pub fn long(&mut self) -> (this: &mut Self)
        ensures
            this@ == (OutcomeView { long: true, ..old(self)@ }),
            *final(self) == *final(this),
    {
        self.long = true;
        self
    }

    /// Asks for the name alone where it is that of the commit itself.
    pub fn short(&mut self) -> (this: &mut Self)
        ensures
            this@ == (OutcomeView { long: false, ..old(self)@ }),
            *final(self) == *final(this),
    {
        self.long = false;
        self
    }

    /// The description as it is shown.
    pub fn format(&self) -> (text: Vec<u8>)
        ensures
            text@ == self@.text(),
    {
        let mut text: Vec<u8> = Vec::new();
        push_bytes(&mut text, self.name.as_slice());
        if self.long || !self.is_exact_match() {
            text.push(45);
            push_decimal(&mut text, self.depth as u64);
            text.push(45);
            text.push(103);
            let hex = to_hex_with_len(&self.id, self.hex_len);
            push_bytes(&mut text, hex.as_slice());
        }
        assert(text@ =~= self@.stem());
        match &self.dirty_suffix {
            Some(suffix) => {
                text.push(45);
                push_bytes(&mut text, suffix.as_str().as_bytes());
            },
            None => {},
        }
        text
    }
}

} // verus!
