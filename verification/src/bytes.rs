//! Searching byte strings.

use vstd::prelude::*;
use vstd::string::{is_ascii, is_ascii_spec_bytes};

verus! {

/// The bytes of a text of ASCII characters.
pub open spec fn ascii_bytes(text: Seq<char>) -> Seq<u8> {
    Seq::new(text.len(), |i: int| text[i] as u8)
}

/// Adds the bytes of `text` behind `out`.
pub(crate) fn push_ascii(out: &mut Vec<u8>, text: &str)
    requires
        is_ascii(text),
    ensures
        final(out)@ == old(out)@ + ascii_bytes(text@),
{
    proof {
        is_ascii_spec_bytes(text);
    }
    out.extend_from_slice(text.as_bytes());
    assert(out@ =~= old(out)@ + ascii_bytes(text@));
}

/// Adds `bytes` behind `out`.
pub(crate) fn push_bytes(out: &mut Vec<u8>, bytes: &[u8])
    ensures
        final(out)@ == old(out)@ + bytes@,
{
    out.extend_from_slice(bytes);
    assert(out@ =~= old(out)@ + bytes@);
}

/// The decimal digits of `n`, as ASCII bytes, without leading zeros.
pub open spec fn decimal_digits(n: nat) -> Seq<u8>
    decreases n,
{
    if n < 10 {
        seq![(48 + n) as u8]
    } else {
        decimal_digits(n / 10).push((48 + n % 10) as u8)
    }
}

/// Adds the decimal digits of `n` behind `out`.
pub fn push_decimal(out: &mut Vec<u8>, n: u64)
    ensures
        final(out)@ == old(out)@ + decimal_digits(n as nat),
    decreases n,
{
    if n >= 10 {
        push_decimal(out, n / 10);
    }
    let digit: u8 = (48 + n % 10) as u8;
    out.push(digit);
    assert(out@ =~= old(out)@ + decimal_digits(n as nat));
}

/// Whether `at` is the position of the last occurrence of `byte` in `bytes`.
pub open spec fn is_last_position(bytes: Seq<u8>, byte: u8, at: int) -> bool {
    &&& 0 <= at < bytes.len()
    &&& bytes[at] == byte
    &&& forall|later: int| at < later < bytes.len() ==> bytes[later] != byte
}

/// The position of the last occurrence of `byte` in `bytes`.
///
/// Calls `bstr::ByteSlice::rfind_byte`. Trusted: the result is the index of the
/// last occurrence of `byte`, and `None` exactly where `byte` does not occur.
#[verifier::external_body]
pub(crate) fn rfind_byte(bytes: &Vec<u8>, byte: u8) -> (found: Option<usize>)
    ensures
        match found {
            Some(at) => is_last_position(bytes@, byte, at as int),
            None => !bytes@.contains(byte),
        },
{
    bstr::ByteSlice::rfind_byte(bytes.as_slice(), byte)
}

} // verus!
