//! Strings and their bytes.
use vstd::prelude::*;
use vstd::string::*;
use vstd::utf8::*;
use crate::hash40::{hex_char, hex_digit_str};

verus! {

/// Turns bytes into the string that they are the UTF-8 form of.
///
/// This is `String::from_utf8` of the standard library: it gives a string
/// exactly when the bytes are valid UTF-8, and the string is then the one
/// that those bytes encode.
#[verifier::external_body]
pub(crate) fn string_from_utf8(bytes: Vec<u8>) -> (text: Option<String>)
    ensures
        text is Some <==> valid_utf8(bytes@),
        text is Some ==> text->Some_0@ == decode_utf8(bytes@),
{
    match String::from_utf8(bytes) {
        Ok(text) => Some(text),
        Err(_) => None,
    }
}

/// Cutting UTF-8 at a byte below `0x80` leaves UTF-8 on both sides: such a
/// byte is a character of its own.
pub proof fn lemma_cut_at_ascii(bytes: Seq<u8>, i: int)
    requires
        valid_utf8(bytes),
        0 <= i < bytes.len(),
        bytes[i] < 0x80,
    ensures
        valid_utf8(bytes.subrange(0, i)),
        valid_utf8(bytes.subrange(i + 1, bytes.len() as int)),
{
    is_char_boundary_iff_not_is_continuation_byte(bytes, i);
    valid_utf8_split(bytes, i);
    let rest = bytes.subrange(i, bytes.len() as int);
    assert(rest[0] == bytes[i]);
    assert(pop_first_scalar(rest) =~= bytes.subrange(i + 1, bytes.len() as int));
}

/// The decimal text of a number, without leading zeros.
pub open spec fn decimal_text(n: nat) -> Seq<char>
    decreases n,
{
    if n < 10 {
        seq![hex_char(n as int)]
    } else {
        decimal_text(n / 10).push(hex_char((n % 10) as int))
    }
}

/// Appends the decimal text of a number.
pub fn append_decimal(text: &mut String, n: usize)
    ensures
        final(text)@ == old(text)@ + decimal_text(n as nat),
    decreases n,
{
    if n >= 10 {
        append_decimal(text, n / 10);
    }
    text.append(hex_digit_str((n % 10) as u8));
    assert(final(text)@ =~= old(text)@ + decimal_text(n as nat));
}

/// The decimal text of a number, without leading zeros.
pub fn decimal_string(n: usize) -> (text: String)
    ensures
        text@ == decimal_text(n as nat),
{
    let mut text = String::new();
    append_decimal(&mut text, n);
    assert(text@ =~= decimal_text(n as nat));
    text
}

} // verus!
