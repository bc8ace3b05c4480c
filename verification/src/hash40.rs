//! 40-bit hashes and their hexadecimal text form.
use vstd::prelude::*;
use vstd::string::*;
use vstd::utf8::*;

verus! {

/// One more than the largest value a 40-bit hash can hold.
pub const HASH40_LIMIT: u64 = 0x100_0000_0000;

/// The largest number of hexadecimal digits a 40-bit value can need.
pub const HASH40_HEX_DIGITS: usize = 10;

/// A 40-bit hash. Only the low 40 bits are significant; a well-formed
/// value has every higher bit clear.
#[derive(Debug, Clone, Copy, PartialEq, Eq, Structural, PartialOrd, Ord, Hash)]
pub struct Hash40(pub u64);

/// Why a hexadecimal literal was not accepted as a hash.
#[derive(Debug, Clone, Copy, PartialEq, Eq, Structural)]
pub enum ParseError {
    /// The literal has no digits, or holds a byte that is no hexadecimal digit.
    InvalidDigit,
    /// Every byte is a hexadecimal digit, but there are more than ten of them.
    Overflow,
}

/// Whether `b` is an ASCII hexadecimal digit, in either case.
pub open spec fn is_hex_digit(b: u8) -> bool {
    (0x30 <= b <= 0x39) || (0x41 <= b <= 0x46) || (0x61 <= b <= 0x66)
}

/// The value of the hexadecimal digit `b`.
pub open spec fn hex_digit_value(b: u8) -> int {
    if b <= 0x39 {
        b - 0x30
    } else if b <= 0x46 {
        b - 0x41 + 10
    } else {
        b - 0x61 + 10
    }
}

/// The number that the digits denote, most significant digit first.
pub open spec fn hex_value(digits: Seq<u8>) -> int
    decreases digits.len(),
{
    if digits.len() == 0 {
        0
    } else {
        16 * hex_value(digits.drop_last()) + hex_digit_value(digits.last())
    }
}

/// Whether every byte of `digits` is a hexadecimal digit.
pub open spec fn all_hex(digits: Seq<u8>) -> bool {
    forall|i: int| 0 <= i < digits.len() ==> is_hex_digit(#[trigger] digits[i])
}

/// Whether the text starts with the two bytes `0x`.
pub open spec fn has_hex_prefix(text: Seq<u8>) -> bool {
    text.len() >= 2 && text[0] == 0x30 && text[1] == 0x78
}

/// The text without a leading `0x`, if it has one.
pub open spec fn strip_hex_prefix(text: Seq<u8>) -> Seq<u8> {
    if has_hex_prefix(text) {
        text.subrange(2, text.len() as int)
    } else {
        text
    }
}

/// What a hexadecimal literal, given as its bytes, parses to.
pub open spec fn parse_hex(text: Seq<u8>) -> Result<Hash40, ParseError> {
    let digits = strip_hex_prefix(text);
    if digits.len() == 0 || !all_hex(digits) {
        Err(ParseError::InvalidDigit)
    } else if digits.len() > HASH40_HEX_DIGITS {
        Err(ParseError::Overflow)
    } else {
        Ok(Hash40(hex_value(digits) as u64))
    }
}

/// Sixteen to the power `n`.
pub open spec fn pow16(n: nat) -> int
    decreases n,
{
    if n == 0 {
        1
    } else {
        16 * pow16((n - 1) as nat)
    }
}

/// A run of hexadecimal digits denotes a number below sixteen to its length.
pub proof fn lemma_hex_value_bound(digits: Seq<u8>)
    requires
        all_hex(digits),
    ensures
        0 <= hex_value(digits) < pow16(digits.len()),
    decreases digits.len(),
{
    if digits.len() > 0 {
        lemma_hex_value_bound(digits.drop_last());
    }
}

/// Sixteen to a power grows with the exponent.
pub proof fn lemma_pow16_monotonic(a: nat, b: nat)
    requires
        a <= b,
    ensures
        0 < pow16(a) <= pow16(b),
    decreases b,
{
    if b == 0 {
    } else if a < b {
        lemma_pow16_monotonic(a, (b - 1) as nat);
    } else {
        lemma_pow16_monotonic((a - 1) as nat, (b - 1) as nat);
    }
}

/// Taking one more hexadecimal digit: the longer prefix is again made of
/// digits, its value is sixteen times the shorter one's plus the new digit,
/// and up to ten digits stay inside the 40-bit range.
proof fn lemma_hex_push(digits: Seq<u8>, k: int)
    requires
        0 <= k < digits.len(),
        all_hex(digits.subrange(0, k)),
        is_hex_digit(digits[k]),
    ensures
        all_hex(digits.subrange(0, k + 1)),
        hex_value(digits.subrange(0, k + 1)) == 16 * hex_value(digits.subrange(0, k))
            + hex_digit_value(digits[k]),
        0 <= hex_value(digits.subrange(0, k)),
        k < HASH40_HEX_DIGITS ==> hex_value(digits.subrange(0, k + 1)) < HASH40_LIMIT,
{
    let before = digits.subrange(0, k);
    let after = digits.subrange(0, k + 1);
    assert(after.drop_last() =~= before);
    assert(after.last() == digits[k]);
    assert forall|j: int| 0 <= j < after.len() implies is_hex_digit(#[trigger] after[j]) by {
        if j < k {
            assert(after[j] == before[j]);
        }
    }
    lemma_hex_value_bound(before);
    lemma_hex_value_bound(after);
    if k < HASH40_HEX_DIGITS {
        lemma_pow16_monotonic(after.len(), 10);
        lemma_pow16_ten();
    }
}

/// Ten hexadecimal digits span exactly the 40-bit range.
pub proof fn lemma_pow16_ten()
    ensures
        pow16(10) == HASH40_LIMIT,
{
    reveal_with_fuel(pow16, 11);
}

/// The lowercase hexadecimal digit for a value below sixteen.
pub open spec fn hex_char(d: int) -> char {
    if d == 0 {
        '0'
    } else if d == 1 {
        '1'
    } else if d == 2 {
        '2'
    } else if d == 3 {
        '3'
    } else if d == 4 {
        '4'
    } else if d == 5 {
        '5'
    } else if d == 6 {
        '6'
    } else if d == 7 {
        '7'
    } else if d == 8 {
        '8'
    } else if d == 9 {
        '9'
    } else if d == 10 {
        'a'
    } else if d == 11 {
        'b'
    } else if d == 12 {
        'c'
    } else if d == 13 {
        'd'
    } else if d == 14 {
        'e'
    } else {
        'f'
    }
}

/// The `width` lowest hexadecimal digits of `v`, most significant first,
/// padded with zeros on the left.
pub open spec fn hex_digits(v: int, width: nat) -> Seq<char>
    decreases width,
{
    if width == 0 {
        Seq::empty()
    } else {
        hex_digits(v / 16, (width - 1) as nat).push(hex_char(v % 16))
    }
}

/// The canonical text of a hash value: `0x` and ten lowercase digits.
pub open spec fn hex_text(v: u64) -> Seq<char> {
    seq!['0', 'x'] + hex_digits(v as int, HASH40_HEX_DIGITS as nat)
}

/// A literal of hexadecimal digits that does not fit in 40 bits is an
/// overflow: one with more than ten digits, and so every one whose digits
/// denote a number with bit 40 or a higher bit set.
pub proof fn lemma_wide_literal_overflows(text: Seq<u8>)
    requires
        all_hex(strip_hex_prefix(text)),
        strip_hex_prefix(text).len() > HASH40_HEX_DIGITS || hex_value(strip_hex_prefix(text))
            >= HASH40_LIMIT,
    ensures
        parse_hex(text) == Err::<Hash40, ParseError>(ParseError::Overflow),
{
    let digits = strip_hex_prefix(text);
    if digits.len() <= HASH40_HEX_DIGITS {
        lemma_hex_value_bound(digits);
        lemma_pow16_monotonic(digits.len(), 10);
        lemma_pow16_ten();
    }
}

/// `hex_digits` gives as many digits as were asked for.
pub proof fn lemma_hex_digits_len(v: int, width: nat)
    ensures
        hex_digits(v, width).len() == width,
    decreases width,
{
    if width > 0 {
        lemma_hex_digits_len(v / 16, (width - 1) as nat);
    }
}

/// The digit characters of a number that fits its width, taken as bytes,
/// are hexadecimal digits that denote the number.
pub proof fn lemma_hex_digits_value(v: int, width: nat, bytes: Seq<u8>)
    requires
        0 <= v < pow16(width),
        bytes.len() == width,
        forall|i: int| 0 <= i < width ==> #[trigger] bytes[i] == hex_digits(v, width)[i] as u8,
    ensures
        all_hex(bytes),
        hex_value(bytes) == v,
    decreases width,
{
    if width > 0 {
        let front = bytes.drop_last();
        lemma_hex_digits_len(v / 16, (width - 1) as nat);
        assert forall|i: int| 0 <= i < width - 1 implies #[trigger] front[i] == hex_digits(
            v / 16,
            (width - 1) as nat,
        )[i] as u8 by {
            assert(front[i] == bytes[i]);
        }
        lemma_hex_digits_value(v / 16, (width - 1) as nat, front);
        let d = v % 16;
        assert(bytes.last() == bytes[width - 1]);
        assert(hex_digits(v, width)[width - 1] == hex_char(d));
        assert(is_hex_digit(bytes.last()) && hex_digit_value(bytes.last()) == d);
        assert forall|i: int| 0 <= i < bytes.len() implies is_hex_digit(#[trigger] bytes[i]) by {
            if i < width - 1 {
                assert(bytes[i] == front[i]);
            }
        }
    }
}

/// The canonical text of a hash parses back to the hash.
pub proof fn lemma_hex_text_parses(hash: Hash40)
    requires
        hash.wf(),
    ensures
        parse_hex(encode_utf8(hex_text(hash.0))) == Ok::<Hash40, ParseError>(hash),
{
    let text = hex_text(hash.0);
    let digits = hex_digits(hash.0 as int, HASH40_HEX_DIGITS as nat);
    let bytes = encode_utf8(text);
    lemma_hex_digits_len(hash.0 as int, HASH40_HEX_DIGITS as nat);
    lemma_hex_digits_chars(hash.0 as int, HASH40_HEX_DIGITS as nat);
    assert(is_ascii_chars(text)) by {
        assert forall|i: int| 0 <= i < text.len() implies '\0' <= #[trigger] text[i]
            <= '\u{7f}' by {
            if i >= 2 {
                assert(text[i] == digits[i - 2]);
            }
        }
    }
    is_ascii_chars_encode_utf8(text);
    assert(bytes[0] == text[0] as u8);
    assert(bytes[1] == text[1] as u8);
    let rest = strip_hex_prefix(bytes);
    assert forall|i: int| 0 <= i < HASH40_HEX_DIGITS implies #[trigger] rest[i] == digits[i] as u8 by {
        assert(bytes[i + 2] == text[i + 2] as u8);
        assert(text[i + 2] == digits[i]);
    }
    lemma_pow16_ten();
    lemma_hex_digits_value(hash.0 as int, HASH40_HEX_DIGITS as nat, rest);
}

/// Every character of `hex_digits` is one of the sixteen digits.
pub proof fn lemma_hex_digits_chars(v: int, width: nat)
    ensures
        forall|i: int|
            0 <= i < hex_digits(v, width).len() ==> '0' <= #[trigger] hex_digits(v, width)[i]
                <= 'f',
    decreases width,
{
    if width > 0 {
        lemma_hex_digits_chars(v / 16, (width - 1) as nat);
        lemma_hex_digits_len(v / 16, (width - 1) as nat);
        let front = hex_digits(v / 16, (width - 1) as nat);
        let all = hex_digits(v, width);
        assert forall|i: int| 0 <= i < all.len() implies '0' <= #[trigger] all[i] <= 'f' by {
            if i < width - 1 {
                assert(all[i] == front[i]);
            }
        }
    }
}

impl Hash40 {
    /// Whether only the low 40 bits are set.
    pub open spec fn wf(self) -> bool {
        self.0 < HASH40_LIMIT
    }

    /// Tests whether only the low 40 bits are set.
    pub fn is_valid(&self) -> (ok: bool)
        ensures
            ok == self.wf(),
    {
        self.0 < HASH40_LIMIT
    }

    /// Parses a hexadecimal literal, with or without a leading `0x`.
    ///
    /// The digits may be in either case. A literal without digits, or with a
    /// byte that is no hexadecimal digit, is an `InvalidDigit`; one of more
    /// than ten digits is an `Overflow`, as it cannot be written in 40 bits.
    pub fn from_hex_str(s: &str) -> (parsed: Result<Hash40, ParseError>)
        ensures
            parsed == parse_hex(s.spec_bytes()),
            parsed is Ok ==> parsed->Ok_0.wf(),
    {
        parse_hex_bytes(s.as_bytes())
    }

    /// The canonical text of the hash: `0x` followed by ten lowercase
    /// hexadecimal digits, zero-padded.
    pub fn to_hex_string(&self) -> (text: String)
        ensures
            text@ == hex_text(self.0),
    {
        let mut text = String::new();
        proof {
            reveal_strlit("0x");
        }
        text.append("0x");
        assert(text@ =~= seq!['0', 'x']);
        append_hex_digits(&mut text, self.0, HASH40_HEX_DIGITS);
        text
    }
}

/// Appends the `width` lowest hexadecimal digits of `v` to `text`.
fn append_hex_digits(text: &mut String, v: u64, width: usize)
    ensures
        final(text)@ == old(text)@ + hex_digits(v as int, width as nat),
    decreases width,
{
    if width > 0 {
        append_hex_digits(text, v / 16, width - 1);
        let digit: u8 = (v % 16) as u8;
        text.append(hex_digit_str(digit));
        assert(final(text)@ =~= old(text)@ + hex_digits(v as int, width as nat));
    } else {
        assert(final(text)@ =~= old(text)@ + hex_digits(v as int, width as nat));
    }
}

/// The one-character text of a hexadecimal digit.
pub fn hex_digit_str(d: u8) -> (text: &'static str)
    requires
        d < 16,
    ensures
        text@ == seq![hex_char(d as int)],
{
    proof {
        reveal_strlit("0");
        reveal_strlit("1");
        reveal_strlit("2");
        reveal_strlit("3");
        reveal_strlit("4");
        reveal_strlit("5");
        reveal_strlit("6");
        reveal_strlit("7");
        reveal_strlit("8");
        reveal_strlit("9");
        reveal_strlit("a");
        reveal_strlit("b");
        reveal_strlit("c");
        reveal_strlit("d");
        reveal_strlit("e");
        reveal_strlit("f");
    }
    let text: &'static str = if d == 0 {
        "0"
    } else if d == 1 {
        "1"
    } else if d == 2 {
        "2"
    } else if d == 3 {
        "3"
    } else if d == 4 {
        "4"
    } else if d == 5 {
        "5"
    } else if d == 6 {
        "6"
    } else if d == 7 {
        "7"
    } else if d == 8 {
        "8"
    } else if d == 9 {
        "9"
    } else if d == 10 {
        "a"
    } else if d == 11 {
        "b"
    } else if d == 12 {
        "c"
    } else if d == 13 {
        "d"
    } else if d == 14 {
        "e"
    } else {
        "f"
    };
    assert(text@ =~= seq![hex_char(d as int)]);
    text
}

/// The value of one hexadecimal digit, or `None` for any other byte.
pub fn hex_digit(b: u8) -> (digit: Option<u8>)
    ensures
        digit is Some <==> is_hex_digit(b),
        digit is Some ==> digit->Some_0 == hex_digit_value(b),
{
    if 0x30 <= b && b <= 0x39 {
        Some(b - 0x30)
    } else if 0x41 <= b && b <= 0x46 {
        Some(b - 0x41 + 10)
    } else if 0x61 <= b && b <= 0x66 {
        Some(b - 0x61 + 10)
    } else {
        None
    }
}

/// Parses the bytes of a hexadecimal literal, with or without a leading `0x`.
pub fn parse_hex_bytes(text: &[u8]) -> (parsed: Result<Hash40, ParseError>)
    ensures
        parsed == parse_hex(text@),
        parsed is Ok ==> parsed->Ok_0.wf(),
{
    let n: usize = text.len();
    let start: usize = if n >= 2 && text[0] == 0x30 && text[1] == 0x78 {
        2
    } else {
        0
    };
    let ghost digits = strip_hex_prefix(text@);
    assert(digits =~= text@.subrange(start as int, n as int));
    if start == n {
        return Err(ParseError::InvalidDigit);
    }
    let mut acc: u64 = 0;
    let mut i: usize = start;
    while i < n
        invariant
            start <= i <= n,
            n == text@.len(),
            digits == strip_hex_prefix(text@),
            digits == text@.subrange(start as int, n as int),
            all_hex(digits.subrange(0, i - start)),
            i - start <= HASH40_HEX_DIGITS ==> acc == hex_value(digits.subrange(0, i - start)),
            acc < HASH40_LIMIT,
        decreases n - i,
    {
        match hex_digit(text[i]) {
            None => {
                assert(digits[i - start] == text@[i as int]);
                assert(!all_hex(digits));
                return Err(ParseError::InvalidDigit);
            },
            Some(d) => {
                proof {
                    lemma_hex_push(digits, i - start);
                }
                if i - start < HASH40_HEX_DIGITS {
                    acc = acc * 16 + d as u64;
                }
            },
        }
        i = i + 1;
    }
    assert(digits.subrange(0, n - start) =~= digits);
    if n - start > HASH40_HEX_DIGITS {
        Err(ParseError::Overflow)
    } else {
        Ok(Hash40(acc))
    }
}

} // verus!
