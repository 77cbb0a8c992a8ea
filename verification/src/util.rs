//! Reading numbers and text out of the bytes that a capture group matched.

use byteorder::ByteOrder;
use vstd::prelude::*;
use vstd::string::*;
use vstd::utf8::{decode_utf8, encode_utf8_decode_utf8, valid_utf8};

verus! {

/// A number that is written in hexadecimal.
pub struct Hex<T> {
    pub value: T,
}

/// The value of one digit in the given radix (10 or 16), if `byte` is one.
pub open spec fn digit_value(byte: u8, radix: int) -> Option<int> {
    if 0x30 <= byte <= 0x39 {
        Some(byte - 0x30)
    } else if radix == 16 && 0x61 <= byte <= 0x66 {
        Some(byte - 0x61 + 10)
    } else if radix == 16 && 0x41 <= byte <= 0x46 {
        Some(byte - 0x41 + 10)
    } else {
        None
    }
}

/// Whether every byte of `digits` is a digit in the given radix.
pub open spec fn all_digits(digits: Seq<u8>, radix: int) -> bool {
    forall|i: int| 0 <= i < digits.len() ==> (#[trigger] digit_value(digits[i], radix)).is_some()
}

/// The number that a run of digits denotes, most significant digit first.
pub open spec fn digits_value(digits: Seq<u8>, radix: int) -> int
    decreases digits.len(),
{
    if digits.len() == 0 {
        0
    } else {
        digits_value(digits.drop_last(), radix) * radix + match digit_value(digits.last(), radix) {
            Some(d) => d,
            None => 0,
        }
    }
}

/// The digits of an unsigned number's text: the text without one leading `+`.
pub open spec fn unsigned_digits(text: Seq<u8>) -> Seq<u8> {
    if text.len() > 0 && text[0] == 0x2b {
        text.skip(1)
    } else {
        text
    }
}

/// The unsigned number that `text` denotes in the given radix, where it is
/// one and does not exceed `max`: an optional `+`, then at least one digit,
/// and nothing else.
pub open spec fn parse_unsigned(text: Seq<u8>, radix: int, max: int) -> Option<int> {
    let digits = unsigned_digits(text);
    if digits.len() > 0 && all_digits(digits, radix) && digits_value(digits, radix) <= max {
        Some(digits_value(digits, radix))
    } else {
        None
    }
}

/// A longer run of digits denotes no smaller a number than its prefix.
pub proof fn lemma_digits_value_monotone(digits: Seq<u8>, radix: int, len: int)
    requires
        radix == 10 || radix == 16,
        0 <= len <= digits.len(),
    ensures
        0 <= digits_value(digits.take(len), radix) <= digits_value(digits, radix),
    decreases digits.len() - len,
{
    lemma_digits_value_nonnegative(digits.take(len), radix);
    if len == digits.len() {
        assert(digits.take(len) =~= digits);
    } else {
        lemma_digits_value_monotone(digits, radix, len + 1);
        let longer = digits.take(len + 1);
        assert(longer.drop_last() =~= digits.take(len));
        let below = digits_value(digits.take(len), radix);
        assert(below * radix >= below) by (nonlinear_arith)
            requires
                below >= 0,
                radix >= 1,
        ;
    }
}

/// A run of digits denotes no negative number.
pub proof fn lemma_digits_value_nonnegative(digits: Seq<u8>, radix: int)
    requires
        radix == 10 || radix == 16,
    ensures
        0 <= digits_value(digits, radix),
    decreases digits.len(),
{
    if digits.len() > 0 {
        lemma_digits_value_nonnegative(digits.drop_last(), radix);
        let below = digits_value(digits.drop_last(), radix);
        assert(below * radix >= 0) by (nonlinear_arith)
            requires
                below >= 0,
                radix >= 1,
        ;
    }
}

fn digit_of(byte: u8, radix: u64) -> (digit: Option<u64>)
    requires
        radix == 10 || radix == 16,
    ensures
        match digit_value(byte, radix as int) {
            Some(d) => digit == Some(d as u64) && d < radix,
            None => digit.is_none(),
        },
{
    if 0x30 <= byte && byte <= 0x39 {
        Some((byte - 0x30) as u64)
    } else if radix == 16 && 0x61 <= byte && byte <= 0x66 {
        Some((byte - 0x61) as u64 + 10)
    } else if radix == 16 && 0x41 <= byte && byte <= 0x46 {
        Some((byte - 0x41) as u64 + 10)
    } else {
        None
    }
}

/// Reads an unsigned number in radix 10 or 16 that does not exceed `max`.
///
/// Accepts what `str::parse` and `from_str_radix` of the unsigned integer
/// types accept: an optional `+`, then digits only.
fn parse_unsigned_bytes(text: &[u8], radix: u64, max: u64) -> (value: Option<u64>)
    requires
        radix == 10 || radix == 16,
    ensures
        match parse_unsigned(text@, radix as int, max as int) {
            Some(v) => value matches Some(n) && n == v,
            None => value.is_none(),
        },
{
    let first: usize = if text.len() > 0 && text[0] == 0x2b {
        1
    } else {
        0
    };
    let ghost digits = unsigned_digits(text@);
    assert(digits =~= text@.skip(first as int));
    if first == text.len() {
        return None;
    }
    let mut acc: u64 = 0;
    let mut i: usize = first;
    while i < text.len()
        invariant
            radix == 10 || radix == 16,
            first <= i <= text.len(),
            digits == text@.skip(first as int),
            digits == unsigned_digits(text@),
            all_digits(digits.take(i - first), radix as int),
            acc == digits_value(digits.take(i - first), radix as int),
            acc <= max,
        decreases text.len() - i,
    {
        let ghost prefix = digits.take(i - first);
        let ghost longer = digits.take(i - first + 1);
        proof {
            assert(digits[i - first] == text@[i as int]);
            assert(longer.drop_last() =~= prefix);
            assert(longer.last() == text@[i as int]);
            assert(digits_value(longer, radix as int) == digits_value(prefix, radix as int) * radix
                + match digit_value(text@[i as int], radix as int) {
                Some(d) => d,
                None => 0,
            });
            lemma_digits_value_monotone(digits, radix as int, i - first + 1);
        }
        match digit_of(text[i], radix) {
            None => {
                assert(digit_value(digits[i - first], radix as int).is_none());
                return None;
            },
            Some(d) => {
                if d > max || acc > (max - d) / radix {
                    assert(acc * radix + d > max) by (nonlinear_arith)
                        requires
                            d > max || acc > (max - d) / (radix as int),
                            radix >= 1,
                            acc >= 0,
                            d >= 0,
                    ;
                    return None;
                }
                assert(acc * radix + d <= max) by (nonlinear_arith)
                    requires
                        acc <= (max - d) / (radix as int),
                        radix >= 1,
                        d <= max,
                ;
                acc = acc * radix + d;
                assert forall|k: int| 0 <= k < longer.len() implies (#[trigger] digit_value(
                    longer[k],
                    radix as int,
                )).is_some() by {
                    if k < prefix.len() {
                        assert(longer[k] == prefix[k]);
                    }
                }
            },
        }
        i = i + 1;
    }
    assert(digits.take(i - first) =~= digits);
    Some(acc)
}

impl Hex<usize> {
    /// Reads a hexadecimal number: an optional `+`, then hexadecimal digits
    /// in either case, no prefix.
    pub fn from_str(s: &str) -> (number: Option<Hex<usize>>)
        ensures
            Self::denoted_by(s.spec_bytes(), number),
    {
        Self::from_capture(s.as_bytes())
    }
}

/// The text that `String::from_utf8_lossy` makes of `bytes`.
pub uninterp spec fn utf8_lossy(bytes: Seq<u8>) -> Seq<char>;

/// The text that bytes stand for: what they decode to where they are valid
/// UTF-8, else what the lossy conversion makes of them.
pub open spec fn text_of(bytes: Seq<u8>) -> Seq<char> {
    if valid_utf8(bytes) {
        decode_utf8(bytes)
    } else {
        utf8_lossy(bytes)
    }
}

/// Calls `String::from_utf8_lossy`. Trusted: the text is the one that
/// `utf8_lossy` names for these bytes, and bytes that are valid UTF-8 are
/// decoded as they stand.
#[verifier::external_body]
pub(crate) fn string_from_utf8_lossy(bytes: &[u8]) -> (text: String)
    ensures
        text@ == utf8_lossy(bytes@),
        valid_utf8(bytes@) ==> text@ == decode_utf8(bytes@),
{
    String::from_utf8_lossy(bytes).into_owned()
}

/// The number that two bytes hold, least significant byte first.
pub open spec fn le_u16(bytes: Seq<u8>) -> int
    recommends
        bytes.len() >= 2,
{
    bytes[0] + 0x100 * bytes[1]
}

/// The number that four bytes hold, least significant byte first.
pub open spec fn le_u32(bytes: Seq<u8>) -> int
    recommends
        bytes.len() >= 4,
{
    bytes[0] + 0x100 * bytes[1] + 0x1_0000 * bytes[2] + 0x100_0000 * bytes[3]
}

/// Calls `byteorder::LittleEndian::read_u16`, which panics on fewer than two
/// bytes. Trusted: the number is the one that the first two bytes hold, least
/// significant byte first.
#[verifier::external_body]
pub(crate) fn read_u16_le(bytes: &[u8]) -> (value: u16)
    requires
        bytes@.len() >= 2,
    ensures
        value == le_u16(bytes@),
{
    byteorder::LittleEndian::read_u16(bytes)
}

/// Calls `byteorder::LittleEndian::read_u32`, which panics on fewer than four
/// bytes. Trusted: the number is the one that the first four bytes hold, least
/// significant byte first.
#[verifier::external_body]
pub(crate) fn read_u32_le(bytes: &[u8]) -> (value: u32)
    requires
        bytes@.len() >= 4,
    ensures
        value == le_u32(bytes@),
{
    byteorder::LittleEndian::read_u32(bytes)
}

/// A value that can be read from the text of a capture group.
pub trait CaptureValue: Sized {
    /// Whether `value` is what reading `text` gives: the value that the text
    /// denotes, or `None` where it denotes none.
    spec fn denoted_by(text: Seq<u8>, value: Option<Self>) -> bool;

    /// Reads the value that `text` denotes.
    fn from_capture(text: &[u8]) -> (value: Option<Self>)
        ensures
            Self::denoted_by(text@, value),
    ;
}

impl CaptureValue for u32 {
    open spec fn denoted_by(text: Seq<u8>, value: Option<u32>) -> bool {
        match parse_unsigned(text, 10, u32::MAX as int) {
            Some(v) => value == Some(v as u32),
            None => value.is_none(),
        }
    }

    fn from_capture(text: &[u8]) -> (value: Option<u32>) {
        match parse_unsigned_bytes(text, 10, u32::MAX as u64) {
            Some(v) => Some(v as u32),
            None => None,
        }
    }
}

impl CaptureValue for usize {
    open spec fn denoted_by(text: Seq<u8>, value: Option<usize>) -> bool {
        match parse_unsigned(text, 10, usize::MAX as int) {
            Some(v) => value == Some(v as usize),
            None => value.is_none(),
        }
    }

    fn from_capture(text: &[u8]) -> (value: Option<usize>) {
        match parse_unsigned_bytes(text, 10, usize::MAX as u64) {
            Some(v) => Some(v as usize),
            None => None,
        }
    }
}

impl CaptureValue for Hex<usize> {
    open spec fn denoted_by(text: Seq<u8>, value: Option<Hex<usize>>) -> bool {
        match parse_unsigned(text, 16, usize::MAX as int) {
            Some(v) => value == Some(Hex { value: v as usize }),
            None => value.is_none(),
        }
    }

    fn from_capture(text: &[u8]) -> (value: Option<Hex<usize>>) {
        match parse_unsigned_bytes(text, 16, usize::MAX as u64) {
            Some(v) => Some(Hex { value: v as usize }),
            None => None,
        }
    }
}

impl CaptureValue for String {
    open spec fn denoted_by(text: Seq<u8>, value: Option<String>) -> bool {
        value matches Some(s) && s@ == utf8_lossy(text) && (valid_utf8(text) ==> s@
            == decode_utf8(text))
    }

    fn from_capture(text: &[u8]) -> (value: Option<String>) {
        Some(string_from_utf8_lossy(text))
    }
}

/// The bytes that group `index` of a capture list matched, if there is such
/// a group and it took part in the match.
pub open spec fn group_text(groups: Seq<Option<Seq<u8>>>, index: int) -> Option<Seq<u8>> {
    if 0 <= index < groups.len() {
        groups[index]
    } else {
        None
    }
}

/// Reads a value from group `index` of a capture list.
///
/// `None` where the list has no such group, the group took no part in the
/// match, or its text denotes no value of the type asked for.
pub fn parse_capture_group<F: CaptureValue>(groups: &Vec<Option<Vec<u8>>>, index: usize) -> (value:
    Option<F>)
    ensures
        match group_text(crate::pattern::groups_view(groups@), index as int) {
            Some(text) => F::denoted_by(text, value),
            None => value.is_none(),
        },
{
    if index < groups.len() {
        match &groups[index] {
            Some(bytes) => F::from_capture(bytes.as_slice()),
            None => None,
        }
    } else {
        None
    }
}

/// The difference of two 64-bit numbers as 64-bit subtraction gives it: a
/// difference below zero wraps around.
pub open spec fn wrapped_difference(left: u64, right: u64) -> u64 {
    if left >= right {
        (left - right) as u64
    } else {
        (left - right + 0x1_0000_0000_0000_0000) as u64
    }
}

/// Subtracts with wrap-around.
pub fn wrapping_difference(left: u64, right: u64) -> (difference: u64)
    ensures
        difference == wrapped_difference(left, right),
{
    left.wrapping_sub(right)
}

/// Whether two texts are the same.
pub fn same_text(left: &str, right: &str) -> (same: bool)
    ensures
        same == (left@ == right@),
{
    let a = left.as_bytes();
    let b = right.as_bytes();
    proof {
        encode_utf8_decode_utf8(left@);
        encode_utf8_decode_utf8(right@);
    }
    if a.len() != b.len() {
        return false;
    }
    let mut i: usize = 0;
    while i < a.len()
        invariant
            i <= a@.len(),
            a@.len() == b@.len(),
            a@ == left.spec_bytes(),
            b@ == right.spec_bytes(),
            forall|k: int| 0 <= k < i ==> a@[k] == b@[k],
        decreases a@.len() - i,
    {
        if a[i] != b[i] {
            return false;
        }
        i = i + 1;
    }
    assert(a@ =~= b@);
    true
}

} // verus!
