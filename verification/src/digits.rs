//! Digits: what the text of a byte is in base 2, 8 and 16, and how digit
//! text is read back in groups.

use crate::error::{outcome, BytaryError, BytaryResult, Failure};
use crate::text::{as_text, text_of};
use crate::trusted::decode_hex;
use vstd::arithmetic::div_mod::{lemma_mod_decreases, lemma_mod_pos_bound};
use vstd::prelude::*;
use vstd::slice::slice_subrange;

verus! {

/// The ASCII character `0`; the other decimal digits follow it.
pub const ZERO: u8 = 0x30;

/// The ASCII character `A`; the letters up to `F` follow it.
pub const UPPER_A: u8 = 0x41;

/// The ASCII character `a`; the letters up to `f` follow it.
pub const LOWER_A: u8 = 0x61;

/// The ASCII character of a decimal digit.
pub open spec fn digit_char(value: int) -> u8 {
    (ZERO + value) as u8
}

/// The ASCII character of a hexadecimal digit, in lower case.
pub open spec fn hex_char(value: int) -> u8 {
    if value < 10 {
        (ZERO + value) as u8
    } else {
        (LOWER_A + value - 10) as u8
    }
}

/// The binary digit of `byte` at `place`, place 0 being the most significant
/// of the eight.
pub open spec fn bin_digit(byte: u8, place: int) -> int {
    if place == 0 {
        byte as int / 128
    } else if place == 1 {
        byte as int / 64 % 2
    } else if place == 2 {
        byte as int / 32 % 2
    } else if place == 3 {
        byte as int / 16 % 2
    } else if place == 4 {
        byte as int / 8 % 2
    } else if place == 5 {
        byte as int / 4 % 2
    } else if place == 6 {
        byte as int / 2 % 2
    } else {
        byte as int % 2
    }
}

/// The octal digit of `byte` at `place`, place 0 being the most significant
/// of the three.
pub open spec fn oct_digit(byte: u8, place: int) -> int {
    if place == 0 {
        byte as int / 64
    } else if place == 1 {
        byte as int / 8 % 8
    } else {
        byte as int % 8
    }
}

/// The hexadecimal digit of `byte` at `place`, place 0 being the more
/// significant of the two.
pub open spec fn hex_digit(byte: u8, place: int) -> int {
    if place == 0 {
        byte as int / 16
    } else {
        byte as int % 16
    }
}

/// Binary-digit text: eight characters `0` or `1` for each byte.
pub open spec fn bin_text(data: Seq<u8>) -> Seq<u8> {
    Seq::new(8 * data.len(), |i: int| digit_char(bin_digit(data[i / 8], i % 8)))
}

/// Octal text: three digits for each byte.
pub open spec fn oct_text(data: Seq<u8>) -> Seq<u8> {
    Seq::new(3 * data.len(), |i: int| digit_char(oct_digit(data[i / 3], i % 3)))
}

/// Hexadecimal text: two lower-case digits for each byte.
pub open spec fn hex_text(data: Seq<u8>) -> Seq<u8> {
    Seq::new(2 * data.len(), |i: int| hex_char(hex_digit(data[i / 2], i % 2)))
}

/// Binary text can be produced piece by piece: the text of a whole is the
/// texts of its parts, one after the other.
pub proof fn lemma_bin_text_concat(first: Seq<u8>, second: Seq<u8>)
    ensures
        bin_text(first + second) == bin_text(first) + bin_text(second),
{
    assert(bin_text(first + second) =~= bin_text(first) + bin_text(second));
}

/// Octal text can be produced piece by piece.
pub proof fn lemma_oct_text_concat(first: Seq<u8>, second: Seq<u8>)
    ensures
        oct_text(first + second) == oct_text(first) + oct_text(second),
{
    assert(oct_text(first + second) =~= oct_text(first) + oct_text(second));
}

/// Hexadecimal text can be produced piece by piece.
pub proof fn lemma_hex_text_concat(first: Seq<u8>, second: Seq<u8>)
    ensures
        hex_text(first + second) == hex_text(first) + hex_text(second),
{
    assert(hex_text(first + second) =~= hex_text(first) + hex_text(second));
}

/// Appends the binary text of `chunk` to `text`.
pub fn push_bin_text(chunk: &[u8], text: &mut Vec<u8>)
    ensures
        final(text)@ == old(text)@ + bin_text(chunk@),
{
    let ghost before = text@;
    let mut i: usize = 0;
    while i < chunk.len()
        invariant
            i <= chunk.len(),
            text@ == before + bin_text(chunk@.take(i as int)),
        decreases chunk.len() - i,
    {
        let byte = chunk[i];
        text.push(ZERO + byte / 128);
        text.push(ZERO + byte / 64 % 2);
        text.push(ZERO + byte / 32 % 2);
        text.push(ZERO + byte / 16 % 2);
        text.push(ZERO + byte / 8 % 2);
        text.push(ZERO + byte / 4 % 2);
        text.push(ZERO + byte / 2 % 2);
        text.push(ZERO + byte % 2);
        assert(text@ =~= before + bin_text(chunk@.take(i + 1)));
        i += 1;
    }
    assert(chunk@.take(chunk.len() as int) =~= chunk@);
}

/// Appends the octal text of `chunk` to `text`.
pub fn push_oct_text(chunk: &[u8], text: &mut Vec<u8>)
    ensures
        final(text)@ == old(text)@ + oct_text(chunk@),
{
    let ghost before = text@;
    let mut i: usize = 0;
    while i < chunk.len()
        invariant
            i <= chunk.len(),
            text@ == before + oct_text(chunk@.take(i as int)),
        decreases chunk.len() - i,
    {
        let byte = chunk[i];
        text.push(ZERO + byte / 64);
        text.push(ZERO + byte / 8 % 8);
        text.push(ZERO + byte % 8);
        assert(text@ =~= before + oct_text(chunk@.take(i + 1)));
        i += 1;
    }
    assert(chunk@.take(chunk.len() as int) =~= chunk@);
}

/// One of the characters `0` and `1`.
pub open spec fn is_bin_digit(c: u8) -> bool {
    c == ZERO || c == ZERO + 1
}

/// One of the characters `0` to `7`.
pub open spec fn is_oct_digit(c: u8) -> bool {
    ZERO <= c <= ZERO + 7
}

/// One of the characters `0` to `9`, `a` to `f` and `A` to `F`.
pub open spec fn is_hex_digit(c: u8) -> bool {
    (ZERO <= c <= ZERO + 9) || (UPPER_A <= c <= UPPER_A + 5) || (LOWER_A <= c <= LOWER_A + 5)
}

/// What a decimal digit stands for.
pub open spec fn digit_value(c: u8) -> int {
    c - ZERO
}

/// What a hexadecimal digit of either case stands for.
pub open spec fn hex_value(c: u8) -> int {
    if c <= ZERO + 9 {
        c - ZERO
    } else if c <= UPPER_A + 5 {
        c - UPPER_A + 10
    } else {
        c - LOWER_A + 10
    }
}

/// Digit text whose last group of `width` digits, where it is short, has
/// zeros in front of it: the digits of every group keep their weight.
pub open spec fn padded(digits: Seq<u8>, width: int) -> Seq<u8> {
    let short = digits.len() as int % width;
    if short == 0 {
        digits
    } else {
        digits.take(digits.len() - short) + Seq::new((width - short) as nat, |i: int| ZERO)
            + digits.skip(digits.len() - short)
    }
}

/// The first digit group that does not pass, where one does not;
/// `passes[g]` says whether group `g` does.
pub open spec fn first_failing(passes: Seq<bool>) -> int {
    choose|g: int|
        0 <= g < passes.len() && !passes[g] && forall|h: int| 0 <= h < g ==> passes[h]
}

/// The group that fails behind groups that all pass is the first failing one.
pub proof fn lemma_first_failing(passes: Seq<bool>, g: int)
    requires
        0 <= g < passes.len(),
        !passes[g],
        forall|h: int| 0 <= h < g ==> passes[h],
    ensures
        first_failing(passes) == g,
{
    let chosen = first_failing(passes);
    assert(0 <= chosen < passes.len() && !passes[chosen] && forall|h: int|
        0 <= h < chosen ==> passes[h]);
    if chosen < g {
        assert(passes[chosen]);
    } else if g < chosen {
        assert(passes[g]);
    }
}

/// Group `g` of binary text: four digits `0` or `1`.
pub open spec fn bin_group_ok(text: Seq<u8>, g: int) -> bool {
    &&& is_bin_digit(text[4 * g])
    &&& is_bin_digit(text[4 * g + 1])
    &&& is_bin_digit(text[4 * g + 2])
    &&& is_bin_digit(text[4 * g + 3])
}

/// The number that group `g` of binary text stands for.
pub open spec fn bin_group_value(text: Seq<u8>, g: int) -> int {
    8 * digit_value(text[4 * g]) + 4 * digit_value(text[4 * g + 1]) + 2 * digit_value(
        text[4 * g + 2],
    ) + digit_value(text[4 * g + 3])
}

/// Which groups of binary text pass.
pub open spec fn bin_groups_pass(text: Seq<u8>) -> Seq<bool> {
    Seq::new((text.len() / 4) as nat, |g: int| bin_group_ok(text, g))
}

/// The hexadecimal text of binary digits: one hexadecimal digit for each
/// group of four, or the first group that holds another digit than `0` and
/// `1`.
pub open spec fn hex_from_bin(digits: Seq<u8>) -> Result<Seq<u8>, Failure> {
    let text = padded(digits, 4);
    let count = text.len() as int / 4;
    if forall|g: int| 0 <= g < count ==> bin_group_ok(text, g) {
        Ok(Seq::new(count as nat, |g: int| hex_char(bin_group_value(text, g))))
    } else {
        let g = first_failing(bin_groups_pass(text));
        Err(Failure::InvalidInputData(as_text(text.subrange(4 * g, 4 * g + 4))))
    }
}

/// Group `g` of octal text: three octal digits that stand for a byte.
pub open spec fn oct_group_ok(text: Seq<u8>, g: int) -> bool {
    &&& is_oct_digit(text[3 * g])
    &&& is_oct_digit(text[3 * g + 1])
    &&& is_oct_digit(text[3 * g + 2])
    &&& oct_group_value(text, g) <= u8::MAX
}

/// The number that group `g` of octal text stands for.
pub open spec fn oct_group_value(text: Seq<u8>, g: int) -> int {
    64 * digit_value(text[3 * g]) + 8 * digit_value(text[3 * g + 1]) + digit_value(
        text[3 * g + 2],
    )
}

/// Which groups of octal text pass.
pub open spec fn oct_groups_pass(text: Seq<u8>) -> Seq<bool> {
    Seq::new((text.len() / 3) as nat, |g: int| oct_group_ok(text, g))
}

/// The bytes of octal digits: one byte for each group of three, or the
/// first group that is no byte in octal digits.
pub open spec fn bytes_from_oct(digits: Seq<u8>) -> Result<Seq<u8>, Failure> {
    let text = padded(digits, 3);
    let count = text.len() as int / 3;
    if forall|g: int| 0 <= g < count ==> oct_group_ok(text, g) {
        Ok(Seq::new(count as nat, |g: int| oct_group_value(text, g) as u8))
    } else {
        let g = first_failing(oct_groups_pass(text));
        Err(Failure::InvalidInputData(as_text(text.subrange(3 * g, 3 * g + 3))))
    }
}

/// Group `g` of hexadecimal text: two hexadecimal digits.
pub open spec fn hex_group_ok(text: Seq<u8>, g: int) -> bool {
    &&& is_hex_digit(text[2 * g])
    &&& is_hex_digit(text[2 * g + 1])
}

/// The number that group `g` of hexadecimal text stands for.
pub open spec fn hex_group_value(text: Seq<u8>, g: int) -> int {
    16 * hex_value(text[2 * g]) + hex_value(text[2 * g + 1])
}

/// Which groups of hexadecimal text pass.
pub open spec fn hex_groups_pass(text: Seq<u8>) -> Seq<bool> {
    Seq::new((text.len() / 2) as nat, |g: int| hex_group_ok(text, g))
}

/// Why hexadecimal text could not be decoded.
#[derive(Clone, Copy, Debug, PartialEq, Eq, Structural)]
pub enum HexFault {
    /// The character `c` at `index` is no hexadecimal digit.
    InvalidCharacter { c: char, index: usize },
    /// The text has an odd number of characters.
    OddLength,
    /// The text does not fill the place it is decoded into.
    InvalidLength,
}

/// Text made of hexadecimal digits only.
pub open spec fn all_hex(text: Seq<u8>) -> bool {
    forall|i: int| 0 <= i < text.len() ==> is_hex_digit(#[trigger] text[i])
}

/// The first character of `text` that is no hexadecimal digit stands at
/// `index`.
pub open spec fn first_non_hex(text: Seq<u8>, index: int) -> bool {
    &&& 0 <= index < text.len()
    &&& !is_hex_digit(text[index])
    &&& forall|i: int| 0 <= i < index ==> is_hex_digit(#[trigger] text[i])
}

/// The bytes that an even number of hexadecimal digits stand for, a byte
/// for each pair.
pub open spec fn hex_pairs(text: Seq<u8>) -> Seq<u8> {
    Seq::new((text.len() / 2) as nat, |g: int| hex_group_value(text, g) as u8)
}

/// The bytes of hexadecimal digits: one byte for each group of two, or the
/// first group that holds something else than a hexadecimal digit.
pub open spec fn bytes_from_hex(digits: Seq<u8>) -> Result<Seq<u8>, Failure> {
    let text = padded(digits, 2);
    let count = text.len() as int / 2;
    if forall|g: int| 0 <= g < count ==> hex_group_ok(text, g) {
        Ok(hex_pairs(text))
    } else {
        let g = first_failing(hex_groups_pass(text));
        Err(Failure::InvalidInputData(as_text(text.subrange(2 * g, 2 * g + 2))))
    }
}

/// Puts zeros in front of a short last group of `width` digits.
fn left_padded(digits: &[u8], width: usize) -> (text: Vec<u8>)
    requires
        width > 0,
    ensures
        text@ == padded(digits@, width as int),
{
    let short = digits.len() % width;
    proof {
        lemma_mod_pos_bound(digits.len() as int, width as int);
        lemma_mod_decreases(digits.len() as nat, width as nat);
    }
    let whole = digits.len() - short;
    let mut text: Vec<u8> = Vec::new();
    let mut i: usize = 0;
    while i < whole
        invariant
            i <= whole <= digits.len(),
            text@ == digits@.take(i as int),
        decreases whole - i,
    {
        text.push(digits[i]);
        assert(text@ =~= digits@.take(i + 1));
        i += 1;
    }
    if short > 0 {
        let mut zeros: usize = 0;
        while zeros < width - short
            invariant
                0 < short < width,
                zeros <= width - short,
                text@ == digits@.take(whole as int) + Seq::new(zeros as nat, |i: int| ZERO),
            decreases width - short - zeros,
        {
            text.push(ZERO);
            zeros += 1;
            assert(text@ =~= digits@.take(whole as int) + Seq::new(zeros as nat, |i: int| ZERO));
        }
        while i < digits.len()
            invariant
                whole <= i <= digits.len(),
                text@ == digits@.take(whole as int) + Seq::new(
                    (width - short) as nat,
                    |i: int| ZERO,
                ) + digits@.subrange(whole as int, i as int),
            decreases digits.len() - i,
        {
            text.push(digits[i]);
            assert(text@ =~= digits@.take(whole as int) + Seq::new(
                (width - short) as nat,
                |i: int| ZERO,
            ) + digits@.subrange(whole as int, i + 1));
            i += 1;
        }
        assert(digits@.subrange(whole as int, digits.len() as int) =~= digits@.skip(
            whole as int,
        ));
    } else {
        assert(digits@.take(whole as int) =~= digits@);
    }
    text
}

/// The lower-case hexadecimal digit of a number below sixteen.
fn hex_char_of(value: u8) -> (c: u8)
    requires
        value < 16,
    ensures
        c == hex_char(value as int),
{
    if value < 10 {
        ZERO + value
    } else {
        LOWER_A + (value - 10)
    }
}

/// Decodes binary digits, four to a hexadecimal digit.
pub fn bin_digits_to_hex(digits: &[u8]) -> (r: BytaryResult<Vec<u8>>)
    ensures
        outcome(r) == hex_from_bin(digits@),
{
    let text = left_padded(digits, 4);
    let count = text.len() / 4;
    let mut hex: Vec<u8> = Vec::new();
    let mut g: usize = 0;
    while g < count
        invariant
            g <= count,
            count == text.len() as int / 4,
            text@ == padded(digits@, 4),
            text@.len() % 4 == 0,
            forall|h: int| 0 <= h < g ==> bin_group_ok(text@, h),
            hex@ == Seq::new(g as nat, |h: int| hex_char(bin_group_value(text@, h))),
        decreases count - g,
    {
        let a = text[4 * g];
        let b = text[4 * g + 1];
        let c = text[4 * g + 2];
        let d = text[4 * g + 3];
        if (a == ZERO || a == ZERO + 1) && (b == ZERO || b == ZERO + 1) && (c == ZERO || c == ZERO
            + 1) && (d == ZERO || d == ZERO + 1) {
            let value = 8 * (a - ZERO) + 4 * (b - ZERO) + 2 * (c - ZERO) + (d - ZERO);
            hex.push(hex_char_of(value));
            assert(hex@ =~= Seq::new((g + 1) as nat, |h: int| hex_char(bin_group_value(text@, h))));
            g += 1;
        } else {
            let detail = text_of(slice_subrange(text.as_slice(), 4 * g, 4 * g + 4));
            proof {
                assert(!bin_group_ok(text@, g as int));
                lemma_first_failing(bin_groups_pass(text@), g as int);
            }
            return Err(BytaryError::InvalidInputData(detail));
        }
    }
    Ok(hex)
}

/// Decodes octal digits, three to a byte.
pub fn oct_digits_to_bytes(digits: &[u8]) -> (r: BytaryResult<Vec<u8>>)
    ensures
        outcome(r) == bytes_from_oct(digits@),
{
    let text = left_padded(digits, 3);
    let count = text.len() / 3;
    let mut bytes: Vec<u8> = Vec::new();
    let mut g: usize = 0;
    while g < count
        invariant
            g <= count,
            count == text.len() as int / 3,
            text@ == padded(digits@, 3),
            text@.len() % 3 == 0,
            forall|h: int| 0 <= h < g ==> oct_group_ok(text@, h),
            bytes@ == Seq::new(g as nat, |h: int| oct_group_value(text@, h) as u8),
        decreases count - g,
    {
        let a = text[3 * g];
        let b = text[3 * g + 1];
        let c = text[3 * g + 2];
        if ZERO <= a && a <= ZERO + 3 && ZERO <= b && b <= ZERO + 7 && ZERO <= c && c <= ZERO + 7 {
            let value = 64 * (a - ZERO) + 8 * (b - ZERO) + (c - ZERO);
            bytes.push(value);
            assert(bytes@ =~= Seq::new((g + 1) as nat, |h: int| oct_group_value(text@, h) as u8));
            g += 1;
        } else {
            let detail = text_of(slice_subrange(text.as_slice(), 3 * g, 3 * g + 3));
            proof {
                assert(!oct_group_ok(text@, g as int));
                lemma_first_failing(oct_groups_pass(text@), g as int);
            }
            return Err(BytaryError::InvalidInputData(detail));
        }
    }
    Ok(bytes)
}

/// Decodes hexadecimal digits of either case, two to a byte.
pub fn hex_digits_to_bytes(digits: &[u8]) -> (r: BytaryResult<Vec<u8>>)
    ensures
        outcome(r) == bytes_from_hex(digits@),
{
    let text = left_padded(digits, 2);
    let ghost count = text.len() as int / 2;
    match decode_hex(text.as_slice()) {
        Ok(bytes) => {
            assert forall|g: int| 0 <= g < count implies hex_group_ok(text@, g) by {
                assert(is_hex_digit(text@[2 * g]));
                assert(is_hex_digit(text@[2 * g + 1]));
            }
            Ok(bytes)
        },
        Err(HexFault::InvalidCharacter { c, index }) => {
            let g = index / 2;
            let detail = text_of(slice_subrange(text.as_slice(), 2 * g, 2 * g + 2));
            proof {
                assert(!hex_group_ok(text@, g as int));
                assert forall|h: int| 0 <= h < g implies hex_group_ok(text@, h) by {
                    assert(is_hex_digit(text@[2 * h]));
                    assert(is_hex_digit(text@[2 * h + 1]));
                }
                lemma_first_failing(hex_groups_pass(text@), g as int);
            }
            Err(BytaryError::InvalidInputData(detail))
        },
        Err(_) => {
            // The padded text has an even length and fills no place of a
            // given size: no other fault comes back.
            assert(false);
            Err(BytaryError::InvalidInputData(String::new()))
        },
    }
}

} // verus!
