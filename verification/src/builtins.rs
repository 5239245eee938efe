//! The built-in direct conversions and the registry that holds them.

use crate::convert::{ConversionGraph, Converter};
use crate::digits::{
    bin_digits_to_hex, bin_text, bytes_from_hex, bytes_from_oct, hex_digits_to_bytes, hex_from_bin,
    hex_text, lemma_bin_text_concat, lemma_hex_text_concat, lemma_oct_text_concat,
    oct_digits_to_bytes, oct_text, push_bin_text, push_oct_text,
};
use crate::error::{made, outcome, BytaryError, BytaryResult, Failure};
use crate::format::Format;
use crate::text::{significant_of, INSIGNIFICANT};
use crate::trusted::{encode_hex, read_text, remove_matches};
use vstd::prelude::*;
use vstd::slice::slice_subrange;
use vstd::utf8::{decode_utf8, encode_utf8, valid_utf8};

verus! {

/// How many input bytes an encoder turns into text at a time.
pub const CHUNK_SIZE: usize = 1024;

/// Where the chunk that starts at `start` ends.
fn chunk_end(start: usize, len: usize) -> (end: usize)
    requires
        start < len,
    ensures
        start < end <= len,
        end - start <= CHUNK_SIZE,
        end == len || end - start == CHUNK_SIZE,
{
    if len - start > CHUNK_SIZE {
        start + CHUNK_SIZE
    } else {
        len
    }
}

/// Encodes bytes as binary-digit text, a chunk at a time.
pub fn bytes_to_bin(input: &[u8]) -> (r: BytaryResult<Vec<u8>>)
    ensures
        outcome(r) == made(bin_text(input@)),
{
    let mut text: Vec<u8> = Vec::new();
    let mut start: usize = 0;
    assert(text@ =~= bin_text(input@.take(0)));
    while start < input.len()
        invariant
            start <= input.len(),
            text@ == bin_text(input@.take(start as int)),
        decreases input.len() - start,
    {
        let end = chunk_end(start, input.len());
        let chunk = slice_subrange(input, start, end);
        push_bin_text(chunk, &mut text);
        proof {
            lemma_bin_text_concat(input@.take(start as int), chunk@);
            assert(input@.take(start as int) + chunk@ =~= input@.take(end as int));
        }
        start = end;
    }
    assert(input@.take(input.len() as int) =~= input@);
    Ok(text)
}

/// Encodes bytes as octal text, a chunk at a time.
pub fn bytes_to_oct(input: &[u8]) -> (r: BytaryResult<Vec<u8>>)
    ensures
        outcome(r) == made(oct_text(input@)),
{
    let mut text: Vec<u8> = Vec::new();
    let mut start: usize = 0;
    assert(text@ =~= oct_text(input@.take(0)));
    while start < input.len()
        invariant
            start <= input.len(),
            text@ == oct_text(input@.take(start as int)),
        decreases input.len() - start,
    {
        let end = chunk_end(start, input.len());
        let chunk = slice_subrange(input, start, end);
        push_oct_text(chunk, &mut text);
        proof {
            lemma_oct_text_concat(input@.take(start as int), chunk@);
            assert(input@.take(start as int) + chunk@ =~= input@.take(end as int));
        }
        start = end;
    }
    assert(input@.take(input.len() as int) =~= input@);
    Ok(text)
}

/// Encodes bytes as hexadecimal text, a chunk at a time.
pub fn bytes_to_hex(input: &[u8]) -> (r: BytaryResult<Vec<u8>>)
    ensures
        outcome(r) == made(hex_text(input@)),
{
    let mut text: Vec<u8> = Vec::new();
    let mut start: usize = 0;
    assert(text@ =~= hex_text(input@.take(0)));
    while start < input.len()
        invariant
            start <= input.len(),
            text@ == hex_text(input@.take(start as int)),
        decreases input.len() - start,
    {
        let end = chunk_end(start, input.len());
        let chunk = slice_subrange(input, start, end);
        let mut digits = encode_hex(chunk);
        text.append(&mut digits);
        proof {
            lemma_hex_text_concat(input@.take(start as int), chunk@);
            assert(input@.take(start as int) + chunk@ =~= input@.take(end as int));
        }
        start = end;
    }
    assert(input@.take(input.len() as int) =~= input@);
    Ok(text)
}

/// What a decoder reads as digits: the input is UTF-8 text, and all of it
/// counts but whitespace and control characters.
pub open spec fn digits_of(input: Seq<u8>) -> Seq<u8> {
    encode_utf8(significant_of(decode_utf8(input)))
}

/// What the binary decoder makes of an input: the digits of the input,
/// four to a hexadecimal digit. Input that is no UTF-8 text fails as a
/// stream does.
pub open spec fn bin_to_hex_output(input: Seq<u8>) -> Result<Seq<u8>, Failure> {
    if valid_utf8(input) {
        hex_from_bin(digits_of(input))
    } else {
        Err(Failure::Io)
    }
}

/// What the octal decoder makes of an input: the digits of the input,
/// three to a byte. Input that is no UTF-8 text fails as a stream does.
pub open spec fn oct_to_bytes_output(input: Seq<u8>) -> Result<Seq<u8>, Failure> {
    if valid_utf8(input) {
        bytes_from_oct(digits_of(input))
    } else {
        Err(Failure::Io)
    }
}

/// What the hexadecimal decoder makes of an input: the digits of the
/// input, two to a byte. Input that is no UTF-8 text fails as a stream
/// does.
pub open spec fn hex_to_bytes_output(input: Seq<u8>) -> Result<Seq<u8>, Failure> {
    if valid_utf8(input) {
        bytes_from_hex(digits_of(input))
    } else {
        Err(Failure::Io)
    }
}

/// The input as text without its whitespace and control characters.
fn read_digits(input: &[u8]) -> (r: BytaryResult<String>)
    ensures
        match r {
            Ok(digits) => valid_utf8(input@) && digits@ == significant_of(decode_utf8(input@)),
            Err(error) => !valid_utf8(input@) && error@ == Failure::Io,
        },
{
    let text = match read_text(input) {
        Ok(text) => text,
        Err(error) => {
            return Err(BytaryError::Io(error));
        },
    };
    match remove_matches(INSIGNIFICANT, text.as_str()) {
        Some(digits) => Ok(digits),
        None => {
            // The pattern is one that compiles: there is always a rest.
            assert(false);
            Ok(text)
        },
    }
}

/// Turns binary-digit text into hexadecimal text. Whitespace and control
/// characters are passed over; anything else than `0` and `1` is an error.
pub fn bin_to_hex(input: &[u8]) -> (r: BytaryResult<Vec<u8>>)
    ensures
        outcome(r) == bin_to_hex_output(input@),
{
    match read_digits(input) {
        Ok(digits) => bin_digits_to_hex(digits.as_str().as_bytes()),
        Err(error) => Err(error),
    }
}

/// Decodes octal text. Whitespace and control characters are passed over;
/// anything else than an octal digit is an error, and so are three digits
/// that stand for more than a byte holds.
pub fn oct_to_bytes(input: &[u8]) -> (r: BytaryResult<Vec<u8>>)
    ensures
        outcome(r) == oct_to_bytes_output(input@),
{
    match read_digits(input) {
        Ok(digits) => oct_digits_to_bytes(digits.as_str().as_bytes()),
        Err(error) => Err(error),
    }
}

/// Decodes hexadecimal text. Whitespace and control characters are passed
/// over; anything else than a hexadecimal digit is an error.
pub fn hex_to_bytes(input: &[u8]) -> (r: BytaryResult<Vec<u8>>)
    ensures
        outcome(r) == hex_to_bytes_output(input@),
{
    match read_digits(input) {
        Ok(digits) => hex_digits_to_bytes(digits.as_str().as_bytes()),
        Err(error) => Err(error),
    }
}

/// The direct conversions that are built in.
#[derive(Clone, Copy, Debug, PartialEq, Eq, Structural)]
pub enum Builtin {
    BytesToBin,
    BinToHex,
    BytesToOct,
    OctToBytes,
    BytesToHex,
    HexToBytes,
}

impl Converter for Builtin {
    open spec fn output(&self, input: Seq<u8>) -> Result<Seq<u8>, Failure> {
        match self {
            Builtin::BytesToBin => Ok(bin_text(input)),
            Builtin::BinToHex => bin_to_hex_output(input),
            Builtin::BytesToOct => Ok(oct_text(input)),
            Builtin::OctToBytes => oct_to_bytes_output(input),
            Builtin::BytesToHex => Ok(hex_text(input)),
            Builtin::HexToBytes => hex_to_bytes_output(input),
        }
    }

    fn convert(&self, input: &[u8]) -> (r: BytaryResult<Vec<u8>>)
    {
        match self {
            Builtin::BytesToBin => bytes_to_bin(input),
            Builtin::BinToHex => bin_to_hex(input),
            Builtin::BytesToOct => bytes_to_oct(input),
            Builtin::OctToBytes => oct_to_bytes(input),
            Builtin::BytesToHex => bytes_to_hex(input),
            Builtin::HexToBytes => hex_to_bytes(input),
        }
    }
}

/// The conversion that is built in between two formats, if one is.
pub open spec fn builtin_between(from: Format, to: Format) -> Option<Builtin> {
    match (from, to) {
        (Format::Bytes, Format::Bin) => Some(Builtin::BytesToBin),
        (Format::Bin, Format::Hex) => Some(Builtin::BinToHex),
        (Format::Bytes, Format::Oct) => Some(Builtin::BytesToOct),
        (Format::Oct, Format::Bytes) => Some(Builtin::OctToBytes),
        (Format::Bytes, Format::Hex) => Some(Builtin::BytesToHex),
        (Format::Hex, Format::Bytes) => Some(Builtin::HexToBytes),
        _ => None,
    }
}

/// The built-in edges: every built-in conversion between its two formats,
/// at a cost of 1. Bytes and hexadecimal text are joined both ways, and so
/// are bytes and octal text; binary text is only written, and only read
/// into hexadecimal text.
pub open spec fn builtin_edges() -> Map<(Format, Format), (Builtin, u32)> {
    Map::new(
        |pair: (Format, Format)| builtin_between(pair.0, pair.1) is Some,
        |pair: (Format, Format)| (builtin_between(pair.0, pair.1)->Some_0, 1u32),
    )
}

impl Default for ConversionGraph<Builtin> {
    /// The registry of the built-in conversions.
    fn default() -> (graph: Self)
        ensures
            graph@ == builtin_edges(),
    {
        let mut graph = ConversionGraph::new();
        graph.add_direct(Format::Bytes, Format::Bin, Builtin::BytesToBin, 1);
        graph.add_direct(Format::Bin, Format::Hex, Builtin::BinToHex, 1);

        graph.add_direct(Format::Bytes, Format::Oct, Builtin::BytesToOct, 1);
        graph.add_direct(Format::Oct, Format::Bytes, Builtin::OctToBytes, 1);

        graph.add_direct(Format::Bytes, Format::Hex, Builtin::BytesToHex, 1);
        graph.add_direct(Format::Hex, Format::Bytes, Builtin::HexToBytes, 1);

        assert(graph@ =~= builtin_edges());
        graph
    }
}

} // verus!
