//! What holds of the built-in conversions taken together: they read back
//! what they write, and every path between two formats makes the same of an
//! input.

use crate::builtins::{
    bin_to_hex_output, builtin_between, builtin_edges, digits_of, hex_to_bytes_output,
    oct_to_bytes_output, Builtin,
};
use crate::convert::{chained, lemma_chained_concat, lemma_chained_single, ConversionGraph, Converter};
use crate::digits::{
    bin_digit, bin_group_ok, bin_group_value, bin_text, bytes_from_hex, bytes_from_oct, digit_char,
    hex_char, hex_digit, hex_from_bin, hex_group_ok, hex_group_value, hex_pairs, hex_text,
    oct_digit, oct_group_ok, oct_group_value, oct_text, padded,
};
use crate::format::Format;
use crate::error::made;
use crate::text::{as_text, significant};
use vstd::prelude::*;
use vstd::utf8::{
    decode_utf8, encode_utf8, encode_utf8_decode_utf8, encode_utf8_valid_utf8, is_ascii_chars,
    is_ascii_chars_encode_utf8, valid_utf8,
};

verus! {

/// Bytes below 128 are UTF-8 text that has one character for each byte.
pub proof fn lemma_ascii_is_text(bytes: Seq<u8>)
    requires
        forall|i: int| 0 <= i < bytes.len() ==> #[trigger] bytes[i] < 128,
    ensures
        valid_utf8(bytes),
        decode_utf8(bytes) == as_text(bytes),
        encode_utf8(as_text(bytes)) == bytes,
{
    let chars = as_text(bytes);
    assert forall|i: int| 0 <= i < chars.len() implies '\0' <= #[trigger] chars[i] <= '\u{7f}' by {
        assert(bytes[i] < 128);
    }
    assert(is_ascii_chars(chars));
    is_ascii_chars_encode_utf8(chars);
    assert(encode_utf8(chars) =~= bytes) by {
        assert forall|i: int| 0 <= i < bytes.len() implies encode_utf8(chars)[i] == bytes[i] by {
            assert(chars[i] as u8 == encode_utf8(chars)[i]);
            assert(bytes[i] < 128);
        }
    }
    encode_utf8_valid_utf8(chars);
    encode_utf8_decode_utf8(chars);
}

/// A filter that every element passes leaves the sequence as it is.
pub proof fn lemma_filter_keeps_all<T>(items: Seq<T>, keep: spec_fn(T) -> bool)
    requires
        forall|i: int| 0 <= i < items.len() ==> keep(#[trigger] items[i]),
    ensures
        items.filter(keep) == items,
    decreases items.len(),
{
    reveal(Seq::filter);
    if items.len() > 0 {
        let front = items.drop_last();
        assert forall|i: int| 0 <= i < front.len() implies keep(#[trigger] front[i]) by {
            assert(front[i] == items[i]);
        }
        lemma_filter_keeps_all(front, keep);
        assert(front.push(items.last()) =~= items);
    }
}

/// Decoding the hexadecimal digits of bytes gives the bytes back.
pub proof fn lemma_hex_digits_round_trip(data: Seq<u8>)
    ensures
        bytes_from_hex(hex_text(data)) == made(data),
{
    let text = hex_text(data);
    assert(padded(text, 2) == text);
    assert forall|g: int| 0 <= g < text.len() as int / 2 implies hex_group_ok(text, g)
        && hex_group_value(text, g) == data[g] by {
        assert(text[2 * g] == hex_char(hex_digit(data[g], 0)));
        assert(text[2 * g + 1] == hex_char(hex_digit(data[g], 1)));
    }
    assert(hex_pairs(text) =~= data);
}

/// Decoding the octal digits of bytes gives the bytes back.
pub proof fn lemma_oct_digits_round_trip(data: Seq<u8>)
    ensures
        bytes_from_oct(oct_text(data)) == made(data),
{
    let text = oct_text(data);
    assert(padded(text, 3) == text);
    assert forall|g: int| 0 <= g < text.len() as int / 3 implies oct_group_ok(text, g)
        && oct_group_value(text, g) == data[g] by {
        assert(text[3 * g] == digit_char(oct_digit(data[g], 0)));
        assert(text[3 * g + 1] == digit_char(oct_digit(data[g], 1)));
        assert(text[3 * g + 2] == digit_char(oct_digit(data[g], 2)));
    }
    assert(Seq::new((text.len() as int / 3) as nat, |g: int| oct_group_value(text, g) as u8)
        =~= data);
}

/// Four binary digits of a byte make one of its two hexadecimal digits.
proof fn lemma_nibbles(byte: u8)
    ensures
        8 * bin_digit(byte, 0) + 4 * bin_digit(byte, 1) + 2 * bin_digit(byte, 2) + bin_digit(
            byte,
            3,
        ) == hex_digit(byte, 0),
        8 * bin_digit(byte, 4) + 4 * bin_digit(byte, 5) + 2 * bin_digit(byte, 6) + bin_digit(
            byte,
            7,
        ) == hex_digit(byte, 1),
{
    assert(8 * (byte / 128) + 4 * (byte / 64 % 2) + 2 * (byte / 32 % 2) + byte / 16 % 2 == byte
        / 16) by (bit_vector);
    assert(8 * (byte / 8 % 2) + 4 * (byte / 4 % 2) + 2 * (byte / 2 % 2) + byte % 2 == byte % 16)
        by (bit_vector);
}

/// Where the binary digits of a byte stand in the text.
proof fn lemma_bin_digit_at(data: Seq<u8>, k: int, place: int)
    requires
        0 <= k < data.len(),
        0 <= place < 8,
    ensures
        8 * k + place < bin_text(data).len(),
        bin_text(data)[8 * k + place] == digit_char(bin_digit(data[k], place)),
        bin_digit(data[k], place) == 0 || bin_digit(data[k], place) == 1,
{
    let i = 8 * k + place;
    assert(i / 8 == k && i % 8 == place);
}

/// The binary digits of each half of a byte make a group that stands for
/// the hexadecimal digit of that half.
proof fn lemma_bin_group(data: Seq<u8>, k: int, half: int)
    requires
        0 <= k < data.len(),
        half == 0 || half == 1,
    ensures
        bin_group_ok(bin_text(data), 2 * k + half),
        bin_group_value(bin_text(data), 2 * k + half) == hex_digit(data[k], half),
{
    lemma_nibbles(data[k]);
    lemma_bin_digit_at(data, k, 4 * half);
    lemma_bin_digit_at(data, k, 4 * half + 1);
    lemma_bin_digit_at(data, k, 4 * half + 2);
    lemma_bin_digit_at(data, k, 4 * half + 3);
    assert(4 * (2 * k + half) == 8 * k + 4 * half);
}

/// Binary digits in whole groups that all stand for a hexadecimal digit
/// decode to those digits.
proof fn lemma_hex_from_bin_groups(digits: Seq<u8>, hex: Seq<u8>)
    requires
        digits.len() == 4 * hex.len(),
        forall|g: int| 0 <= g < hex.len() ==> #[trigger] bin_group_ok(digits, g),
        forall|g: int|
            0 <= g < hex.len() ==> hex_char(#[trigger] bin_group_value(digits, g)) == hex[g],
    ensures
        hex_from_bin(digits) == made(hex),
{
    let text = padded(digits, 4);
    let count = text.len() as int / 4;
    assert(text == digits);
    assert(count == hex.len());
    let decoded = Seq::new(count as nat, |g: int| hex_char(bin_group_value(text, g)));
    assert(decoded =~= hex);
}

/// The hexadecimal digits of the binary digits of bytes are the hexadecimal
/// digits of the bytes.
pub proof fn lemma_bin_digits_to_hex(data: Seq<u8>)
    ensures
        hex_from_bin(bin_text(data)) == made(hex_text(data)),
{
    let text = bin_text(data);
    let hex = hex_text(data);
    assert forall|g: int| 0 <= g < hex.len() implies #[trigger] bin_group_ok(text, g) by {
        lemma_bin_group(data, g / 2, g % 2);
    }
    assert forall|g: int| 0 <= g < hex.len() implies hex_char(
        #[trigger] bin_group_value(text, g),
    ) == hex[g] by {
        lemma_bin_group(data, g / 2, g % 2);
    }
    lemma_hex_from_bin_groups(text, hex);
}

/// Text made of printable ASCII characters other than the space is read
/// as digits just as it stands: nothing of it is passed over.
pub proof fn lemma_plain_digits(text: Seq<u8>)
    requires
        forall|i: int| 0 <= i < text.len() ==> 0x20 < #[trigger] text[i] < 0x7f,
    ensures
        valid_utf8(text),
        digits_of(text) == text,
{
    lemma_ascii_is_text(text);
    lemma_filter_keeps_all(as_text(text), significant());
}

/// Decoding the hexadecimal text of bytes gives the bytes back.
pub proof fn lemma_hex_round_trip(data: Seq<u8>)
    ensures
        hex_to_bytes_output(hex_text(data)) == made(data),
{
    let text = hex_text(data);
    lemma_plain_digits(text);
    lemma_hex_digits_round_trip(data);
}

/// Decoding the octal text of bytes gives the bytes back.
pub proof fn lemma_oct_round_trip(data: Seq<u8>)
    ensures
        oct_to_bytes_output(oct_text(data)) == made(data),
{
    let text = oct_text(data);
    lemma_plain_digits(text);
    lemma_oct_digits_round_trip(data);
}

/// Going from bytes to hexadecimal text by way of binary text gives what
/// going there directly gives.
pub proof fn lemma_hex_through_bin(data: Seq<u8>)
    ensures
        bin_to_hex_output(bin_text(data)) == made(hex_text(data)),
{
    let text = bin_text(data);
    lemma_plain_digits(text);
    lemma_bin_digits_to_hex(data);
}

/// How data is written in a format that the built-in conversions reach.
/// Of the other formats nothing is converted, so data stays as it is.
pub open spec fn rendering(format: Format, data: Seq<u8>) -> Seq<u8> {
    match format {
        Format::Bin => bin_text(data),
        Format::Hex => hex_text(data),
        Format::Oct => oct_text(data),
        _ => data,
    }
}

/// Every edge of the registry carries the conversion that is built in
/// between its two formats.
pub open spec fn holds_builtins(graph: ConversionGraph<Builtin>) -> bool {
    forall|from: Format, to: Format| #[trigger]
        graph@.contains_key((from, to)) ==> builtin_between(from, to) == Some(
            graph@[(from, to)].0,
        )
}

/// A built-in conversion takes data written in its source format to the
/// same data written in its target format.
pub proof fn lemma_builtin_step(from: Format, to: Format, data: Seq<u8>)
    requires
        builtin_between(from, to) is Some,
    ensures
        builtin_between(from, to)->Some_0.output(rendering(from, data)) == made(
            rendering(to, data),
        ),
{
    lemma_hex_round_trip(data);
    lemma_oct_round_trip(data);
    lemma_hex_through_bin(data);
}

/// Every path along built-in edges takes data written in the format it
/// starts from to the same data written in the format it ends at: which
/// path is taken between two formats makes no difference to what comes out.
pub proof fn lemma_paths_agree(graph: ConversionGraph<Builtin>, path: Seq<Format>, data: Seq<u8>)
    requires
        holds_builtins(graph),
        graph.is_route(path),
    ensures
        chained(graph.converters_along(path, (path.len() - 1) as nat), rendering(path[0], data))
            == made(rendering(path.last(), data)),
    decreases path.len(),
{
    let stages = graph.converters_along(path, (path.len() - 1) as nat);
    let input = rendering(path[0], data);
    if path.len() == 1 {
        assert(stages =~= Seq::<Builtin>::empty());
    } else {
        let before = path.drop_last();
        let from = path[path.len() - 2];
        let to = path.last();
        assert forall|i: int| 0 <= i < before.len() - 1 implies #[trigger] graph.has_step(
            before,
            i,
        ) by {
            assert(graph.has_step(path, i));
        }
        lemma_paths_agree(graph, before, data);
        assert(graph.has_step(path, path.len() - 2));
        assert(graph@.contains_key((from, to)));
        let last = graph@[(from, to)].0;
        let front = graph.converters_along(before, (before.len() - 1) as nat);
        assert(stages =~= front + seq![last]);
        lemma_chained_concat(front, seq![last], input);
        lemma_chained_single(last, rendering(from, data));
        lemma_builtin_step(from, to, data);
    }
}

/// Bringing data from one format into another along built-in edges and
/// back along built-in edges gives the data back as it was written in the
/// first format, whatever the data and whichever the two paths. Raw bytes
/// are written as themselves, so any bytes at all come back from a round
/// trip that starts with raw bytes.
pub proof fn lemma_round_trip(
    graph: ConversionGraph<Builtin>,
    from: Format,
    to: Format,
    forward: Seq<Format>,
    backward: Seq<Format>,
    data: Seq<u8>,
)
    requires
        holds_builtins(graph),
        graph.links(from, to, forward),
        graph.links(to, from, backward),
    ensures
        rendering(Format::Bytes, data) == data,
        chained(
            graph.converters_along(forward, (forward.len() - 1) as nat),
            rendering(from, data),
        ) matches Ok(encoded) && chained(
            graph.converters_along(backward, (backward.len() - 1) as nat),
            encoded,
        ) == made(rendering(from, data)),
{
    lemma_paths_agree(graph, forward, data);
    lemma_paths_agree(graph, backward, data);
}

/// Two paths along built-in edges between the same two formats, be they
/// direct or not and in one registry or in two, make the same of an input.
pub proof fn lemma_same_output(
    first: ConversionGraph<Builtin>,
    direct: Seq<Format>,
    second: ConversionGraph<Builtin>,
    indirect: Seq<Format>,
    data: Seq<u8>,
)
    requires
        holds_builtins(first),
        holds_builtins(second),
        first.is_route(direct),
        second.is_route(indirect),
        direct[0] == indirect[0],
        direct.last() == indirect.last(),
    ensures
        chained(
            first.converters_along(direct, (direct.len() - 1) as nat),
            rendering(direct[0], data),
        ) == chained(
            second.converters_along(indirect, (indirect.len() - 1) as nat),
            rendering(direct[0], data),
        ),
{
    lemma_paths_agree(first, direct, data);
    lemma_paths_agree(second, indirect, data);
}

/// Where the only edges lead from bytes to binary text and from binary
/// text to hexadecimal text, the one path from bytes to hexadecimal text
/// goes through binary text.
pub proof fn lemma_route_through_bin<C: Converter>(graph: ConversionGraph<C>, path: Seq<Format>)
    requires
        forall|from: Format, to: Format| #[trigger]
            graph@.contains_key((from, to)) <==> (from == Format::Bytes && to == Format::Bin) || (
            from == Format::Bin && to == Format::Hex),
        graph.links(Format::Bytes, Format::Hex, path),
    ensures
        path == seq![Format::Bytes, Format::Bin, Format::Hex],
{
    assert(graph.has_step(path, 0));
    assert(graph.has_step(path, 1));
    if path.len() > 3 {
        assert(graph.has_step(path, 2));
    }
    assert(path =~= seq![Format::Bytes, Format::Bin, Format::Hex]);
}

/// The registry of the built-in conversions holds them.
pub proof fn lemma_builtin_registry(graph: ConversionGraph<Builtin>)
    requires
        graph@ == builtin_edges(),
    ensures
        holds_builtins(graph),
{
}

/// Converting along the router's pick in a registry of built-in
/// conversions takes data written in the one format to the same data
/// written in the other.
pub proof fn lemma_conversion_renders(
    graph: ConversionGraph<Builtin>,
    from: Format,
    to: Format,
    data: Seq<u8>,
)
    requires
        holds_builtins(graph),
        graph.routed(from, to),
        graph.reachable(from, to),
    ensures
        graph.conversion(from, to, rendering(from, data)) == made(rendering(to, data)),
{
    let path = graph.route(from, to)->Some_0;
    lemma_paths_agree(graph, path, data);
}

/// Where the built-in conversions lead from raw bytes to a format and
/// back, converting any bytes there and converting the result back gives
/// the bytes again.
pub proof fn lemma_conversion_round_trip(graph: ConversionGraph<Builtin>, to: Format, data: Seq<u8>)
    requires
        holds_builtins(graph),
        graph.routed(Format::Bytes, to),
        graph.routed(to, Format::Bytes),
        graph.reachable(Format::Bytes, to),
        graph.reachable(to, Format::Bytes),
    ensures
        graph.conversion(Format::Bytes, to, data) matches Ok(encoded) && graph.conversion(
            to,
            Format::Bytes,
            encoded,
        ) == made(data),
{
    lemma_conversion_renders(graph, Format::Bytes, to, data);
    lemma_conversion_renders(graph, to, Format::Bytes, data);
}

/// Two registries of built-in conversions make the same of an input
/// between two formats, also where the one converts directly and the other
/// has to go by way of a third format.
pub proof fn lemma_conversion_agrees(
    first: ConversionGraph<Builtin>,
    second: ConversionGraph<Builtin>,
    from: Format,
    to: Format,
    data: Seq<u8>,
)
    requires
        holds_builtins(first),
        holds_builtins(second),
        first.routed(from, to),
        second.routed(from, to),
        first.reachable(from, to),
        second.reachable(from, to),
    ensures
        first.conversion(from, to, rendering(from, data)) == second.conversion(
            from,
            to,
            rendering(from, data),
        ),
{
    lemma_conversion_renders(first, from, to, data);
    lemma_conversion_renders(second, from, to, data);
}

} // verus!
