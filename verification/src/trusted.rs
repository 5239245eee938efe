//! What is taken on trust: the contracts of the functions of other crates
//! and of the standard library that the verified code calls. Nothing here
//! is proved; each contract says what the documentation or the source of
//! the function says.

use crate::route::{is_goal, joins, neighbours, rows, Adjacency};
use crate::digits::{all_hex, first_non_hex, hex_pairs, hex_text, HexFault};
use crate::format::Format;
use crate::text::{significant_of, INSIGNIFICANT};
use vstd::prelude::*;
use vstd::utf8::{decode_utf8, valid_utf8};

verus! {

/// The error of a byte stream, `std::io::Error`: carried, never looked into.
#[verifier::external_type_specification]
#[verifier::external_body]
pub struct ExIoError(std::io::Error);

/// `String::push` puts the character at the end of the text.
pub assume_specification[ String::push ](text: &mut String, c: char)
    ensures
        final(text)@ == old(text)@.push(c),
;

/// `std::io::Read::read_to_string` on a byte slice: the whole slice as text
/// where it is valid UTF-8, an error where it is not.
#[verifier::external_body]
pub(crate) fn read_text(input: &[u8]) -> (r: Result<String, std::io::Error>)
    ensures
        r is Ok <==> valid_utf8(input@),
        r matches Ok(text) ==> text@ == decode_utf8(input@),
{
    let mut text = String::new();
    let mut source = input;
    std::io::Read::read_to_string(&mut source, &mut text)?;
    Ok(text)
}

/// `regex::Regex::replace_all` with the empty text as the replacement, on the
/// regular expression that `regex::Regex::new` makes of `pattern`: the text
/// without what matches. Of the pattern that the decoders use the contract
/// says what is left: `[\s\p{Cc}]+` matches every run of characters that
/// have the Unicode property `White_Space` or the general category
/// `Control`, so that all of them go and every other character stays.
/// `None` is for a pattern that does not compile.
#[verifier::external_body]
pub(crate) fn remove_matches(pattern: &str, text: &str) -> (r: Option<String>)
    ensures
        pattern@ == INSIGNIFICANT@ ==> r is Some,
        r matches Some(rest) ==> (pattern@ == INSIGNIFICANT@ ==> rest@ == significant_of(text@)),
{
    match regex::Regex::new(pattern) {
        Ok(expression) => Some(expression.replace_all(text, "").into_owned()),
        Err(_) => None,
    }
}

/// `hex::encode`: two lower-case hexadecimal digits for each byte, the more
/// significant first.
#[verifier::external_body]
pub(crate) fn encode_hex(data: &[u8]) -> (text: Vec<u8>)
    ensures
        text@ == hex_text(data@),
{
    hex::encode(data).into_bytes()
}

/// `hex::decode`: the bytes that the digit pairs stand for, digits of either
/// case taken; text of odd length is refused, and else the first character
/// that is no hexadecimal digit.
#[verifier::external_body]
pub(crate) fn decode_hex(text: &[u8]) -> (r: Result<Vec<u8>, HexFault>)
    ensures
        text.len() % 2 == 1 ==> r matches Err(HexFault::OddLength),
        text.len() % 2 == 0 ==> match r {
            Ok(bytes) => all_hex(text@) && bytes@ == hex_pairs(text@),
            Err(HexFault::InvalidCharacter { c, index }) => first_non_hex(text@, index as int)
                && c == text[index as int] as char,
            Err(_) => false,
        },
{
    match hex::decode(text) {
        Ok(bytes) => Ok(bytes),
        Err(hex::FromHexError::InvalidHexCharacter { c, index }) => Err(
            HexFault::InvalidCharacter { c, index },
        ),
        Err(hex::FromHexError::OddLength) => Err(HexFault::OddLength),
        Err(hex::FromHexError::InvalidStringLength) => Err(HexFault::InvalidLength),
    }
}

/// What `pathfinding::prelude::dijkstra` returns for the successors of
/// `adjacency`, the start `from` and the goal `to`: the path that it found
/// and the cost of that path.
pub uninterp spec fn dijkstra_route(adjacency: Adjacency, from: Format, to: Format) -> Option<
    (Seq<Format>, u64),
>;

/// `pathfinding::prelude::dijkstra` from `from`, with the lists of
/// `adjacency` as the successors and `to` as the goal. It returns a walk
/// from the start to the goal of the least total cost, both ends included,
/// that passes no node twice, together with that cost, and nothing where
/// no walk leads to the goal. The costs are kept small enough for the sum
/// along any walk that the search looks at to fit.
#[verifier::external_body]
pub(crate) fn shortest_walk(
    adjacency: &Vec<Vec<(Format, u64)>>,
    from: &Format,
    to: &Format,
) -> (r: Option<(Vec<Format>, u64)>)
    requires
        forall|i: int, j: int|
            0 <= i < adjacency.len() && 0 <= j < adjacency[i].len() ==> (
            #[trigger] adjacency[i][j]).1 <= u32::MAX,
    ensures
        match r {
            Some((path, cost)) => dijkstra_route(rows(adjacency@), *from, *to) == Some(
                (path@, cost),
            ),
            None => dijkstra_route(rows(adjacency@), *from, *to) is None,
        },
        r is Some <==> exists|path: Seq<Format>, cost: int|
            joins(rows(adjacency@), *from, *to, path, cost),
        r matches Some((path, cost)) ==> {
            &&& joins(rows(adjacency@), *from, *to, path@, cost as int)
            &&& path@.no_duplicates()
            &&& forall|other: Seq<Format>, price: int|
                joins(rows(adjacency@), *from, *to, other, price) ==> cost <= price
        },
{
    pathfinding::prelude::dijkstra(
        from,
        |node: &Format| neighbours(adjacency, node),
        |node: &Format| is_goal(node, to),
    )
}

} // verus!
