//! Text: which characters the decoders pass over, and bytes shown as text.

use vstd::prelude::*;

verus! {

/// The pattern of a run of characters that carry nothing: whitespace and
/// control characters.
pub const INSIGNIFICANT: &'static str = "[\\s\\p{Cc}]+";

/// A character with the Unicode property `White_Space`.
pub open spec fn is_whitespace_char(c: char) -> bool {
    ||| '\u{9}' <= c <= '\u{d}'
    ||| c == ' '
    ||| c == '\u{85}'
    ||| c == '\u{a0}'
    ||| c == '\u{1680}'
    ||| '\u{2000}' <= c <= '\u{200a}'
    ||| c == '\u{2028}'
    ||| c == '\u{2029}'
    ||| c == '\u{202f}'
    ||| c == '\u{205f}'
    ||| c == '\u{3000}'
}

/// A character of the Unicode general category `Control`.
pub open spec fn is_control_char(c: char) -> bool {
    c <= '\u{1f}' || '\u{7f}' <= c <= '\u{9f}'
}

/// A character that digit text may hold anywhere without a meaning of its
/// own: whitespace or a control character.
pub open spec fn is_insignificant_char(c: char) -> bool {
    is_whitespace_char(c) || is_control_char(c)
}

/// The test that every character passes but the insignificant ones.
pub open spec fn significant() -> spec_fn(char) -> bool {
    |c: char| !is_insignificant_char(c)
}

/// A text without its insignificant characters: what a decoder has to
/// read as digits, every character of it.
pub open spec fn significant_of(text: Seq<char>) -> Seq<char> {
    text.filter(significant())
}

/// Bytes read as text, one character for each byte.
pub open spec fn as_text(bytes: Seq<u8>) -> Seq<char> {
    bytes.map_values(|byte: u8| byte as char)
}

/// Bytes as text, one character for each byte.
pub fn text_of(bytes: &[u8]) -> (text: String)
    ensures
        text@ == as_text(bytes@),
{
    let mut text = String::new();
    let mut i: usize = 0;
    while i < bytes.len()
        invariant
            i <= bytes.len(),
            text@ == as_text(bytes@.take(i as int)),
        decreases bytes.len() - i,
    {
        text.push(bytes[i] as char);
        assert(text@ =~= as_text(bytes@.take(i + 1)));
        i += 1;
    }
    assert(bytes@.take(bytes.len() as int) =~= bytes@);
    text
}

} // verus!
