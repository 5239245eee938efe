use bytary::builtins::{bin_to_hex, hex_to_bytes, oct_to_bytes};
use bytary::error::BytaryError;

fn is_white_space(c: char) -> bool {
    matches!(
        c,
        '\u{9}'..='\u{d}'
            | ' '
            | '\u{85}'
            | '\u{a0}'
            | '\u{1680}'
            | '\u{2000}'..='\u{200a}'
            | '\u{2028}'
            | '\u{2029}'
            | '\u{202f}'
            | '\u{205f}'
            | '\u{3000}'
    )
}

fn is_control(c: char) -> bool {
    matches!(c, '\u{0}'..='\u{1f}' | '\u{7f}'..='\u{9f}')
}

fn is_insignificant(c: char) -> bool {
    is_white_space(c) || is_control(c)
}

fn every_char() -> Vec<char> {
    let mut chars: Vec<char> = (0..0x3200u32).filter_map(char::from_u32).collect();
    chars.extend(['\u{feff}', '\u{ffff}', '\u{10000}', '\u{1f600}', '\u{10ffff}']);
    chars
}

#[test]
fn hex_decoder_passes_over_exactly_whitespace_and_controls() {
    for c in every_char() {
        if c.is_ascii_hexdigit() {
            continue;
        }
        let text = format!("1b{}34", c);
        let outcome = hex_to_bytes(text.as_bytes());
        if is_insignificant(c) {
            assert_eq!(outcome.unwrap(), [0x1b, 0x34], "character {:?}", c);
        } else {
            assert!(
                matches!(outcome, Err(BytaryError::InvalidInputData(_))),
                "character {:?}",
                c
            );
        }
    }
}

#[test]
fn oct_decoder_passes_over_exactly_whitespace_and_controls() {
    for c in every_char() {
        let text = format!("01{}6", c);
        let outcome = oct_to_bytes(text.as_bytes());
        if ('0'..='7').contains(&c) {
            let digit = c as u8 - b'0';
            assert_eq!(outcome.unwrap(), [0o10 + digit, 0o6], "character {:?}", c);
        } else if is_insignificant(c) {
            assert_eq!(outcome.unwrap(), [0o16], "character {:?}", c);
        } else {
            assert!(
                matches!(outcome, Err(BytaryError::InvalidInputData(_))),
                "character {:?}",
                c
            );
        }
    }
}

#[test]
fn bin_decoder_passes_over_exactly_whitespace_and_controls() {
    for c in every_char() {
        let text = format!("101{}", c);
        let outcome = bin_to_hex(text.as_bytes());
        match c {
            '0' => assert_eq!(outcome.unwrap(), b"a"),
            '1' => assert_eq!(outcome.unwrap(), b"b"),
            '2'..='9' | 'a'..='z' => match outcome {
                Err(BytaryError::InvalidInputData(detail)) => {
                    assert_eq!(detail, format!("101{}", c))
                }
                other => panic!("unexpected outcome: {:?}", other),
            },
            _ if is_insignificant(c) => assert_eq!(outcome.unwrap(), b"5", "character {:?}", c),
            _ => assert!(
                matches!(outcome, Err(BytaryError::InvalidInputData(_))),
                "character {:?}",
                c
            ),
        }
    }
}
