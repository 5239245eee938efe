use bytary::builtins::{Builtin, CHUNK_SIZE};
use bytary::convert::{ConversionGraph, Converter, Pipeline};
use bytary::digits::{push_bin_text, push_oct_text};
use bytary::error::BytaryError;
use bytary::format::Format;
use bytary::text::text_of;

#[test]
fn text_of_shows_each_byte_as_a_character() {
    assert_eq!(text_of(b"1g"), "1g");
    assert_eq!(text_of(&[]), "");
    assert_eq!(text_of(&[0x41, 0xe9, 0xff, 0x0a]), "A\u{e9}\u{ff}\n");
}

#[test]
fn digit_text_is_appended() {
    let mut text = b"> ".to_vec();
    push_bin_text(&[0xa5], &mut text);
    push_oct_text(&[0xa5, 0x07], &mut text);
    push_bin_text(&[], &mut text);
    assert_eq!(text, b"> 10100101245007");
}

#[test]
fn chunks_hold_1024_bytes() {
    assert_eq!(CHUNK_SIZE, 1024);
    let data = vec![0xabu8; CHUNK_SIZE + 1];
    let hex = Builtin::BytesToHex.convert(&data).unwrap();
    assert_eq!(hex.len(), 2 * CHUNK_SIZE + 2);
    assert!(hex.chunks(2).all(|pair| pair == b"ab"));
}

#[test]
fn convert_along_follows_the_given_path() {
    let graph = ConversionGraph::<Builtin>::default();
    let data = [0x1b, 0x34];
    let direct = graph.convert_along(&vec![Format::Bytes, Format::Hex], &data).unwrap();
    let through_bin = graph
        .convert_along(&vec![Format::Bytes, Format::Bin, Format::Hex], &data)
        .unwrap();
    let through_oct = graph
        .convert_along(
            &vec![Format::Bytes, Format::Oct, Format::Bytes, Format::Hex],
            &data,
        )
        .unwrap();
    assert_eq!(direct, b"1b34");
    assert_eq!(through_bin, direct);
    assert_eq!(through_oct, direct);
    assert_eq!(graph.convert_along(&vec![Format::Hex], b"1b34").unwrap(), b"1b34");
    assert_eq!(graph.convert_along(&vec![], b"1b34").unwrap(), b"1b34");
    let stopped = graph
        .convert_along(&vec![Format::Bytes, Format::Bin, Format::Oct], &data)
        .unwrap();
    assert_eq!(stopped, b"0001101100110100");
}

#[test]
fn convert_along_gives_the_failure_of_a_stage() {
    let graph = ConversionGraph::<Builtin>::default();
    match graph.convert_along(&vec![Format::Hex, Format::Bytes, Format::Oct], b"0g") {
        Err(BytaryError::InvalidInputData(detail)) => assert_eq!(detail, "0g"),
        other => panic!("unexpected outcome: {:?}", other),
    }
    match graph.convert_along(&vec![Format::Oct, Format::Bytes], &[0x80]) {
        Err(BytaryError::Io(_)) => {}
        other => panic!("unexpected outcome: {:?}", other),
    }
}

#[test]
fn pipeline_of_builtins() {
    let stages = [Builtin::BytesToOct, Builtin::OctToBytes, Builtin::BytesToBin];
    let pipeline = Pipeline::new(stages.iter().collect());
    assert_eq!(pipeline.convert(&[0x05]).unwrap(), b"00000101");
}
