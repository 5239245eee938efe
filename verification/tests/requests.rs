use bytary::builtins::Builtin;
use bytary::convert::ConversionGraph;
use bytary::error::BytaryError;
use bytary::format::Format;

#[test]
fn test_cli_bytes_to_hex() {
    let graph = ConversionGraph::<Builtin>::default();
    let output = graph
        .serve("hex", "bytes", 0, 0, &[0x1b, 0x34, 0x8f, 0xff, 0x00, 0x0e])
        .unwrap();
    assert_eq!(output, b"1b348fff000e");
}

#[test]
fn test_bytes_to_bytes() {
    let graph = ConversionGraph::<Builtin>::default();
    let data = [0x1b, 0x34, 0x8f, 0xff, 0x00, 0x0e];
    let output = graph.serve("bytes", "bytes", 0, 0, &data).unwrap();
    assert_eq!(output, &data);
}

#[test]
fn request_with_separators() {
    let graph = ConversionGraph::<Builtin>::default();
    let output = graph.serve("hex", "bytes", 2, 8, &[0x1b, 0x34, 0x8f, 0xff, 0x00]).unwrap();
    assert_eq!(output, b"1b 34 8f ff \n00 ");
}

#[test]
fn request_reads_the_target_name_first() {
    let graph = ConversionGraph::<Builtin>::default();
    match graph.serve("hexa", "byte", 0, 0, b"") {
        Err(BytaryError::InvalidFormat(name)) => assert_eq!(name, "hexa"),
        other => panic!("unexpected outcome: {:?}", other),
    }
    match graph.serve("hex", "byte", 0, 0, b"") {
        Err(BytaryError::InvalidFormat(name)) => assert_eq!(name, "byte"),
        other => panic!("unexpected outcome: {:?}", other),
    }
}

#[test]
fn request_between_unconnected_formats_is_unsupported() {
    let graph = ConversionGraph::<Builtin>::default();
    match graph.serve("base64", "bytes", 0, 0, b"abc") {
        Err(BytaryError::UnsupportedConversion(from, to)) => {
            assert_eq!(from, Format::Bytes);
            assert_eq!(to, Format::Base64);
        }
        other => panic!("unexpected outcome: {:?}", other),
    }
    match graph.serve("bin", "oct", 0, 0, b"101") {
        Ok(output) => assert_eq!(output, b"01000001"),
        other => panic!("unexpected outcome: {:?}", other),
    }
    match graph.serve("oct", "bin", 0, 0, b"01000001") {
        Ok(output) => assert_eq!(output, b"101"),
        other => panic!("unexpected outcome: {:?}", other),
    }
}

#[test]
fn request_with_malformed_input_fails() {
    let graph = ConversionGraph::<Builtin>::default();
    match graph.serve("bytes", "hex", 0, 0, b"1g") {
        Err(BytaryError::InvalidInputData(detail)) => assert_eq!(detail, "1g"),
        other => panic!("unexpected outcome: {:?}", other),
    }
}

#[test]
fn list_formats_names_what_goes_both_ways() {
    let graph = ConversionGraph::<Builtin>::default();
    assert_eq!(
        graph.list_formats(),
        vec![Format::Bytes, Format::Bin, Format::Hex, Format::Oct]
    );
    let empty = ConversionGraph::<Builtin>::new();
    assert_eq!(empty.list_formats(), vec![Format::Bytes]);
}
