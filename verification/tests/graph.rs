use bytary::builtins::Builtin;
use bytary::convert::{ConversionGraph, Converter};
use bytary::route::{is_goal, neighbours};
use bytary::error::{BytaryError, BytaryResult};
use bytary::format::Format;
use bytary::format::Format::{Base32, Base64};

/// A converter of the test's own: adds a number to every byte.
struct Shift(u8);

impl Converter for Shift {
    fn convert(&self, input: &[u8]) -> BytaryResult<Vec<u8>> {
        Ok(input.iter().map(|byte| byte.wrapping_add(self.0)).collect())
    }
}

/// A converter of the test's own that always fails.
struct Broken;

impl Converter for Broken {
    fn convert(&self, _input: &[u8]) -> BytaryResult<Vec<u8>> {
        Err(BytaryError::InvalidInputData("broken".to_string()))
    }
}

#[test]
fn new_registry_is_empty() {
    let graph = ConversionGraph::<Builtin>::new();
    assert_eq!(graph.size(), 0);
    assert!(graph.get_direct_converter(&Format::Bytes, &Format::Hex).is_none());
    assert!(graph.successors(&Format::Bytes).is_empty());
}

#[test]
fn add_direct_registers_one_directed_edge() {
    let mut graph = ConversionGraph::new();
    graph.add_direct(Format::Bytes, Format::Hex, Builtin::BytesToHex, 1);
    assert_eq!(graph.size(), 1);
    assert!(graph.can_convert(&Format::Bytes, &Format::Hex));
    assert!(!graph.can_convert(&Format::Hex, &Format::Bytes));
    assert!(!graph.can_convert_between(&Format::Bytes, &Format::Hex));

    graph.add_direct(Format::Hex, Format::Bytes, Builtin::HexToBytes, 1);
    assert_eq!(graph.size(), 2);
    assert!(graph.can_convert_between(&Format::Bytes, &Format::Hex));
}

#[test]
fn add_direct_overwrites_the_edge_of_a_pair() {
    let mut graph = ConversionGraph::new();
    graph.add_direct(Format::Bytes, Format::Hex, Shift(1), 5);
    graph.add_direct(Format::Bytes, Format::Hex, Shift(2), 7);
    assert_eq!(graph.size(), 1);
    assert_eq!(graph.get_direct_cost(&Format::Bytes, &Format::Hex), Some(7));
    assert_eq!(graph.get_direct_cost(&Format::Hex, &Format::Bytes), None);
    assert_eq!(graph.successors(&Format::Bytes), vec![(Format::Hex, 7)]);
    let converter = graph.get_direct_converter(&Format::Bytes, &Format::Hex).unwrap();
    assert_eq!(converter.convert(&[1, 2, 255]).unwrap(), [3, 4, 1]);
}

#[test]
fn registry_holds_every_pair() {
    let mut graph = ConversionGraph::new();
    let mut count = 0;
    for from in Format::all() {
        for to in Format::all() {
            graph.add_direct(from, to, Shift(from.ordinal() as u8 * 6 + to.ordinal() as u8), 1);
            count += 1;
            assert_eq!(graph.size(), count);
        }
    }
    assert_eq!(graph.size(), 36);
    for from in Format::all() {
        for to in Format::all() {
            let converter = graph.get_direct_converter(&from, &to).unwrap();
            assert_eq!(converter.0, from.ordinal() as u8 * 6 + to.ordinal() as u8);
        }
    }
    assert_eq!(graph.successors(&Base64).len(), 6);
}

#[test]
fn builtin_registry_has_six_edges() {
    let graph = ConversionGraph::<Builtin>::default();
    assert_eq!(graph.size(), 6);
    assert_eq!(
        graph.successors(&Format::Bytes),
        vec![(Format::Bin, 1), (Format::Hex, 1), (Format::Oct, 1)]
    );
    assert_eq!(graph.successors(&Format::Bin), vec![(Format::Hex, 1)]);
    assert_eq!(graph.successors(&Format::Hex), vec![(Format::Bytes, 1)]);
    assert_eq!(graph.successors(&Format::Oct), vec![(Format::Bytes, 1)]);
    assert!(graph.successors(&Base32).is_empty());
    assert!(graph.successors(&Base64).is_empty());
    assert_eq!(
        graph.get_direct_converter(&Format::Bin, &Format::Hex),
        Some(&Builtin::BinToHex)
    );
    assert!(graph.get_direct_converter(&Format::Hex, &Format::Bin).is_none());
    assert!(graph.get_direct_converter(&Format::Bin, &Format::Bytes).is_none());
}

#[test]
fn shortest_path_in_the_builtin_registry() {
    let graph = ConversionGraph::<Builtin>::default();
    assert_eq!(
        graph.find_shortest_path(&Format::Bytes, &Format::Hex),
        Some(vec![Format::Bytes, Format::Hex])
    );
    assert_eq!(
        graph.find_shortest_path(&Format::Hex, &Format::Bin),
        Some(vec![Format::Hex, Format::Bytes, Format::Bin])
    );
    assert_eq!(
        graph.find_shortest_path(&Format::Bin, &Format::Oct),
        Some(vec![Format::Bin, Format::Hex, Format::Bytes, Format::Oct])
    );
    assert_eq!(graph.find_shortest_path(&Format::Bytes, &Base64), None);
    assert_eq!(graph.find_shortest_path(&Base32, &Format::Bytes), None);
    assert_eq!(graph.find_shortest_path(&Base32, &Base32), Some(vec![Base32]));
}

#[test]
fn shortest_path_is_the_same_on_every_call() {
    let mut graph = ConversionGraph::new();
    graph.add_direct(Format::Bytes, Format::Bin, Shift(1), 1);
    graph.add_direct(Format::Bytes, Format::Oct, Shift(1), 1);
    graph.add_direct(Format::Bin, Format::Hex, Shift(1), 1);
    graph.add_direct(Format::Oct, Format::Hex, Shift(1), 1);
    let first = graph.find_shortest_path(&Format::Bytes, &Format::Hex);
    for _ in 0..20 {
        assert_eq!(graph.find_shortest_path(&Format::Bytes, &Format::Hex), first);
    }
    let mut other = ConversionGraph::new();
    other.add_direct(Format::Oct, Format::Hex, Shift(9), 1);
    other.add_direct(Format::Bin, Format::Hex, Shift(9), 1);
    other.add_direct(Format::Bytes, Format::Oct, Shift(9), 1);
    other.add_direct(Format::Bytes, Format::Bin, Shift(9), 1);
    assert_eq!(other.find_shortest_path(&Format::Bytes, &Format::Hex), first);
    let path = first.unwrap();
    assert_eq!(path.len(), 3);
    assert_eq!(path[0], Format::Bytes);
    assert_eq!(path[2], Format::Hex);
}

#[test]
fn shortest_path_goes_by_cost_not_by_length() {
    let mut graph = ConversionGraph::new();
    graph.add_direct(Format::Bytes, Format::Hex, Shift(1), 10);
    graph.add_direct(Format::Bytes, Format::Bin, Shift(1), 2);
    graph.add_direct(Format::Bin, Format::Oct, Shift(1), 3);
    graph.add_direct(Format::Oct, Format::Hex, Shift(1), 4);
    assert_eq!(
        graph.find_shortest_path(&Format::Bytes, &Format::Hex),
        Some(vec![Format::Bytes, Format::Bin, Format::Oct, Format::Hex])
    );
    graph.add_direct(Format::Bytes, Format::Hex, Shift(1), 8);
    assert_eq!(
        graph.find_shortest_path(&Format::Bytes, &Format::Hex),
        Some(vec![Format::Bytes, Format::Hex])
    );
}

#[test]
fn the_largest_costs_do_not_overflow() {
    let mut graph = ConversionGraph::new();
    graph.add_direct(Format::Bytes, Format::Bin, Shift(1), u32::MAX);
    graph.add_direct(Format::Bin, Format::Hex, Shift(1), u32::MAX);
    graph.add_direct(Format::Hex, Format::Oct, Shift(1), u32::MAX);
    graph.add_direct(Format::Oct, Base32, Shift(1), u32::MAX);
    graph.add_direct(Base32, Base64, Shift(1), u32::MAX);
    graph.add_direct(Base64, Format::Bytes, Shift(1), u32::MAX);
    assert_eq!(
        graph.find_shortest_path(&Format::Bytes, &Base64),
        Some(vec![Format::Bytes, Format::Bin, Format::Hex, Format::Oct, Base32, Base64])
    );
    let output = graph.convert(&Format::Bytes, &Base64, &[0, 250]).unwrap();
    assert_eq!(output, [5, 255]);
}

#[test]
fn zero_costs_are_taken() {
    let mut graph = ConversionGraph::new();
    graph.add_direct(Format::Bytes, Format::Bin, Shift(1), 0);
    graph.add_direct(Format::Bin, Format::Bytes, Shift(1), 0);
    graph.add_direct(Format::Bin, Format::Hex, Shift(1), 0);
    graph.add_direct(Format::Bytes, Format::Hex, Shift(7), 1);
    assert_eq!(
        graph.find_shortest_path(&Format::Bytes, &Format::Hex),
        Some(vec![Format::Bytes, Format::Bin, Format::Hex])
    );
}

#[test]
fn converting_a_format_to_itself_copies_whatever_is_registered() {
    let data = [0x1b, 0x34, 0x8f, 0xff, 0x00, 0x0e];
    let empty = ConversionGraph::<Builtin>::new();
    let builtins = ConversionGraph::<Builtin>::default();
    let mut looping = ConversionGraph::new();
    looping.add_direct(Format::Hex, Format::Hex, Shift(1), 1);
    for format in Format::all() {
        assert_eq!(empty.convert(&format, &format, &data).unwrap(), data);
        assert_eq!(builtins.convert(&format, &format, &data).unwrap(), data);
        assert_eq!(looping.convert(&format, &format, &data).unwrap(), data);
        assert_eq!(empty.get_converter(&format, &format).unwrap().convert(&data).unwrap(), data);
        assert!(empty.can_convert(&format, &format));
        assert!(empty.can_convert_between(&format, &format));
    }
    assert_eq!(builtins.convert(&Format::Hex, &Format::Hex, b"not hex").unwrap(), b"not hex");
}

#[test]
fn unconnected_formats_are_unsupported() {
    let graph = ConversionGraph::<Builtin>::default();
    for (from, to) in [(Format::Bytes, Base64), (Base32, Format::Hex), (Base32, Base64)] {
        assert!(graph.get_converter(&from, &to).is_none());
        assert!(!graph.can_convert(&from, &to));
        assert!(!graph.can_convert_between(&from, &to));
        match graph.convert(&from, &to, b"data") {
            Err(BytaryError::UnsupportedConversion(a, b)) => {
                assert_eq!(a, from);
                assert_eq!(b, to);
            }
            other => panic!("unexpected outcome: {:?}", other),
        }
    }
    let empty = ConversionGraph::<Builtin>::new();
    assert!(matches!(
        empty.convert(&Format::Bytes, &Format::Hex, b""),
        Err(BytaryError::UnsupportedConversion(Format::Bytes, Format::Hex))
    ));
}

#[test]
fn indirect_conversion_gives_what_the_direct_one_gives() {
    let data = [0x1b, 0x34, 0x8f, 0xff, 0x00, 0x0e];

    let mut direct = ConversionGraph::new();
    direct.add_direct(Format::Bin, Format::Hex, Builtin::BinToHex, 1);
    assert_eq!(
        direct.find_shortest_path(&Format::Bin, &Format::Hex),
        Some(vec![Format::Bin, Format::Hex])
    );
    assert_eq!(direct.convert(&Format::Bin, &Format::Hex, b"00011011").unwrap(), b"1b");

    let mut indirect = ConversionGraph::new();
    indirect.add_direct(Format::Bytes, Format::Bin, Builtin::BytesToBin, 1);
    indirect.add_direct(Format::Bin, Format::Hex, Builtin::BinToHex, 1);
    assert_eq!(
        indirect.find_shortest_path(&Format::Bytes, &Format::Hex),
        Some(vec![Format::Bytes, Format::Bin, Format::Hex])
    );
    let through_bin = indirect.convert(&Format::Bytes, &Format::Hex, &data).unwrap();

    let builtins = ConversionGraph::<Builtin>::default();
    let straight = builtins.convert(&Format::Bytes, &Format::Hex, &data).unwrap();
    assert_eq!(through_bin, straight);
    assert_eq!(through_bin, b"1b348fff000e");
}

#[test]
fn path_to_converters_stops_at_the_first_missing_edge() {
    let graph = ConversionGraph::<Builtin>::default();
    let whole = graph
        .path_to_converters(&vec![Format::Bytes, Format::Bin, Format::Hex])
        .unwrap();
    assert_eq!(whole, vec![&Builtin::BytesToBin, &Builtin::BinToHex]);
    let broken = graph
        .path_to_converters(&vec![Format::Bytes, Format::Bin, Format::Oct, Format::Bytes])
        .unwrap();
    assert_eq!(broken, vec![&Builtin::BytesToBin]);
    assert!(graph.path_to_converters(&vec![Format::Bin, Format::Bytes]).unwrap().is_empty());
    assert!(graph.path_to_converters(&vec![Format::Hex]).unwrap().is_empty());
    assert!(graph.path_to_converters(&vec![]).unwrap().is_empty());
}

#[test]
fn pipeline_runs_its_stages_in_order() {
    let stages = [Shift(1), Shift(10), Shift(100)];
    let pipeline = ConversionGraph::compose(stages.iter().collect());
    assert_eq!(pipeline.convert(&[0, 200]).unwrap(), [111, 55]);

    let single = ConversionGraph::compose(vec![&stages[1]]);
    assert_eq!(single.convert(&[0, 250]).unwrap(), [10, 4]);

    let none = ConversionGraph::<Shift>::compose(Vec::new());
    assert_eq!(none.convert(&[1, 2, 3]).unwrap(), [1, 2, 3]);

    let copy = ConversionGraph::<Shift>::get_copy_converter();
    assert_eq!(copy.convert(&[1, 2, 3]).unwrap(), [1, 2, 3]);
    assert_eq!(copy.convert(&[]).unwrap(), b"");
}

#[test]
fn pipeline_ends_at_the_first_failure() {
    let mut graph = ConversionGraph::new();
    graph.add_direct(Format::Bytes, Format::Bin, Builtin::BytesToOct, 1);
    graph.add_direct(Format::Bin, Format::Hex, Builtin::BinToHex, 1);
    graph.add_direct(Format::Hex, Format::Oct, Builtin::HexToBytes, 1);
    match graph.convert(&Format::Bytes, &Format::Oct, &[0o12]) {
        Err(BytaryError::InvalidInputData(detail)) => assert_eq!(detail, "0012"),
        other => panic!("unexpected outcome: {:?}", other),
    }
    assert_eq!(graph.convert(&Format::Bytes, &Format::Oct, &[0o11, 0o10]).unwrap(), [0x62]);

    let stages = [Broken, Broken];
    let pipeline = ConversionGraph::compose(stages.iter().collect());
    assert!(matches!(pipeline.convert(b"abc"), Err(BytaryError::InvalidInputData(detail)) if detail == "broken"));
}

#[test]
fn search_helpers() {
    let lists = vec![vec![(Format::Hex, 3u64), (Format::Oct, 4u64)], vec![]];
    assert_eq!(neighbours(&lists, &Format::Bytes), vec![(Format::Hex, 3), (Format::Oct, 4)]);
    assert!(neighbours(&lists, &Format::Bin).is_empty());
    assert!(neighbours(&lists, &Base64).is_empty());
    assert!(is_goal(&Format::Hex, &Format::Hex));
    assert!(!is_goal(&Format::Hex, &Format::Oct));
}

#[test]
fn resolve_names_the_path_of_a_request() {
    let graph = ConversionGraph::<Builtin>::default();
    assert_eq!(graph.resolve("hex", "bin").unwrap(), vec![Format::Bin, Format::Hex]);
    assert_eq!(graph.resolve("oct", "oct").unwrap(), vec![Format::Oct]);
    assert!(matches!(
        graph.resolve("bin", "base32"),
        Err(BytaryError::UnsupportedConversion(Base32, Format::Bin))
    ));
    assert!(matches!(graph.resolve("bin", "x"), Err(BytaryError::InvalidFormat(name)) if name == "x"));
}
