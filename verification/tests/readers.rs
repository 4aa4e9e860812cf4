use vpr_extra::parse::{parse_node, read_route_file, read_place_file, parse_route_file, parse_place_file, Parsed, ParseError};
use vpr_extra::blif::{read_blif_file, parse_blif_file, replace, sort_lines};
use vpr_extra::types::{Point, XY, NodeType, NodeMetaType, Source, Sink, Track, Node};

fn node_of(line: &str) -> Parsed<Node> {
    let s = line.as_bytes();
    parse_node(s, 0, s.len())
}

#[test]
fn node_line_of_a_source() {
    match node_of("Node:\t1\tSOURCE (1,3)  Class: 1  ") {
        Parsed::Done(n) => {
            assert_eq!(n, Node { node_nr: 1, node_type: NodeType::Source, xy: Point(1, 3), meta_type: NodeMetaType::Class, meta_nr: 1 });
        },
        other => panic!("unexpected {:?}", other),
    }
}

#[test]
fn node_line_of_a_channel_after_text() {
    match node_of("  Node:\t12\t CHANY (4,0)  Track: 7  ") {
        Parsed::Done(n) => {
            assert_eq!(n, Node { node_nr: 12, node_type: NodeType::Chan(XY::Y), xy: Point(4, 0), meta_type: NodeMetaType::Track, meta_nr: 7 });
        },
        other => panic!("unexpected {:?}", other),
    }
}

#[test]
fn node_line_number_is_the_last_one_after_a_colon() {
    match node_of("Node:\t4\t CHANX (1,2)  Track: 3  Switch: 1") {
        Parsed::Done(n) => {
            assert_eq!(n, Node { node_nr: 4, node_type: NodeType::Chan(XY::X), xy: Point(1, 2), meta_type: NodeMetaType::Track, meta_nr: 1 });
        },
        other => panic!("unexpected {:?}", other),
    }
    assert!(matches!(node_of("Node:\t4\t CHANX (1,2) to (1,3)  Track: 3"), Parsed::Failed(ParseError::UnsupportedNodeType)));
}

#[test]
fn node_line_of_an_unknown_kind() {
    assert!(matches!(node_of("Node:\t1\tBLOCK (1,3)  Class: 1"), Parsed::Failed(ParseError::UnsupportedNodeType)));
}

#[test]
fn node_line_of_an_unknown_number_kind() {
    assert!(matches!(node_of("Node:\t1\tSINK (1,3)  Port: 1"), Parsed::Failed(ParseError::UnsupportedMetaType)));
}

#[test]
fn node_line_that_is_no_node() {
    assert!(matches!(node_of("Block clk (#3) at (0, 2), Pin class 0."), Parsed::Failed(ParseError::MalformedNode)));
    assert!(matches!(node_of(""), Parsed::Failed(ParseError::MalformedNode)));
}

#[test]
fn node_line_with_a_number_too_large() {
    assert!(matches!(node_of("Node:\t1\tSINK (1,3)  Class: 70000"), Parsed::Aborted));
    assert!(matches!(node_of("Node:\t4294967296\tSINK (1,3)  Class: 1"), Parsed::Aborted));
    match node_of("Node:\t4294967295\tSINK (1,3)  Class: 65535") {
        Parsed::Done(n) => {
            assert_eq!(n.node_nr, 4294967295);
            assert_eq!(n.meta_nr, 65535);
        },
        other => panic!("unexpected {:?}", other),
    }
}

const ROUTE: &str = "Array size: 2 x 2 logic blocks.\n\nRouting:\n\nNet 0 (n1)\n\nNode:\t1\tSOURCE (1,1)  Class: 1  \nNode:\t3\t  OPIN (1,1)  Pin: 4  \nNode:\t10\t CHANX (1,1)  Track: 0  \nNode:\t11\t CHANY (1,2)  Track: 1  \nNode:\t5\t  IPIN (2,2)  Pin: 0  \nNode:\t6\t  SINK (2,2)  Class: 0  \nNode:\t10\t CHANX (1,1)  Track: 0  \nNode:\t12\t CHANX (2,1)  Track: 0  \nNode:\t7\t  IPIN (2,1)  Pin: 1  \nNode:\t8\t  SINK (2,1)  Class: 0  \n\n\nNet 1 (in)\n\nNode:\t20\tSOURCE (0,1)  Pad: 0  \nNode:\t21\t  OPIN (0,1)  Pad: 0  \nNode:\t22\t CHANY (0,1)  Track: 1  \nNode:\t23\t  IPIN (1,1)  Pin: 2  \nNode:\t24\t  SINK (1,1)  Class: 0  \n\n\n";

#[test]
fn route_file_with_two_nets() {
    match read_route_file(ROUTE) {
        Parsed::Done((n, nets)) => {
            assert_eq!(n, 2);
            assert_eq!(nets.len(), 2);
            let a = &nets[0];
            assert_eq!(a.name, "n1");
            assert_eq!(a.src, Source(Point(1, 1), NodeMetaType::Pin, 1, 4));
            assert_eq!(a.route_tree.len(), 2);
            let r0 = &a.route_tree[0];
            assert!(r0.from_opin);
            assert_eq!(r0.tracks, vec![
                Track { id: 10, nr: 0, xy: Point(1, 1), orientation: XY::X },
                Track { id: 11, nr: 1, xy: Point(1, 2), orientation: XY::Y },
            ]);
            assert_eq!(r0.sink, Some(Sink(Point(2, 2), NodeMetaType::Pin, 0, 0)));
            let r1 = &a.route_tree[1];
            assert!(!r1.from_opin);
            assert_eq!(r1.tracks.len(), 2);
            assert_eq!(r1.tracks[1].xy, Point(2, 1));
            assert_eq!(r1.sink, Some(Sink(Point(2, 1), NodeMetaType::Pin, 0, 1)));
            let b = &nets[1];
            assert_eq!(b.name, "in");
            assert_eq!(b.src, Source(Point(0, 1), NodeMetaType::Pad, 0, 0));
            assert_eq!(b.route_tree.len(), 1);
            assert!(b.route_tree[0].from_opin);
        },
        other => panic!("unexpected {:?}", other),
    }
    assert!(parse_route_file(ROUTE).is_ok());
}

#[test]
fn route_file_branch_from_the_output_pin() {
    let text = "Array size: 3 x 3 logic blocks.\nNet 0 (a)\n\nNode:\t1\tSOURCE (1,1)  Class: 1  \nNode:\t3\t  OPIN (1,1)  Pin: 4  \nNode:\t10\t CHANX (1,1)  Track: 0  \nNode:\t5\t  IPIN (2,2)  Pin: 0  \nNode:\t6\t  SINK (2,2)  Class: 0  \nNode:\t3\t  OPIN (1,1)  Pin: 4  \nNode:\t13\t CHANY (1,1)  Track: 2  \nNode:\t7\t  IPIN (1,2)  Pin: 1  \nNode:\t8\t  SINK (1,2)  Class: 0  \n";
    match read_route_file(text) {
        Parsed::Done((n, nets)) => {
            assert_eq!(n, 3);
            assert_eq!(nets[0].route_tree.len(), 2);
            assert!(nets[0].route_tree[0].from_opin);
            assert!(nets[0].route_tree[1].from_opin);
            assert_eq!(nets[0].route_tree[1].tracks[0].id, 13);
        },
        other => panic!("unexpected {:?}", other),
    }
}

#[test]
fn route_file_with_a_global_net() {
    let text = "Array size: 2 x 2 logic blocks.\n\nNet 0 (clk): global net connecting:\n\nBlock clk (#3) at (0, 2), Pin class 0.\nBlock ff (#5) at (1, 1), Pin class 2.\n";
    assert!(matches!(read_route_file(text), Parsed::Failed(ParseError::MalformedNode)));
    let text = "Array size: 2 x 2 logic blocks.\n\nNet 0 (clk): global net connecting:\n\nBlock clk (#3) at (0, 2), Pin class 0.\n";
    assert!(matches!(read_route_file(text), Parsed::Failed(ParseError::MissingPin)));
}

#[test]
fn route_file_errors_and_aborts() {
    assert!(matches!(read_route_file("Array size: 99999999999 x 2\nNet 0 (a)\n\n"), Parsed::Failed(ParseError::NumberTooLarge)));
    assert!(matches!(read_route_file("Net 0 (a)\n\nNode:\t1\tSOURCE (1,1)  Class: 1"), Parsed::Aborted));
    assert!(matches!(read_route_file(""), Parsed::Aborted));
    assert!(matches!(read_route_file("Array size: 2 x 2\n\nNet 0 (a)\n\n\n\nNode: x"), Parsed::Failed(ParseError::MissingSource)));
    assert!(matches!(read_route_file("Array size: 2 x 2\n\nNet 0 (a)\n\nNode:\t1\tSOURCE (1,1)  Class: 1\n"), Parsed::Failed(ParseError::MissingPin)));
    assert!(matches!(read_route_file("Array size: 2 x 2\n\nNet 0 (a)\n\nNode:\t1\tSOURCE (1,1)  Class: 1\nNode:\t3\t  OPIN (1,1)  Pin: 4\nNode:\t5\t  IPIN (2,2)  Pin: 0\nNode:\t6\t  SINK (2,2)  Class: 0\n"), Parsed::Aborted));
    assert!(matches!(read_route_file("Array size: 2 x 2\n\nNet 0 (a)\n\nNode:\t1\tSOURCE (1,1)  Class: 1\nNode:\t3\t  OPIN (1,1)  Pin: 4\nNode:\t10\t CHANX (1,1)  Track: 0\nNode:\t5\t  IPIN (2,2)  Pin: 0\n"), Parsed::Failed(ParseError::MalformedNode)));
    assert!(matches!(read_route_file("Array size: 2 x 2\n\nNet 99999999999 (a)\n\nx"), Parsed::Failed(ParseError::NumberTooLarge)));
    match read_route_file("Routing only\n") {
        Parsed::Done((n, nets)) => {
            assert_eq!(n, 0);
            assert!(nets.is_empty());
        },
        other => panic!("unexpected {:?}", other),
    }
}

const PLACE: &str = "Netlist file: adder.net Architecture file: k4.xml\nArray size: 6 x 6 logic blocks\n\n#block name\tx\ty\tsubblk\tblock number\n#----------\t--\t--\t------\t------------\nsum[1]\t\t7\t4\t0\t#0\nn29\t\t2\t1\t0\t#1\r\nout:sum[1]\t7\t0\t1\t#2";

#[test]
fn place_file_with_placements() {
    match read_place_file(PLACE) {
        Parsed::Done((n, netlist, arch, place)) => {
            assert_eq!(n, 6);
            assert_eq!(netlist, "adder.net");
            assert_eq!(arch, "k4.xml");
            assert_eq!(place.entries, vec![
                (String::from("sum[1]"), Point(7, 4)),
                (String::from("n29"), Point(2, 1)),
                (String::from("out:sum[1]"), Point(7, 0)),
            ]);
            assert_eq!(place.get(&String::from("n29")), Some(Point(2, 1)));
            assert_eq!(place.get_name(&Point(7, 0)), Some(&String::from("out:sum[1]")));
        },
        other => panic!("unexpected {:?}", other),
    }
    assert!(parse_place_file(PLACE).is_ok());
}

#[test]
fn place_file_header_names_split_at_the_last_architecture() {
    let text = "Netlist file: a Architecture file: b Architecture file: c\nArray size: 1 x 1\n\n";
    match read_place_file(text) {
        Parsed::Done((n, netlist, arch, place)) => {
            assert_eq!(n, 1);
            assert_eq!(netlist, "a Architecture file: b");
            assert_eq!(arch, "c");
            assert!(place.entries.is_empty());
        },
        other => panic!("unexpected {:?}", other),
    }
}

#[test]
fn place_file_without_header() {
    match read_place_file("x\ny\nz\nblk 1 2 0 #0\n") {
        Parsed::Done((n, netlist, arch, place)) => {
            assert_eq!(n, 0);
            assert_eq!(netlist, "");
            assert_eq!(arch, "");
            assert_eq!(place.entries, vec![(String::from("blk"), Point(1, 2))]);
        },
        other => panic!("unexpected {:?}", other),
    }
}

#[test]
fn place_file_errors_and_aborts() {
    assert!(matches!(parse_place_file("N\nArray size: 4294967296 x\n"), Err(ParseError::NumberTooLarge)));
    assert!(matches!(read_place_file("a\nb\nc\nblk 4294967296 2 0 #0\n"), Parsed::Aborted));
}

const BLIF: &str = "# Benchmark \"adder\" written by ABC\n.model adder\n.inputs a b \\\nc\n.outputs s\n.names a b c s\n1-1 1\n.names a \\\nb t\n00 1\n.end\n";

#[test]
fn blif_file_with_one_model() {
    match read_blif_file(BLIF) {
        Parsed::Done(models) => {
            assert_eq!(models.len(), 1);
            let m = &models[0];
            assert_eq!(m.name, "adder\n");
            assert_eq!(m.inputs, vec![String::from("a"), String::from("b"), String::from("\\"), String::from("c")]);
            assert_eq!(m.outputs, vec![String::from("s")]);
            assert!(m.latched.is_empty());
            assert_eq!(m.logic.len(), 2);
            let l0 = &m.logic[0];
            assert_eq!(l0.inputs, vec![String::from("a"), String::from("b"), String::from("c")]);
            assert_eq!(l0.output, "s");
            assert_eq!(l0.truth_table, vec![false, false, false, false, false, true, false, true]);
            assert_eq!(l0.truth_idxs, vec![5, 7]);
            let l1 = &m.logic[1];
            assert_eq!(l1.inputs, vec![String::from("a"), String::from("\\"), String::from("b")]);
            assert_eq!(l1.output, "t");
            assert_eq!(l1.truth_idxs, vec![0]);
        },
        other => panic!("unexpected {:?}", other),
    }
    assert!(parse_blif_file(BLIF).is_ok());
}

#[test]
fn blif_file_aborts() {
    assert!(matches!(read_blif_file(".model m\n.inputs a\n.outputs b\n"), Parsed::Aborted));
    assert!(matches!(read_blif_file(""), Parsed::Aborted));
    assert!(matches!(read_blif_file("#\n.model m\n.inputs a\n"), Parsed::Aborted));
    assert!(matches!(read_blif_file("#\n.model m\n.inputs a\n.outputs b\n.names a b\n1111 1\n"), Parsed::Aborted));
    assert!(matches!(read_blif_file("#\n.model m\n.inputs a\n.outputs b\n.names a b\n12 1\n"), Parsed::Aborted));
    assert!(matches!(read_blif_file("#\n.model m\n.inputs a\n.outputs b\n.names a b\nx\n"), Parsed::Aborted));
    assert!(matches!(read_blif_file("#\n.model m\n.inputs a\n.outputs b\n.names a \\\n"), Parsed::Aborted));
}

#[test]
fn blif_file_without_models() {
    match read_blif_file("# nothing\n") {
        Parsed::Done(models) => assert!(models.is_empty()),
        other => panic!("unexpected {:?}", other),
    }
}

fn lines_of(v: &[&str]) -> Vec<Vec<u8>> {
    v.iter().map(|s| s.as_bytes().to_vec()).collect()
}

#[test]
fn replace_expands_dont_cares_and_sorts() {
    let r = replace(lines_of(&["1-- 1", "011 1"]));
    assert_eq!(r, lines_of(&["011 1", "100 1", "101 1", "110 1", "111 1"]));
    let r = replace(lines_of(&["-1 1", "-1 1"]));
    assert_eq!(r, lines_of(&["01 1", "01 1", "11 1", "11 1"]));
    assert!(replace(Vec::new()).is_empty());
}

#[test]
fn sort_lines_in_string_order() {
    let r = sort_lines(lines_of(&["b", "ab", "a", "", "ba"]));
    assert_eq!(r, lines_of(&["", "a", "ab", "b", "ba"]));
}
