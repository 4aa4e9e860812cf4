use vpr_extra::config::{Config, project_files, dual_rail_files};
use vpr_extra::output::{output_bitstream, output_to_blif};
use vpr_extra::parameter::{load_parameters, parameter_of, parameters_of_text, write_parameters, lookup_parameter, apply_delay_parameters, u32_of_text};
use vpr_extra::parse::ParseError;
use vpr_extra::types::{Point, LogicBlock, Model, Block, Side};
use vpr_extra::bitstream::build_tile_grid;
use vpr_extra::logging::{init_logging, Context};

fn pair(a: &str, b: &str) -> (String, String) {
    (String::from(a), String::from(b))
}

#[test]
fn deterrmine_if_xy_is_an_edge() {
    let p = vec![(0u32, 0u32), (1, 0), (0, 1), (2, 0), (0, 0)];
    let n_tiles: u16 = 2;
    let edges: Vec<Vec<Side>> = p.iter().map(|&(x, y)| Block::try_get_edges(&Point(x, y), n_tiles)).collect();
    assert_eq!(edges[0], vec![Side::Bottom, Side::Left]);
    assert_eq!(edges[1], vec![Side::Bottom]);
    assert_eq!(edges[2], vec![Side::Left]);
    assert_eq!(edges[3], vec![Side::Right, Side::Bottom]);
    assert_eq!(edges[4], edges[0]);
    assert_eq!(Block::try_get_edges(&Point(2, 2), n_tiles), vec![Side::Right, Side::Top]);
    assert!(Block::try_get_edges(&Point(1, 1), n_tiles).is_empty());
}

#[test]
fn parameter_definitions() {
    assert_eq!(parameter_of("parameter WIDTH = 16;"), Some(pair("WIDTH", "16")));
    assert_eq!(parameter_of("A=BC"), Some(pair("A", "BC")));
    assert_eq!(parameter_of("A==BC"), Some(pair("A=", "BC")));
    assert_eq!(parameter_of("parameter X = 12 ;"), Some(pair("X", "12 ")));
    assert_eq!(parameter_of("  DELAY\t=\t300;  "), Some(pair("DELAY", "300; ")));
    assert_eq!(parameter_of("parameterX=12"), Some(pair("parameterX", "12")));
    assert_eq!(parameter_of("WIDTH = 8;"), None);
    assert_eq!(parameter_of("no definition"), None);
    assert_eq!(parameter_of(""), None);
}

#[test]
fn parameter_file_lines() {
    assert_eq!(parameters_of_text("A=BC\nparameter D = 42;\n"), Ok(vec![pair("A", "BC"), pair("D", "42")]));
    assert_eq!(parameters_of_text("A=BC\n\nD=EF\n"), Err(ParseError::MalformedParameter));
    assert_eq!(parameters_of_text(""), Ok(vec![]));
}

#[test]
fn parameters_of_arguments_and_files() {
    let args = vec![
        (String::from("A=BC"), None),
        (String::from("defs.txt"), Some(String::from("D=EF\nparameter G = 12;\n"))),
    ];
    assert_eq!(load_parameters(&args), Ok(vec![pair("A", "BC"), pair("D", "EF"), pair("G", "12")]));
    let args = vec![(String::from("A=BC"), None), (String::from("missing"), None)];
    assert_eq!(load_parameters(&args), Err(ParseError::UnknownParameterSource));
    let args = vec![(String::from("bad.txt"), Some(String::from("D=EF\nnothing\n")))];
    assert_eq!(load_parameters(&args), Err(ParseError::MalformedParameter));
    assert_eq!(load_parameters(&vec![]), Ok(vec![]));
}

#[test]
fn parameter_lookup_takes_the_last_definition() {
    let store = vec![pair("A", "1"), pair("B", "2"), pair("A", "3")];
    assert_eq!(lookup_parameter(&store, "A"), Some(&String::from("3")));
    assert_eq!(lookup_parameter(&store, "B"), Some(&String::from("2")));
    assert_eq!(lookup_parameter(&store, "C"), None);
}

#[test]
fn numbers_of_parameter_values() {
    assert_eq!(u32_of_text(&String::from("300")), Some(300));
    assert_eq!(u32_of_text(&String::from("+7")), Some(7));
    assert_eq!(u32_of_text(&String::from("4294967295")), Some(4294967295));
    assert_eq!(u32_of_text(&String::from("4294967296")), None);
    assert_eq!(u32_of_text(&String::from("12 ")), None);
    assert_eq!(u32_of_text(&String::from("+")), None);
    assert_eq!(u32_of_text(&String::from("")), None);
    assert_eq!(u32_of_text(&String::from("-1")), None);
}

fn delay_store() -> Vec<(String, String)> {
    vec![
        pair("FPGA_DELAY_PAD_EXIT", "1"),
        pair("FPGA_DELAY_BLE_EXIT", "2"),
        pair("FPGA_DELAY_BLE_ENTER", "3"),
        pair("FPGA_DELAY_PAD_ENTER", "4"),
        pair("FPGA_DELAY_TRACKSWITCH", "5"),
    ]
}

#[test]
fn delays_from_parameters() {
    let mut cfg = Config::default();
    cfg.parameter_store = delay_store();
    assert_eq!(apply_delay_parameters(&mut cfg), Ok(()));
    assert_eq!((cfg.fpga_delay_pad_exit, cfg.fpga_delay_ble_exit, cfg.fpga_delay_ble_enter, cfg.fpga_delay_pad_enter, cfg.fpga_delay_trackswitch), (1, 2, 3, 4, 5));

    let mut cfg = Config::default();
    let mut store = delay_store();
    store.remove(2);
    cfg.parameter_store = store;
    assert_eq!(apply_delay_parameters(&mut cfg), Err(ParseError::MissingParameter));
    assert_eq!(cfg.fpga_delay_pad_exit, 0);

    let mut cfg = Config::default();
    let mut store = delay_store();
    store.push(pair("FPGA_DELAY_BLE_EXIT", "2 "));
    cfg.parameter_store = store;
    assert_eq!(apply_delay_parameters(&mut cfg), Err(ParseError::MalformedParameter));
}

#[test]
fn delay_parameters_text() {
    assert_eq!(write_parameters(&vec![], 5, 20), "parameter GLOBAL_CRIT_PATH_DELAY = 20;\nparameter LOCAL_CRIT_PATH_DELAY = 5;\n");
    let store = vec![pair("SYNC_DELAY_PARAM_NAME", "G"), pair("ASYNC_DELAY_PARAM_NAME", "L")];
    assert_eq!(write_parameters(&store, 4294967295, 0), "parameter G = 0;\nparameter L = 4294967295;\n");
    assert_eq!(write_parameters(&store, 1020, 987654), "parameter G = 987654;\nparameter L = 1020;\n");
}

fn small_config() -> Config {
    let mut cfg = Config::default();
    cfg.channel_width = 1;
    cfg.n_rail = 1;
    cfg.lut_k = 1;
    cfg.ble_clk_en_size = 0;
    cfg.fpga_width = 2;
    cfg
}

#[test]
fn bitstream_text_reads_rows_from_the_top() {
    let cfg = small_config();
    let mut tiles = build_tile_grid(&cfg);
    assert_eq!(tiles.len(), 2);
    let bits = tiles[0][0].bitstream().len();
    assert_eq!(bits, 2 + 4 + 6 + 4);
    assert_eq!(output_bitstream(&tiles, 2), "0".repeat(4 * bits));
    tiles[0][1].set_ble_at(0);
    let text = output_bitstream(&tiles, 2);
    let mut expected = "0".repeat(4 * bits);
    expected.replace_range(bits - 1..bits, "1");
    assert_eq!(text, expected);
    tiles[1][0].set_ble_at(1);
    let text = output_bitstream(&tiles, 2);
    expected.replace_range(4 * bits - 2..4 * bits - 1, "1");
    assert_eq!(text, expected);
}

#[test]
fn blif_text_of_a_model() {
    let m = Model {
        name: String::from("m"),
        inputs: vec![String::from("a"), String::from("b")],
        outputs: vec![String::from("s")],
        latched: vec![],
        logic: vec![
            LogicBlock {
                inputs: vec![String::from("a"), String::from("b")],
                output: String::from("s"),
                truth_table: vec![false, true, false, true],
                truth_idxs: vec![1, 3],
            },
            LogicBlock {
                inputs: vec![],
                output: String::from("one"),
                truth_table: vec![true],
                truth_idxs: vec![0],
            },
        ],
    };
    let text = output_to_blif(&vec![m]);
    let first = ".model m\n.inputs a b \n.outputs s \n.names a b s\n01 1\n11 1\n.names one\n1\n.end";
    assert_eq!(text, first);
    assert_eq!(output_to_blif(&vec![]), "");
    let e = Model { name: String::from("e"), inputs: vec![], outputs: vec![], latched: vec![], logic: vec![] };
    let f = Model { name: String::from("f"), inputs: vec![], outputs: vec![], latched: vec![], logic: vec![] };
    let one = ".model e\n.inputs \n.outputs \n.end";
    let two = ".model f\n.inputs \n.outputs \n.end";
    assert_eq!(output_to_blif(&vec![e, f]), format!("{}{}{}", one, one, two));
}

#[test]
fn file_names_of_a_project() {
    let (b, p, r, s) = project_files("top", None, Some("pl"), None, Some("out/bits"));
    assert_eq!((b.as_str(), p.as_str(), r.as_str(), s.as_str()), ("top.pre-vpr.blif", "pl.place", "top.route", "out/bits.bs"));
    let (i, o) = dual_rail_files("top", None, None);
    assert_eq!((i.as_str(), o.as_str()), ("top.abc.blif", "top.abc.dual.blif"));
    let (i, o) = dual_rail_files("top", Some("x.blif"), Some("y.blif"));
    assert_eq!((i.as_str(), o.as_str()), ("x.blif", "y.blif"));
}

#[test]
fn log_levels_of_a_run() {
    let none = Context::default();
    assert_eq!(none, Context {
        loglevel_info: false, loglevel_log: false, loglevel_warn: false, loglevel_debug: false, loglevel_dump: false,
        loglevel_blif: false, loglevel_route: false, loglevel_place: false, loglevel_bitstream: false, loglevel_timing: false,
    });
    let run = |v: u64, options: &Vec<String>| {
        let mut c = Context::default();
        init_logging(&mut c, v, options);
        c
    };
    assert_eq!(run(0, &vec![]), none);
    assert_eq!(run(1, &vec![]), Context { loglevel_info: true, ..none });
    assert_eq!(run(3, &vec![]), Context { loglevel_info: true, loglevel_debug: true, loglevel_dump: true, ..none });
    assert_eq!(run(4, &vec![]), none);
    let options = vec![String::from("blif"), String::from("cp"), String::from("x"), String::from("r")];
    assert_eq!(run(2, &options), Context { loglevel_info: true, loglevel_debug: true, loglevel_blif: true, loglevel_timing: true, loglevel_route: true, ..none });
}

#[test]
fn log_levels_set_before_stay_on() {
    let mut c = Context { loglevel_dump: true, loglevel_place: true, loglevel_log: true, loglevel_warn: true, ..Context::default() };
    init_logging(&mut c, 1, &vec![String::from("s")]);
    assert_eq!(c, Context {
        loglevel_info: true, loglevel_log: true, loglevel_warn: true, loglevel_debug: false, loglevel_dump: true,
        loglevel_blif: false, loglevel_route: false, loglevel_place: true, loglevel_bitstream: true, loglevel_timing: false,
    });
    init_logging(&mut c, 0, &vec![]);
    assert!(c.loglevel_info && c.loglevel_dump && c.loglevel_place && c.loglevel_bitstream);
}

#[test]
fn settings_fit_their_bit_indices() {
    let mut cfg = Config::default();
    assert!(!cfg.fits());
    cfg.channel_width = 4;
    cfg.n_rail = 2;
    cfg.lut_k = 3;
    cfg.ble_clk_en_size = 2;
    cfg.fpga_width = 4;
    assert!(cfg.fits());
    cfg.lut_k = 16;
    assert!(!cfg.fits());
    cfg.lut_k = 15;
    assert!(cfg.fits());
    cfg.ble_clk_en_size = 32768;
    assert!(!cfg.fits());
    cfg.ble_clk_en_size = 2;
    cfg.channel_width = 5462;
    assert!(!cfg.fits());
    cfg.channel_width = 4096;
    cfg.n_rail = 4;
    assert!(!cfg.fits());
}
